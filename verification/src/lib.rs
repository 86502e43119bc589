//! Dining philosophers as message-driven state machines.
//!
//! A [`Chopstick`] is an exclusive token that answers `Take` and `Put`
//! requests; a [`Philosopher`] cycles between thinking and eating and claims
//! the two chopsticks it is seated between. Neither blocks: a handler reads
//! one message, updates its own state and records in a [`Context`] what is to
//! be sent next. Whatever runs the actors only has to carry those records to
//! their destinations.
//!
//! A [`Table`] does so one message at a time, in any order its driver picks.
//! Its mathematical picture, the [`World`], is what the laws of the protocol
//! are stated and proved about: no chopstick is ever in two hands
//! ([`safety`]), and a philosopher never keeps one chopstick while it waits
//! for the other, so that someone can always get to eat ([`progress`]).

pub mod accounting;
pub mod chopstick;
pub mod context;
pub mod message;
pub mod philosopher;
pub mod progress;
pub mod safety;
pub mod table;
pub mod world;

pub use chopstick::Chopstick;
pub use context::{Context, Effect, Handler};
pub use message::{Action, Address, ChopstickAction, ChopstickPosition, ChopstickState};
pub use philosopher::{Philosopher, PhilosopherState};
pub use table::Table;
pub use world::{Envelope, Step, World};
