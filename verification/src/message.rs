//! The messages that philosophers and chopsticks exchange.

use vstd::prelude::*;

verus! {

/// How an actor is addressed: its index among the actors of its kind.
pub type Address = usize;

/// The side of a philosopher on which a chopstick lies.
#[derive(Clone, Copy, PartialEq, Eq, Structural, Debug)]
pub enum ChopstickPosition {
    Left,
    Right,
}

impl ChopstickPosition {
    /// The opposite side.
    pub open spec fn other(self) -> ChopstickPosition {
        match self {
            ChopstickPosition::Left => ChopstickPosition::Right,
            ChopstickPosition::Right => ChopstickPosition::Left,
        }
    }
}

/// A request to a chopstick.
#[derive(Clone, Copy, PartialEq, Eq, Structural, Debug)]
pub enum ChopstickAction {
    /// The philosopher at the given address asks for the chopstick, which
    /// lies on the given side of it; the answer goes back to that address.
    Take(Address, ChopstickPosition),
    /// The chopstick is laid down again.
    Put,
}

/// A chopstick's answer to a `Take`, naming the side the request was for.
#[derive(Clone, Copy, PartialEq, Eq, Structural, Debug)]
pub enum ChopstickState {
    /// The chopstick was free and now belongs to the requester.
    ChopstickAvailable(ChopstickPosition),
    /// The chopstick is in use; nothing changed.
    ChopstickUnAvailable(ChopstickPosition),
}

impl ChopstickState {
    /// The side that the answered request was for.
    pub open spec fn position(self) -> ChopstickPosition {
        match self {
            ChopstickState::ChopstickAvailable(position) => position,
            ChopstickState::ChopstickUnAvailable(position) => position,
        }
    }
}

/// What a philosopher is told to do, by a timer of its own or from outside.
#[derive(Clone, Copy, PartialEq, Eq, Structural, Debug)]
pub enum Action {
    Think,
    Eat,
}

} // verus!
