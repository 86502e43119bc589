//! The philosopher: a state machine that claims two chopsticks, eats, and
//! lays them down again.

use vstd::prelude::*;

use crate::context::{Context, Effect, Handler};
use crate::message::{Action, Address, ChopstickAction, ChopstickPosition, ChopstickState};

verus! {

/// How long a philosopher thinks before it gets hungry, in milliseconds.
pub const THINKING_MILLIS: u64 = 5000;

/// How long a philosopher eats, in milliseconds.
pub const EATING_MILLIS: u64 = 2000;

/// How long a philosopher waits after a failed attempt before it tries
/// again, in milliseconds.
pub const RETRY_MILLIS: u64 = 10;

/// Where a philosopher is in its cycle.
#[derive(Clone, Copy, PartialEq, Eq, Structural, Debug)]
pub enum PhilosopherState {
    /// Seated, not yet told to think.
    Waiting,
    /// Has both chopsticks.
    Eating,
    /// Has no chopstick and has asked for none.
    Thinking,
    /// Has asked for both chopsticks and has no answer yet.
    Hungry,
    /// Was granted the chopstick on the given side and awaits the answer for
    /// the other one.
    WaitingForOtherChopstick(ChopstickPosition),
    /// Was refused one chopstick and awaits the answer for the other one.
    FirstChopStickDenied,
}

/// A philosopher, seated between the chopsticks at `left` and `right`.
#[derive(Clone, Debug)]
pub struct Philosopher {
    pub name: String,
    pub state: PhilosopherState,
    pub left: Address,
    pub right: Address,
}

impl Philosopher {
    /// The address of the chopstick on the given side.
    pub open spec fn chopstick(&self, position: ChopstickPosition) -> Address {
        match position {
            ChopstickPosition::Left => self.left,
            ChopstickPosition::Right => self.right,
        }
    }

    /// Whether the philosopher counts the chopstick on the given side as its
    /// own: both while eating, the granted one while it awaits the other.
    pub open spec fn holds(&self, position: ChopstickPosition) -> bool {
        match self.state {
            PhilosopherState::Eating => true,
            PhilosopherState::WaitingForOtherChopstick(held) => held == position,
            _ => false,
        }
    }

    /// The state in which an `Action` leaves the philosopher. `Eat` makes a
    /// thinking philosopher hungry and is ignored otherwise; `Think` makes
    /// any philosopher think.
    pub open spec fn state_after_action(&self, msg: Action) -> PhilosopherState {
        match msg {
            Action::Eat => if self.state == PhilosopherState::Thinking {
                PhilosopherState::Hungry
            } else {
                self.state
            },
            Action::Think => PhilosopherState::Thinking,
        }
    }

    /// What the philosopher at address `me` asks for when it handles an
    /// `Action`. On `Eat`, if it was thinking, both chopsticks, left first.
    /// On `Think`, if it was eating, it lays both down, left first; in any
    /// case it sets the timer after which it gets hungry.
    pub open spec fn effects_of_action(&self, msg: Action, me: Address) -> Seq<Effect> {
        match msg {
            Action::Eat => if self.state == PhilosopherState::Thinking {
                seq![
                    Effect::ToChopstick {
                        to: self.left,
                        command: ChopstickAction::Take(me, ChopstickPosition::Left),
                    },
                    Effect::ToChopstick {
                        to: self.right,
                        command: ChopstickAction::Take(me, ChopstickPosition::Right),
                    },
                ]
            } else {
                Seq::empty()
            },
            Action::Think => if self.state == PhilosopherState::Eating {
                seq![
                    Effect::ToChopstick { to: self.left, command: ChopstickAction::Put },
                    Effect::ToChopstick { to: self.right, command: ChopstickAction::Put },
                    Effect::Later { action: Action::Eat, millis: THINKING_MILLIS },
                ]
            } else {
                seq![Effect::Later { action: Action::Eat, millis: THINKING_MILLIS }]
            },
        }
    }

    /// The state in which a chopstick's answer leaves the philosopher.
    ///
    /// The first answer of a hungry philosopher decides between
    /// `WaitingForOtherChopstick` and `FirstChopStickDenied`. The second
    /// answer ends the attempt: the philosopher eats if both were granted and
    /// goes back to thinking otherwise. A philosopher that has asked for
    /// nothing ignores answers.
    pub open spec fn state_after_answer(&self, msg: ChopstickState) -> PhilosopherState {
        match self.state {
            PhilosopherState::Hungry => match msg {
                ChopstickState::ChopstickAvailable(position) =>
                    PhilosopherState::WaitingForOtherChopstick(position),
                ChopstickState::ChopstickUnAvailable(_) => PhilosopherState::FirstChopStickDenied,
            },
            PhilosopherState::WaitingForOtherChopstick(_) => match msg {
                ChopstickState::ChopstickAvailable(_) => PhilosopherState::Eating,
                ChopstickState::ChopstickUnAvailable(_) => PhilosopherState::Thinking,
            },
            PhilosopherState::FirstChopStickDenied => PhilosopherState::Thinking,
            _ => self.state,
        }
    }

    /// What the philosopher asks for when it handles a chopstick's answer.
    ///
    /// When the second answer completes the pair, the timer that ends the
    /// meal. When the attempt fails, the chopstick that was granted, if any,
    /// is laid down at once, and the timer for the next attempt is set.
    pub open spec fn effects_of_answer(&self, msg: ChopstickState) -> Seq<Effect> {
        match self.state {
            PhilosopherState::WaitingForOtherChopstick(held) => match msg {
                ChopstickState::ChopstickAvailable(_) => seq![
                    Effect::Later { action: Action::Think, millis: EATING_MILLIS },
                ],
                ChopstickState::ChopstickUnAvailable(_) => seq![
                    Effect::ToChopstick { to: self.chopstick(held), command: ChopstickAction::Put },
                    Effect::Later { action: Action::Eat, millis: RETRY_MILLIS },
                ],
            },
            PhilosopherState::FirstChopStickDenied => match msg {
                ChopstickState::ChopstickAvailable(position) => seq![
                    Effect::ToChopstick {
                        to: self.chopstick(position),
                        command: ChopstickAction::Put,
                    },
                    Effect::Later { action: Action::Eat, millis: RETRY_MILLIS },
                ],
                ChopstickState::ChopstickUnAvailable(_) => seq![
                    Effect::Later { action: Action::Eat, millis: RETRY_MILLIS },
                ],
            },
            _ => Seq::empty(),
        }
    }

    /// A philosopher seated between the chopsticks at `left` and `right`,
    /// waiting to be told to think.
    pub fn new(name: &str, left: Address, right: Address) -> (philosopher: Philosopher)
        ensures
            philosopher.name@ == name@,
            philosopher.state == PhilosopherState::Waiting,
            philosopher.left == left,
            philosopher.right == right,
    {
        Philosopher { name: name.to_string(), state: PhilosopherState::Waiting, left, right }
    }

    /// The address of the chopstick on the given side.
    fn address_of(&self, position: ChopstickPosition) -> (address: Address)
        ensures
            address == self.chopstick(position),
    {
        match position {
            ChopstickPosition::Left => self.left,
            ChopstickPosition::Right => self.right,
        }
    }
}

impl Handler<Action> for Philosopher {
    /// Starts an attempt to eat, or goes (back) to thinking.
    fn handle(&mut self, msg: Action, ctx: &mut Context)
        ensures
            *final(self) == (Philosopher {
                state: old(self).state_after_action(msg),
                ..*old(self)
            }),
            final(ctx).address == old(ctx).address,
            final(ctx).outbox@ == old(ctx).outbox@ + old(self).effects_of_action(
                msg,
                old(ctx).address,
            ),
    {
        match msg {
            Action::Eat => match self.state {
                PhilosopherState::Thinking => {
                    let me = ctx.address();
                    chopstick_command(
                        ctx,
                        self.left,
                        ChopstickAction::Take(me, ChopstickPosition::Left),
                    );
                    chopstick_command(
                        ctx,
                        self.right,
                        ChopstickAction::Take(me, ChopstickPosition::Right),
                    );
                    self.state = PhilosopherState::Hungry;
                },
                _ => {},
            },
            Action::Think => {
                match self.state {
                    PhilosopherState::Eating => {
                        chopstick_command(ctx, self.left, ChopstickAction::Put);
                        chopstick_command(ctx, self.right, ChopstickAction::Put);
                    },
                    _ => {},
                }
                self.state = PhilosopherState::Thinking;
                start_thinking(ctx, THINKING_MILLIS);
            },
        }
    }
}

impl Handler<ChopstickState> for Philosopher {
    /// Takes a chopstick's answer into account.
    fn handle(&mut self, msg: ChopstickState, ctx: &mut Context)
        ensures
            *final(self) == (Philosopher {
                state: old(self).state_after_answer(msg),
                ..*old(self)
            }),
            final(ctx).address == old(ctx).address,
            final(ctx).outbox@ == old(ctx).outbox@ + old(self).effects_of_answer(msg),
    {
        match self.state {
            PhilosopherState::Hungry => match msg {
                ChopstickState::ChopstickAvailable(position) => {
                    self.state = PhilosopherState::WaitingForOtherChopstick(position);
                },
                ChopstickState::ChopstickUnAvailable(_) => {
                    self.state = PhilosopherState::FirstChopStickDenied;
                },
            },
            PhilosopherState::WaitingForOtherChopstick(held) => match msg {
                ChopstickState::ChopstickAvailable(_) => {
                    self.state = PhilosopherState::Eating;
                    start_eating(ctx, EATING_MILLIS);
                },
                ChopstickState::ChopstickUnAvailable(_) => {
                    chopstick_command(ctx, self.address_of(held), ChopstickAction::Put);
                    self.state = PhilosopherState::Thinking;
                    start_thinking(ctx, RETRY_MILLIS);
                },
            },
            PhilosopherState::FirstChopStickDenied => {
                match msg {
                    ChopstickState::ChopstickAvailable(position) => {
                        chopstick_command(ctx, self.address_of(position), ChopstickAction::Put);
                    },
                    ChopstickState::ChopstickUnAvailable(_) => {},
                }
                self.state = PhilosopherState::Thinking;
                start_thinking(ctx, RETRY_MILLIS);
            },
            _ => {},
        }
    }
}

/// Sets the timer after which the philosopher gets hungry.
fn start_thinking(ctx: &mut Context, millis: u64)
    ensures
        final(ctx).address == old(ctx).address,
        final(ctx).outbox@ == old(ctx).outbox@.push(
            Effect::Later { action: Action::Eat, millis },
        ),
{
    ctx.notify_later(Action::Eat, millis);
}

/// Sets the timer after which the philosopher stops eating.
fn start_eating(ctx: &mut Context, millis: u64)
    ensures
        final(ctx).address == old(ctx).address,
        final(ctx).outbox@ == old(ctx).outbox@.push(
            Effect::Later { action: Action::Think, millis },
        ),
{
    ctx.notify_later(Action::Think, millis);
}

/// Sends `action` to the chopstick at `chopstick`.
fn chopstick_command(ctx: &mut Context, chopstick: Address, action: ChopstickAction)
    ensures
        final(ctx).address == old(ctx).address,
        final(ctx).outbox@ == old(ctx).outbox@.push(
            Effect::ToChopstick { to: chopstick, command: action },
        ),
{
    ctx.send_to_chopstick(chopstick, action);
}

/// The rule that rules out deadlock: a philosopher that holds one chopstick
/// does not wait beyond the next answer. If the other chopstick is granted
/// it eats; if it is refused, it lays down the one it holds and thinks
/// before it tries again.
pub proof fn lemma_second_answer_ends_attempt(
    philosopher: Philosopher,
    held: ChopstickPosition,
    msg: ChopstickState,
)
    requires
        philosopher.state == PhilosopherState::WaitingForOtherChopstick(held),
    ensures
        msg is ChopstickAvailable ==> philosopher.state_after_answer(msg)
            == PhilosopherState::Eating,
        msg is ChopstickUnAvailable ==> philosopher.state_after_answer(msg)
            == PhilosopherState::Thinking && philosopher.effects_of_answer(msg) == seq![
            Effect::ToChopstick { to: philosopher.chopstick(held), command: ChopstickAction::Put },
            Effect::Later { action: Action::Eat, millis: RETRY_MILLIS },
        ],
{
}

/// A philosopher starts to eat only on a grant that reaches it while it
/// holds one chopstick.
pub proof fn lemma_eats_only_with_both(
    philosopher: Philosopher,
    action: Action,
    msg: ChopstickState,
)
    requires
        philosopher.state != PhilosopherState::Eating,
    ensures
        philosopher.state_after_action(action) != PhilosopherState::Eating,
        philosopher.state_after_answer(msg) == PhilosopherState::Eating ==> {
            &&& philosopher.state is WaitingForOtherChopstick
            &&& msg is ChopstickAvailable
        },
{
}

} // verus!
