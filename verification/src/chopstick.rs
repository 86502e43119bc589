//! The chopstick: a token that one philosopher at a time may have.

use vstd::prelude::*;

use crate::context::{Context, Effect, Handler};
use crate::message::{ChopstickAction, ChopstickState};

verus! {

/// A chopstick. It is either free or busy, and does not know who has it.
#[derive(Clone, Debug)]
pub struct Chopstick {
    is_busy: bool,
}

/// Whether a chopstick is busy once it has handled `msg`, given whether it
/// was busy before: a `Take` leaves it busy whoever gets it, a `Put` frees it.
pub open spec fn busy_after(busy: bool, msg: ChopstickAction) -> bool {
    match msg {
        ChopstickAction::Take(_, _) => true,
        ChopstickAction::Put => false,
    }
}

/// What a chopstick sends in response to `msg`: to a `Take`, one answer to
/// the requester, granting the chopstick exactly if it was free; to a `Put`,
/// nothing.
pub open spec fn answer(busy: bool, msg: ChopstickAction) -> Seq<Effect> {
    match msg {
        ChopstickAction::Take(requester, position) => seq![
            Effect::ToPhilosopher {
                to: requester,
                state: if busy {
                    ChopstickState::ChopstickUnAvailable(position)
                } else {
                    ChopstickState::ChopstickAvailable(position)
                },
            },
        ],
        ChopstickAction::Put => Seq::empty(),
    }
}

impl Chopstick {
    /// Whether some philosopher has the chopstick.
    pub closed spec fn busy(&self) -> bool {
        self.is_busy
    }

    /// A free chopstick.
    pub fn new() -> (chopstick: Chopstick)
        ensures
            !chopstick.busy(),
    {
        Chopstick { is_busy: false }
    }

    /// Whether some philosopher has the chopstick.
    pub fn is_busy(&self) -> (busy: bool)
        ensures
            busy == self.busy(),
    {
        self.is_busy
    }
}

impl Handler<ChopstickAction> for Chopstick {
    /// Grants or refuses a `Take`, and frees the chopstick on a `Put`.
    fn handle(&mut self, msg: ChopstickAction, ctx: &mut Context)
        ensures
            final(self).busy() == busy_after(old(self).busy(), msg),
            msg == ChopstickAction::Put && !old(self).busy() ==> *final(self) == *old(self),
            final(ctx).address == old(ctx).address,
            final(ctx).outbox@ == old(ctx).outbox@ + answer(old(self).busy(), msg),
    {
        match msg {
            ChopstickAction::Take(requester, position) => {
                if !self.is_busy {
                    ctx.send_to_philosopher(
                        requester,
                        ChopstickState::ChopstickAvailable(position),
                    );
                    self.is_busy = true;
                } else {
                    ctx.send_to_philosopher(
                        requester,
                        ChopstickState::ChopstickUnAvailable(position),
                    );
                }
            },
            ChopstickAction::Put => {
                self.is_busy = false;
            },
        }
    }
}

/// Laying down a chopstick that is free changes nothing and sends nothing,
/// so a `Put` may be repeated.
pub proof fn lemma_put_is_idempotent(busy: bool)
    ensures
        busy_after(false, ChopstickAction::Put) == false,
        answer(false, ChopstickAction::Put) == Seq::<Effect>::empty(),
        busy_after(busy_after(busy, ChopstickAction::Put), ChopstickAction::Put) == busy_after(
            busy,
            ChopstickAction::Put,
        ),
{
}

} // verus!
