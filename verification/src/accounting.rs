//! What holds of the table at every moment, and what it says of the hands
//! that hold chopsticks.
//!
//! A chopstick is *claimed* by a philosopher from the moment it is granted
//! until the philosopher sends the `Put` for it. Two things are stated here
//! by counting claims and messages.
//!
//! A table is *safe* if no chopstick is claimed twice, or claimed while its
//! `Put` is under way, and every chopstick that is claimed or being put down
//! is busy. This survives lost messages and orders from outside.
//!
//! A table is *sound* if, beyond that, nothing has gone astray: every busy
//! chopstick is claimed or being put down, and each philosopher has just the
//! requests, answers and timers under way that its state expects. This holds
//! as long as no message is lost and nobody is told from outside to think.

use vstd::prelude::*;

use crate::message::{Action, Address, ChopstickAction, ChopstickPosition};
use crate::philosopher::PhilosopherState;
use crate::world::{Envelope, World};

verus! {

/// One if `condition` holds, zero otherwise.
pub open spec fn one_if(condition: bool) -> nat {
    if condition {
        1
    } else {
        0
    }
}

impl World {
    /// The requests under way from philosopher `p` for the chopstick on its
    /// side `s`.
    pub open spec fn takes(self, p: Address, s: ChopstickPosition) -> nat {
        self.pool.count(self.take(p, s))
    }

    /// The grants under way to philosopher `p` for side `s`.
    pub open spec fn grants(self, p: Address, s: ChopstickPosition) -> nat {
        self.pool.count(Envelope::grant(p, s))
    }

    /// The refusals under way to philosopher `p` for side `s`.
    pub open spec fn refusals(self, p: Address, s: ChopstickPosition) -> nat {
        self.pool.count(Envelope::refusal(p, s))
    }

    /// The `Put`s under way to chopstick `c`.
    pub open spec fn puts(self, c: Address) -> nat {
        self.pool.count(Envelope::put(c))
    }

    /// The copies of `action` under way to philosopher `p`.
    pub open spec fn timers(self, p: Address, action: Action) -> nat {
        self.pool.count(Envelope::timer(p, action))
    }

    /// What is under way of philosopher `p`'s attempt at side `s`: its
    /// request or the answer to it.
    pub open spec fn open_requests(self, p: Address, s: ChopstickPosition) -> nat {
        self.takes(p, s) + self.grants(p, s) + self.refusals(p, s)
    }

    /// How often the chopstick on side `s` of philosopher `p` is `p`'s: once
    /// for a grant under way, once if `p` holds it.
    pub open spec fn claims(self, p: Address, s: ChopstickPosition) -> nat {
        self.grants(p, s) + one_if(self.philosophers[p as int].holds(s))
    }

    /// Whether chopstick `c` is the one on side `s` of philosopher `p`, and
    /// is `p`'s.
    pub open spec fn owned_by(self, c: Address, p: Address, s: ChopstickPosition) -> bool {
        &&& p < self.philosophers.len()
        &&& self.philosophers[p as int].chopstick(s) == c
        &&& self.claims(p, s) >= 1
    }

    /// Whether `envelope` names actors that exist, and, if it is a request
    /// for a chopstick, goes to the chopstick on the side it names.
    pub open spec fn well_addressed(self, envelope: Envelope) -> bool {
        match envelope {
            Envelope::ToChopstick { to, command: ChopstickAction::Take(p, s) } => {
                &&& p < self.philosophers.len()
                &&& to == self.philosophers[p as int].chopstick(s)
            },
            Envelope::ToChopstick { to, command: ChopstickAction::Put } => to
                < self.chopsticks.len(),
            Envelope::ToPhilosopher { to, state } => to < self.philosophers.len(),
            Envelope::Timer { to, action } => to < self.philosophers.len(),
        }
    }

    /// Whether philosopher `p` sits between two chopsticks that exist.
    pub open spec fn well_seated(self, p: Address) -> bool {
        &&& self.philosophers[p as int].left < self.chopsticks.len()
        &&& self.philosophers[p as int].right < self.chopsticks.len()
    }

    /// Whether what is under way for philosopher `p` is what its state
    /// expects: a request or an answer for each side while it is hungry, for
    /// the other side once it holds one, for one side after a first refusal,
    /// and nothing when it is not trying.
    pub open spec fn attempt_fits(self, p: Address) -> bool {
        let left = self.open_requests(p, ChopstickPosition::Left);
        let right = self.open_requests(p, ChopstickPosition::Right);
        match self.philosophers[p as int].state {
            PhilosopherState::Hungry => left == 1 && right == 1,
            PhilosopherState::WaitingForOtherChopstick(held) => self.open_requests(p, held) == 0
                && self.open_requests(p, held.other()) == 1,
            PhilosopherState::FirstChopStickDenied => left + right == 1,
            _ => left == 0 && right == 0,
        }
    }

    /// Whether the timers of philosopher `p` are what its state expects: a
    /// `Think` is under way exactly while it waits to be started or eats,
    /// and an `Eat` whenever it thinks.
    pub open spec fn timers_fit(self, p: Address) -> bool {
        let state = self.philosophers[p as int].state;
        &&& self.timers(p, Action::Think) == one_if(
            state == PhilosopherState::Waiting || state == PhilosopherState::Eating,
        )
        &&& state == PhilosopherState::Thinking ==> self.timers(p, Action::Eat) >= 1
    }

    /// Whether chopstick `c` is busy exactly if it is some philosopher's or
    /// its `Put` is under way, and never both or twice.
    pub open spec fn accounted(self, c: Address) -> bool {
        &&& self.puts(c) <= 1
        &&& self.chopsticks[c as int] <==> (self.puts(c) == 1 || exists|
            p: Address,
            s: ChopstickPosition,
        | self.owned_by(c, p, s))
        &&& forall|p: Address, s: ChopstickPosition| #[trigger]
            self.owned_by(c, p, s) ==> self.puts(c) == 0 && self.claims(p, s) == 1
        &&& forall|p: Address, s: ChopstickPosition, q: Address, t: ChopstickPosition|
            #[trigger] self.owned_by(c, p, s) && #[trigger] self.owned_by(c, q, t) ==> p == q && s
                == t
    }

    /// Whether chopstick `c` has one owner at most, is busy while it has one
    /// or its `Put` is under way, and is never both owned and being put down.
    pub open spec fn guarded(self, c: Address) -> bool {
        &&& self.puts(c) <= 1
        &&& self.puts(c) >= 1 ==> self.chopsticks[c as int]
        &&& forall|p: Address, s: ChopstickPosition| #[trigger]
            self.owned_by(c, p, s) ==> self.chopsticks[c as int] && self.puts(c) == 0
                && self.claims(p, s) == 1
        &&& forall|p: Address, s: ChopstickPosition, q: Address, t: ChopstickPosition|
            #[trigger] self.owned_by(c, p, s) && #[trigger] self.owned_by(c, q, t) ==> p == q && s
                == t
    }

    /// Whether the messages under way name actors that exist and every
    /// philosopher sits between chopsticks that exist.
    pub open spec fn well_formed(self) -> bool {
        &&& forall|envelope: Envelope| #[trigger]
            self.pool.count(envelope) > 0 ==> self.well_addressed(envelope)
        &&& forall|p: Address|
            p < self.philosophers.len() ==> #[trigger] self.well_seated(p)
    }

    /// What holds of the table whatever happens to it: messages go where
    /// they should, and every chopstick is guarded.
    pub open spec fn safe(self) -> bool {
        &&& self.well_formed()
        &&& forall|c: Address| c < self.chopsticks.len() ==> #[trigger] self.guarded(c)
    }

    /// What holds of the table as long as the philosophers' protocol is not
    /// disturbed: it is safe, and nothing has gone astray.
    pub open spec fn sound(self) -> bool {
        &&& self.well_formed()
        &&& forall|p: Address|
            p < self.philosophers.len() ==> #[trigger] self.attempt_fits(p)
        &&& forall|p: Address|
            p < self.philosophers.len() ==> #[trigger] self.timers_fit(p)
        &&& forall|c: Address| c < self.chopsticks.len() ==> #[trigger] self.accounted(c)
    }

    /// No two hands hold the same chopstick, and a chopstick that is held is
    /// busy.
    pub open spec fn exclusive(self) -> bool {
        &&& forall|p: Address, s: ChopstickPosition, q: Address, t: ChopstickPosition|
            #![trigger self.philosophers[p as int].holds(s), self.philosophers[q as int].holds(t)]
            p < self.philosophers.len() && q < self.philosophers.len()
                && self.philosophers[p as int].holds(s) && self.philosophers[q as int].holds(t)
                && !(p == q && s == t) ==> self.philosophers[p as int].chopstick(s)
                != self.philosophers[q as int].chopstick(t)
        &&& forall|p: Address, s: ChopstickPosition|
            #![trigger self.philosophers[p as int].holds(s)]
            p < self.philosophers.len() && self.philosophers[p as int].holds(s) ==> {
                &&& self.philosophers[p as int].chopstick(s) < self.chopsticks.len()
                &&& self.chopsticks[self.philosophers[p as int].chopstick(s) as int]
            }
    }
}

/// A sound table is safe.
pub proof fn lemma_sound_is_safe(w: World)
    requires
        w.sound(),
    ensures
        w.safe(),
{
    assert forall|c: Address| c < w.chopsticks.len() implies #[trigger] w.guarded(c) by {
        assert(w.accounted(c));
    }
}

/// At a safe table no two hands hold the same chopstick.
pub proof fn lemma_safe_is_exclusive(w: World)
    requires
        w.safe(),
    ensures
        w.exclusive(),
{
    assert forall|p: Address, s: ChopstickPosition, q: Address, t: ChopstickPosition|
        p < w.philosophers.len() && q < w.philosophers.len() && w.philosophers[p as int].holds(s)
            && w.philosophers[q as int].holds(t) && !(p == q && s == t) implies w.philosophers[p
            as int].chopstick(s) != w.philosophers[q as int].chopstick(t) by {
        let c = w.philosophers[p as int].chopstick(s);
        assert(w.well_seated(p));
        assert(w.guarded(c));
        if c == w.philosophers[q as int].chopstick(t) {
            assert(w.owned_by(c, p, s));
            assert(w.owned_by(c, q, t));
        }
    }
    assert forall|p: Address, s: ChopstickPosition|
        p < w.philosophers.len() && w.philosophers[p as int].holds(s) implies {
        &&& w.philosophers[p as int].chopstick(s) < w.chopsticks.len()
        &&& w.chopsticks[w.philosophers[p as int].chopstick(s) as int]
    } by {
        let c = w.philosophers[p as int].chopstick(s);
        assert(w.well_seated(p));
        assert(w.guarded(c));
        assert(w.owned_by(c, p, s));
    }
}

/// A table as it is laid is safe, whichever of its chopsticks are busy.
pub proof fn lemma_laid_is_safe(w: World)
    requires
        w.laid(),
    ensures
        w.safe(),
{
    assert forall|p: Address| p < w.philosophers.len() implies #[trigger] w.well_seated(p) by {
        assert(w.philosophers[p as int].state == PhilosopherState::Waiting);
    }
    assert forall|c: Address| c < w.chopsticks.len() implies #[trigger] w.guarded(c) by {
        assert forall|p: Address, s: ChopstickPosition| !w.owned_by(c, p, s) by {
            if p < w.philosophers.len() {
                assert(w.philosophers[p as int].state == PhilosopherState::Waiting);
            }
        }
    }
}

/// A table as it is laid with every chopstick free is sound.
pub proof fn lemma_initial_is_sound(w: World)
    requires
        w.initial(),
    ensures
        w.sound(),
{
    assert forall|p: Address| p < w.philosophers.len() implies #[trigger] w.well_seated(p) by {
        assert(w.philosophers[p as int].state == PhilosopherState::Waiting);
    }
    assert forall|p: Address| p < w.philosophers.len() implies #[trigger] w.attempt_fits(p) by {
        assert(w.philosophers[p as int].state == PhilosopherState::Waiting);
    }
    assert forall|p: Address| p < w.philosophers.len() implies #[trigger] w.timers_fit(p) by {
        assert(w.philosophers[p as int].state == PhilosopherState::Waiting);
    }
    assert forall|c: Address| c < w.chopsticks.len() implies #[trigger] w.accounted(c) by {
        assert forall|p: Address, s: ChopstickPosition| !w.owned_by(c, p, s) by {
            if p < w.philosophers.len() {
                assert(w.philosophers[p as int].state == PhilosopherState::Waiting);
            }
        }
    }
}

} // verus!
