//! The whole table as a mathematical object: every chopstick, every
//! philosopher, and every message that has been sent and not yet handled.
//!
//! Messages under way form a multiset. Any of them may be handled next, so
//! what is shown of every run of this model holds however the actors are
//! scheduled and however long a timer takes.

use vstd::multiset::Multiset;
use vstd::prelude::*;

use crate::chopstick::{answer, busy_after};
use crate::context::Effect;
use crate::message::{Action, Address, ChopstickAction, ChopstickPosition, ChopstickState};
use crate::philosopher::{Philosopher, PhilosopherState};

verus! {

/// A message under way.
#[derive(Clone, Copy, PartialEq, Eq, Structural, Debug)]
pub enum Envelope {
    /// A request to the chopstick at `to`.
    ToChopstick { to: Address, command: ChopstickAction },
    /// A chopstick's answer to the philosopher at `to`.
    ToPhilosopher { to: Address, state: ChopstickState },
    /// An action for the philosopher at `to`: a timer it has set, or a word
    /// from outside the table.
    Timer { to: Address, action: Action },
}

impl Envelope {
    /// The request of philosopher `p` for the chopstick at `c`, which lies
    /// on its side `s`.
    pub open spec fn take(c: Address, p: Address, s: ChopstickPosition) -> Envelope {
        Envelope::ToChopstick { to: c, command: ChopstickAction::Take(p, s) }
    }

    /// The `Put` for the chopstick at `c`.
    pub open spec fn put(c: Address) -> Envelope {
        Envelope::ToChopstick { to: c, command: ChopstickAction::Put }
    }

    /// The grant to philosopher `p` of the chopstick on its side `s`.
    pub open spec fn grant(p: Address, s: ChopstickPosition) -> Envelope {
        Envelope::ToPhilosopher { to: p, state: ChopstickState::ChopstickAvailable(s) }
    }

    /// The refusal to philosopher `p` of the chopstick on its side `s`.
    pub open spec fn refusal(p: Address, s: ChopstickPosition) -> Envelope {
        Envelope::ToPhilosopher { to: p, state: ChopstickState::ChopstickUnAvailable(s) }
    }

    /// The message that tells philosopher `p` to do `action`.
    pub open spec fn timer(p: Address, action: Action) -> Envelope {
        Envelope::Timer { to: p, action }
    }
}

/// The message that carries out `effect` for the philosopher or chopstick at
/// `from`. A timer comes back to the philosopher that set it.
pub open spec fn envelope_of(effect: Effect, from: Address) -> Envelope {
    match effect {
        Effect::ToChopstick { to, command } => Envelope::ToChopstick { to, command },
        Effect::ToPhilosopher { to, state } => Envelope::ToPhilosopher { to, state },
        Effect::Later { action, millis } => Envelope::Timer { to: from, action },
    }
}

/// The messages that carry out `effects`, in the same order.
pub open spec fn envelopes_of(effects: Seq<Effect>, from: Address) -> Seq<Envelope> {
    Seq::new(effects.len(), |i: int| envelope_of(effects[i], from))
}

/// The state of the whole table.
pub struct World {
    /// For each chopstick, whether it is busy.
    pub chopsticks: Seq<bool>,
    pub philosophers: Seq<Philosopher>,
    /// The messages under way.
    pub pool: Multiset<Envelope>,
}

/// One thing that can happen at the table.
pub enum Step {
    /// The addressee handles one copy of a message under way.
    Deliver(Envelope),
    /// Someone outside the table tells a philosopher to think or to eat.
    Tell(Address, Action),
    /// One copy of a message under way is lost.
    Lose(Envelope),
}

impl Step {
    /// Whether the step leaves the philosophers' protocol undisturbed: no
    /// message is lost, and nobody is told from outside to think. (Every
    /// philosopher is told to think once, when the table is laid.)
    pub open spec fn undisturbing(self) -> bool {
        match self {
            Step::Deliver(_) => true,
            Step::Tell(_, action) => action == Action::Eat,
            Step::Lose(_) => false,
        }
    }
}

/// Whether no step of `steps` disturbs the philosophers' protocol.
pub open spec fn undisturbed(steps: Seq<Step>) -> bool {
    forall|k: int| 0 <= k < steps.len() ==> (#[trigger] steps[k]).undisturbing()
}

/// Whether every step of `steps` is a delivery.
pub open spec fn only_deliveries(steps: Seq<Step>) -> bool {
    forall|k: int| 0 <= k < steps.len() ==> #[trigger] steps[k] is Deliver
}

impl World {
    /// What the addressee of `envelope` sends when it handles it. A message
    /// to an actor that does not exist is lost, and nothing is sent.
    pub open spec fn response(self, envelope: Envelope) -> Seq<Envelope> {
        match envelope {
            Envelope::ToChopstick { to, command } => if to < self.chopsticks.len() {
                envelopes_of(answer(self.chopsticks[to as int], command), to)
            } else {
                Seq::empty()
            },
            Envelope::ToPhilosopher { to, state } => if to < self.philosophers.len() {
                envelopes_of(self.philosophers[to as int].effects_of_answer(state), to)
            } else {
                Seq::empty()
            },
            Envelope::Timer { to, action } => if to < self.philosophers.len() {
                envelopes_of(self.philosophers[to as int].effects_of_action(action, to), to)
            } else {
                Seq::empty()
            },
        }
    }

    /// The chopsticks once the addressee of `envelope` has handled it.
    pub open spec fn chopsticks_after(self, envelope: Envelope) -> Seq<bool> {
        match envelope {
            Envelope::ToChopstick { to, command } => if to < self.chopsticks.len() {
                self.chopsticks.update(to as int, busy_after(self.chopsticks[to as int], command))
            } else {
                self.chopsticks
            },
            _ => self.chopsticks,
        }
    }

    /// The philosophers once the addressee of `envelope` has handled it.
    pub open spec fn philosophers_after(self, envelope: Envelope) -> Seq<Philosopher> {
        match envelope {
            Envelope::ToPhilosopher { to, state } => if to < self.philosophers.len() {
                let philosopher = self.philosophers[to as int];
                self.philosophers.update(
                    to as int,
                    Philosopher { state: philosopher.state_after_answer(state), ..philosopher },
                )
            } else {
                self.philosophers
            },
            Envelope::Timer { to, action } => if to < self.philosophers.len() {
                let philosopher = self.philosophers[to as int];
                self.philosophers.update(
                    to as int,
                    Philosopher { state: philosopher.state_after_action(action), ..philosopher },
                )
            } else {
                self.philosophers
            },
            _ => self.philosophers,
        }
    }

    /// The table once one copy of `envelope` has left the pool and its
    /// addressee has handled it.
    pub open spec fn deliver(self, envelope: Envelope) -> World {
        World {
            chopsticks: self.chopsticks_after(envelope),
            philosophers: self.philosophers_after(envelope),
            pool: self.pool.remove(envelope).add(self.response(envelope).to_multiset()),
        }
    }

    /// The request of philosopher `p` for the chopstick on its side `s`.
    pub open spec fn take(self, p: Address, s: ChopstickPosition) -> Envelope {
        Envelope::take(self.philosophers[p as int].chopstick(s), p, s)
    }

    /// The answer that philosopher `p` gets to a request for the chopstick on
    /// its side `s` as things stand.
    pub open spec fn answer(self, p: Address, s: ChopstickPosition) -> Envelope {
        if self.chopsticks[self.philosophers[p as int].chopstick(s) as int] {
            Envelope::refusal(p, s)
        } else {
            Envelope::grant(p, s)
        }
    }

    /// The table with one more message under way.
    pub open spec fn post(self, envelope: Envelope) -> World {
        World { pool: self.pool.insert(envelope), ..self }
    }

    /// The table with one copy less of `envelope` under way.
    pub open spec fn lose(self, envelope: Envelope) -> World {
        World { pool: self.pool.remove(envelope), ..self }
    }

    /// Whether `step` can happen: only a message that is under way can be
    /// delivered or lost, and only a philosopher that exists can be told
    /// anything.
    pub open spec fn enabled(self, step: Step) -> bool {
        match step {
            Step::Deliver(envelope) => self.pool.count(envelope) > 0,
            Step::Tell(to, action) => to < self.philosophers.len(),
            Step::Lose(envelope) => self.pool.count(envelope) > 0,
        }
    }

    /// The table after `step`.
    pub open spec fn after(self, step: Step) -> World {
        match step {
            Step::Deliver(envelope) => self.deliver(envelope),
            Step::Tell(to, action) => self.post(Envelope::Timer { to, action }),
            Step::Lose(envelope) => self.lose(envelope),
        }
    }

    /// The table after `steps`, taken one after the other.
    pub open spec fn run(self, steps: Seq<Step>) -> World
        decreases steps.len(),
    {
        if steps.len() == 0 {
            self
        } else {
            self.run(steps.drop_last()).after(steps.last())
        }
    }

    /// Whether `steps` can happen one after the other, starting here.
    pub open spec fn admits(self, steps: Seq<Step>) -> bool
        decreases steps.len(),
    {
        steps.len() == 0 || (self.admits(steps.drop_last()) && self.run(steps.drop_last()).enabled(
            steps.last(),
        ))
    }

    /// The table as it is laid: every philosopher waiting between two
    /// chopsticks that exist, and for each philosopher one `Think` under way
    /// and nothing else. Some chopsticks may be busy already, taken by
    /// someone who is not at the table.
    pub open spec fn laid(self) -> bool {
        &&& forall|p: int|
            0 <= p < self.philosophers.len() ==> {
                &&& (#[trigger] self.philosophers[p]).state == PhilosopherState::Waiting
                &&& self.philosophers[p].left < self.chopsticks.len()
                &&& self.philosophers[p].right < self.chopsticks.len()
            }
        &&& forall|envelope: Envelope| #[trigger]
            self.pool.count(envelope) == if is_first_think(envelope, self.philosophers.len()) {
                1nat
            } else {
                0nat
            }
    }

    /// The table as it is laid with every chopstick free.
    pub open spec fn initial(self) -> bool {
        &&& self.laid()
        &&& forall|c: int| 0 <= c < self.chopsticks.len() ==> !self.chopsticks[c]
    }
}

/// Whether `envelope` is the `Think` that starts one of `seats` philosophers.
pub open spec fn is_first_think(envelope: Envelope, seats: nat) -> bool {
    match envelope {
        Envelope::Timer { to, action } => to < seats && action == Action::Think,
        _ => false,
    }
}

/// A run with one more step at its end.
pub proof fn lemma_run_push(w: World, steps: Seq<Step>, step: Step)
    ensures
        w.run(steps.push(step)) == w.run(steps).after(step),
        w.admits(steps.push(step)) == (w.admits(steps) && w.run(steps).enabled(step)),
{
    assert(steps.push(step).drop_last() == steps);
}

/// A run made of two runs, one after the other.
pub proof fn lemma_run_concat(w: World, first: Seq<Step>, second: Seq<Step>)
    ensures
        w.run(first + second) == w.run(first).run(second),
        w.admits(first + second) == (w.admits(first) && w.run(first).admits(second)),
    decreases second.len(),
{
    if second.len() == 0 {
        assert(first + second == first);
    } else {
        lemma_run_concat(w, first, second.drop_last());
        lemma_run_push(w, first + second.drop_last(), second.last());
        assert((first + second.drop_last()).push(second.last()) == first + second);
    }
}

} // verus!
