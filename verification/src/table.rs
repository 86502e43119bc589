//! A table at which the actors run one message at a time.
//!
//! The table keeps the chopsticks, the philosophers and the messages under
//! way. Whoever drives it picks which pending message is handled next, so any
//! schedule can be played through.

use vstd::prelude::*;
use vstd::seq_lib::*;

use crate::accounting::{lemma_initial_is_sound, lemma_laid_is_safe, lemma_safe_is_exclusive};
use crate::chopstick::Chopstick;
use crate::context::{Context, Effect, Handler};
use crate::message::{Action, Address};
use crate::philosopher::{Philosopher, PhilosopherState};
use crate::safety::{
    lemma_delivery_keeps_safe, lemma_delivery_keeps_sound, lemma_step_keeps_safe,
    lemma_step_keeps_sound,
};
use crate::world::{envelope_of, envelopes_of, is_first_think, Envelope, Step, World};

verus! {

/// Chopsticks, philosophers, and the messages between them that have not
/// been handled yet, oldest first.
#[derive(Clone, Debug)]
pub struct Table {
    chopsticks: Vec<Chopstick>,
    philosophers: Vec<Philosopher>,
    pending: Vec<Envelope>,
}

/// The `Think` messages that start `seats` philosophers, in seating order.
pub open spec fn first_thinks(seats: nat) -> Seq<Envelope> {
    Seq::new(seats, |p: int| Envelope::Timer { to: p as Address, action: Action::Think })
}

/// Each of the `Think` messages that start `seats` philosophers occurs once
/// among them, and nothing else does.
proof fn lemma_first_thinks(seats: nat, envelope: Envelope)
    requires
        seats <= usize::MAX + 1,
    ensures
        first_thinks(seats).to_multiset().count(envelope) == if is_first_think(envelope, seats) {
            1nat
        } else {
            0nat
        },
    decreases seats,
{
    if seats == 0 {
        first_thinks(seats).to_multiset_ensures();
        assert(first_thinks(seats).to_multiset().len() == 0);
    } else {
        let fewer = (seats - 1) as nat;
        let last = Envelope::Timer { to: fewer as Address, action: Action::Think };
        lemma_first_thinks(fewer, envelope);
        to_multiset_build(first_thinks(fewer), last);
        assert(first_thinks(fewer).push(last) == first_thinks(seats));
    }
}

impl View for Table {
    type V = World;

    /// The table as the model sees it: the order of the pending messages is
    /// forgotten.
    open spec fn view(&self) -> World {
        World {
            chopsticks: self.busy(),
            philosophers: self.seated(),
            pool: self.in_flight().to_multiset(),
        }
    }
}

impl Table {
    /// For each chopstick, whether it is busy.
    pub closed spec fn busy(&self) -> Seq<bool> {
        Seq::new(self.chopsticks@.len(), |c: int| self.chopsticks@[c].busy())
    }

    /// The philosophers, in seating order.
    pub closed spec fn seated(&self) -> Seq<Philosopher> {
        self.philosophers@
    }

    /// The pending messages, oldest first.
    pub closed spec fn in_flight(&self) -> Seq<Envelope> {
        self.pending@
    }

    /// Lays a table with the given chopsticks and philosophers, and sends
    /// each philosopher the `Think` that starts it.
    pub fn new(chopsticks: Vec<Chopstick>, philosophers: Vec<Philosopher>) -> (table: Table)
        ensures
            table.busy() == Seq::new(chopsticks@.len(), |c: int| chopsticks@[c].busy()),
            table.seated() == philosophers@,
            table.in_flight() == first_thinks(philosophers@.len()),
            table@.laid() <==> (forall|p: int|
                0 <= p < philosophers@.len() ==> {
                    &&& (#[trigger] philosophers@[p]).state == PhilosopherState::Waiting
                    &&& philosophers@[p].left < chopsticks@.len()
                    &&& philosophers@[p].right < chopsticks@.len()
                }),
            table@.initial() <==> table@.laid() && (forall|c: int|
                0 <= c < chopsticks@.len() ==> !(#[trigger] chopsticks@[c]).busy()),
            table@.laid() ==> table@.safe() && table@.exclusive(),
            table@.initial() ==> table@.sound(),
    {
        let mut pending: Vec<Envelope> = Vec::new();
        let mut p: usize = 0;
        while p < philosophers.len()
            invariant
                p <= philosophers.len(),
                pending@ == first_thinks(p as nat),
            decreases philosophers.len() - p,
        {
            pending.push(Envelope::Timer { to: p, action: Action::Think });
            p += 1;
        }
        let table = Table { chopsticks, philosophers, pending };
        proof {
            let seats = table.philosophers@.len();
            assert forall|envelope: Envelope| #[trigger]
                first_thinks(seats).to_multiset().count(envelope) == if is_first_think(
                    envelope,
                    seats,
                ) {
                    1nat
                } else {
                    0nat
                } by {
                lemma_first_thinks(seats, envelope);
            }
            assert forall|c: int| 0 <= c < table.chopsticks@.len() implies table@.chopsticks[c]
                == (#[trigger] table.chopsticks@[c]).busy() by {}
            if table@.laid() {
                lemma_laid_is_safe(table@);
                lemma_safe_is_exclusive(table@);
            }
            if table@.initial() {
                lemma_initial_is_sound(table@);
            }
        }
        table
    }

    /// The chopsticks.
    pub fn chopsticks(&self) -> (chopsticks: &Vec<Chopstick>)
        ensures
            chopsticks@.len() == self.busy().len(),
            forall|c: int| 0 <= c < chopsticks@.len() ==> chopsticks@[c].busy() == self.busy()[c],
    {
        &self.chopsticks
    }

    /// The philosophers, in seating order.
    pub fn philosophers(&self) -> (philosophers: &Vec<Philosopher>)
        ensures
            philosophers@ == self.seated(),
    {
        &self.philosophers
    }

    /// The pending messages, oldest first.
    pub fn pending(&self) -> (pending: &Vec<Envelope>)
        ensures
            pending@ == self.in_flight(),
    {
        &self.pending
    }

    /// Sends `action` to the philosopher at `to` from outside the table.
    /// Returns whether there is such a philosopher; if not, nothing is sent.
    pub fn tell(&mut self, to: Address, action: Action) -> (told: bool)
        ensures
            told == (to < old(self).seated().len()),
            !told ==> *final(self) == *old(self),
            told ==> final(self)@ == old(self)@.after(Step::Tell(to, action)),
            told ==> final(self).in_flight() == old(self).in_flight().push(
                Envelope::Timer { to, action },
            ),
            old(self)@.safe() ==> final(self)@.safe() && final(self)@.exclusive(),
            old(self)@.sound() && action == Action::Eat ==> final(self)@.sound(),
    {
        proof {
            if self@.safe() {
                lemma_safe_is_exclusive(self@);
            }
        }
        if to >= self.philosophers.len() {
            return false;
        }
        proof {
            let step = Step::Tell(to, action);
            to_multiset_build(self.pending@, Envelope::Timer { to, action });
            if self@.safe() {
                lemma_step_keeps_safe(self@, step);
                lemma_safe_is_exclusive(self@.after(step));
            }
            if self@.sound() && action == Action::Eat {
                lemma_step_keeps_sound(self@, step);
            }
        }
        self.pending.push(Envelope::Timer { to, action });
        true
    }

    /// Loses the pending message at index `i`: it is taken away and nobody
    /// handles it. Returns whether there was such a message.
    pub fn lose(&mut self, i: usize) -> (lost: bool)
        ensures
            lost == (i < old(self).in_flight().len()),
            !lost ==> *final(self) == *old(self),
            lost ==> final(self)@ == old(self)@.after(
                Step::Lose(old(self).in_flight()[i as int]),
            ),
            lost ==> final(self).in_flight() == old(self).in_flight().remove(i as int),
            old(self)@.safe() ==> final(self)@.safe() && final(self)@.exclusive(),
    {
        proof {
            if self@.safe() {
                lemma_safe_is_exclusive(self@);
            }
        }
        if i >= self.pending.len() {
            return false;
        }
        proof {
            let step = Step::Lose(self.pending@[i as int]);
            to_multiset_remove(self.pending@, i as int);
            self.pending@.to_multiset_ensures();
            if self@.safe() {
                lemma_step_keeps_safe(self@, step);
                lemma_safe_is_exclusive(self@.after(step));
            }
        }
        self.pending.remove(i);
        true
    }

    /// Appends the messages that carry out `outbox` for the actor at `from`.
    fn post_all(&mut self, outbox: &Vec<Effect>, from: Address)
        ensures
            final(self).busy() == old(self).busy(),
            final(self).seated() == old(self).seated(),
            final(self).in_flight() == old(self).in_flight() + envelopes_of(outbox@, from),
    {
        let mut k: usize = 0;
        while k < outbox.len()
            invariant
                k <= outbox.len(),
                self.busy() == old(self).busy(),
                self.seated() == old(self).seated(),
                self.in_flight() == old(self).in_flight() + envelopes_of(
                    outbox@.take(k as int),
                    from,
                ),
            decreases outbox.len() - k,
        {
            let envelope = match outbox[k] {
                Effect::ToChopstick { to, command } => Envelope::ToChopstick { to, command },
                Effect::ToPhilosopher { to, state } => Envelope::ToPhilosopher { to, state },
                Effect::Later { action, millis } => Envelope::Timer { to: from, action },
            };
            assert(envelope == envelope_of(outbox@[k as int], from));
            self.pending.push(envelope);
            k += 1;
            assert(envelopes_of(outbox@.take(k as int), from) == envelopes_of(
                outbox@.take(k - 1),
                from,
            ).push(envelope));
        }
        assert(outbox@.take(k as int) == outbox@);
    }

    /// Lets the addressee of the pending message at index `i` handle it, and
    /// appends what it sends to the pending messages, in the order in which
    /// it was sent. Returns whether there was such a message. A message to an
    /// actor that does not exist is dropped.
    pub fn deliver(&mut self, i: usize) -> (delivered: bool)
        ensures
            delivered == (i < old(self).in_flight().len()),
            !delivered ==> *final(self) == *old(self),
            delivered ==> final(self)@ == old(self)@.deliver(old(self).in_flight()[i as int]),
            delivered ==> final(self).in_flight() == old(self).in_flight().remove(i as int)
                + old(self)@.response(old(self).in_flight()[i as int]),
            old(self)@.safe() ==> final(self)@.safe() && final(self)@.exclusive(),
            old(self)@.sound() ==> final(self)@.sound(),
    {
        proof {
            if self@.safe() {
                lemma_safe_is_exclusive(self@);
            }
        }
        if i >= self.pending.len() {
            return false;
        }
        proof {
            to_multiset_remove(self.pending@, i as int);
        }
        let envelope = self.pending.remove(i);
        let ghost rest = self.pending@;
        match envelope {
            Envelope::ToChopstick { to, command } => {
                if to < self.chopsticks.len() {
                    let mut ctx = Context::new(to);
                    self.chopsticks[to].handle(command, &mut ctx);
                    self.post_all(&ctx.outbox, to);
                }
            },
            Envelope::ToPhilosopher { to, state } => {
                if to < self.philosophers.len() {
                    let mut ctx = Context::new(to);
                    self.philosophers[to].handle(state, &mut ctx);
                    self.post_all(&ctx.outbox, to);
                }
            },
            Envelope::Timer { to, action } => {
                if to < self.philosophers.len() {
                    let mut ctx = Context::new(to);
                    self.philosophers[to].handle(action, &mut ctx);
                    self.post_all(&ctx.outbox, to);
                }
            },
        }
        proof {
            let response = old(self)@.response(envelope);
            assert(self.in_flight() == rest + response);
            lemma_multiset_commutative(rest, response);
            assert(self.busy() == old(self)@.chopsticks_after(envelope));
            assert(self.seated() == old(self)@.philosophers_after(envelope));
            old(self).pending@.to_multiset_ensures();
            if old(self)@.safe() {
                lemma_delivery_keeps_safe(old(self)@, envelope);
                lemma_safe_is_exclusive(self@);
            }
            if old(self)@.sound() {
                lemma_delivery_keeps_sound(old(self)@, envelope);
            }
        }
        true
    }
}

} // verus!
