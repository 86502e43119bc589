//! No chopstick is ever in two hands: every step keeps the table safe, and
//! every step that does not disturb the protocol keeps it sound.
//!
//! The proofs go through the deliveries one by one. For each they say which
//! messages leave and enter the pool, and from that how the claims on each
//! chopstick change.

use vstd::prelude::*;
use vstd::seq_lib::*;

use crate::accounting::{lemma_laid_is_safe, lemma_safe_is_exclusive, one_if};
use crate::message::{Action, Address, ChopstickAction, ChopstickPosition, ChopstickState};
use crate::philosopher::PhilosopherState;
use crate::world::{undisturbed, Envelope, Step, World};

verus! {

/// How often `envelope` occurs among the first three entries of `sent`.
pub open spec fn tally(sent: Seq<Envelope>, envelope: Envelope) -> nat {
    one_if(sent.len() > 0 && sent[0] == envelope) + one_if(sent.len() > 1 && sent[1] == envelope)
        + one_if(sent.len() > 2 && sent[2] == envelope)
}

/// `tally` counts what a short sequence of messages adds to the pool.
pub proof fn lemma_tally(sent: Seq<Envelope>, envelope: Envelope)
    requires
        sent.len() <= 3,
    ensures
        sent.to_multiset().count(envelope) == tally(sent, envelope),
    decreases sent.len(),
{
    if sent.len() == 0 {
        sent.to_multiset_ensures();
        assert(sent.to_multiset().len() == 0);
    } else {
        let front = sent.drop_last();
        lemma_tally(front, envelope);
        to_multiset_build(front, sent.last());
        assert(front.push(sent.last()) == sent);
    }
}

/// How a delivery changes the number of copies of each message under way.
pub proof fn lemma_pool_after_delivery(w: World, delivered: Envelope)
    requires
        w.pool.count(delivered) > 0,
    ensures
        w.response(delivered).len() <= 3,
        forall|envelope: Envelope| #[trigger]
            w.deliver(delivered).pool.count(envelope) == w.pool.count(envelope) - one_if(
                envelope == delivered,
            ) + tally(w.response(delivered), envelope),
{
    assert(w.response(delivered).len() <= 3);
    assert forall|envelope: Envelope| #[trigger]
        w.deliver(delivered).pool.count(envelope) == w.pool.count(envelope) - one_if(
            envelope == delivered,
        ) + tally(w.response(delivered), envelope) by {
        lemma_tally(w.response(delivered), envelope);
    }
}

/// No delivery sends a message to an actor that does not exist.
proof fn lemma_delivery_keeps_well_formed(w: World, delivered: Envelope)
    requires
        w.well_formed(),
        w.pool.count(delivered) > 0,
    ensures
        w.deliver(delivered).well_formed(),
{
    let v = w.deliver(delivered);
    lemma_pool_after_delivery(w, delivered);
    assert(w.well_addressed(delivered));
    let sent = w.response(delivered);
    assert forall|k: int| 0 <= k < sent.len() implies v.well_addressed(#[trigger] sent[k]) by {
        match delivered {
            Envelope::ToChopstick { to, command } => {},
            Envelope::ToPhilosopher { to, state } => {
                assert(w.well_seated(to));
            },
            Envelope::Timer { to, action } => {
                assert(w.well_seated(to));
            },
        }
    }
    assert forall|envelope: Envelope| #[trigger]
        v.pool.count(envelope) > 0 implies v.well_addressed(envelope) by {
        if w.pool.count(envelope) > 0 {
            assert(w.well_addressed(envelope));
        } else {
            assert(tally(sent, envelope) > 0);
            assert(envelope == sent[0] || envelope == sent[1] || envelope == sent[2]);
        }
    }
    assert forall|p: Address| p < v.philosophers.len() implies #[trigger] v.well_seated(p) by {
        assert(w.well_seated(p));
    }
}

/// Whatever a philosopher does with a timer, every chopstick stays guarded.
proof fn lemma_timer_keeps_safe(w: World, to: Address, action: Action)
    requires
        w.safe(),
        w.pool.count(Envelope::timer(to, action)) > 0,
        to < w.philosophers.len(),
    ensures
        w.deliver(Envelope::timer(to, action)).safe(),
{
    let delivered = Envelope::timer(to, action);
    let v = w.deliver(delivered);
    let before = w.philosophers[to as int];
    let meal_ends = action == Action::Think && before.state == PhilosopherState::Eating;
    lemma_delivery_keeps_well_formed(w, delivered);
    lemma_pool_after_delivery(w, delivered);
    assert(w.well_seated(to));
    assert(w.guarded(before.left));
    assert(w.guarded(before.right));
    if meal_ends {
        assert(w.owned_by(before.left, to, ChopstickPosition::Left));
        assert(w.owned_by(before.right, to, ChopstickPosition::Right));
        assert(w.response(delivered) == seq![
            Envelope::put(before.left),
            Envelope::put(before.right),
            Envelope::timer(to, Action::Eat),
        ]);
    }
    assert forall|c: Address| c < v.chopsticks.len() implies #[trigger] v.guarded(c) by {
        assert(w.guarded(c));
        assert forall|p: Address, s: ChopstickPosition| #[trigger]
            v.owned_by(c, p, s) implies w.owned_by(c, p, s) && !(meal_ends && p == to) by {}
        assert(v.puts(c) == w.puts(c) + one_if(
            meal_ends && (c == before.left || c == before.right),
        ));
    }
}

/// Whatever a philosopher does with an answer, every chopstick stays
/// guarded.
proof fn lemma_answer_keeps_safe(w: World, to: Address, state: ChopstickState)
    requires
        w.safe(),
        w.pool.count(Envelope::ToPhilosopher { to, state }) > 0,
        to < w.philosophers.len(),
    ensures
        w.deliver(Envelope::ToPhilosopher { to, state }).safe(),
{
    let delivered = Envelope::ToPhilosopher { to, state };
    let v = w.deliver(delivered);
    let before = w.philosophers[to as int];
    let side = state.position();
    lemma_delivery_keeps_well_formed(w, delivered);
    lemma_pool_after_delivery(w, delivered);
    assert(w.well_seated(to));
    assert(w.guarded(before.left));
    assert(w.guarded(before.right));
    // The chopstick that the philosopher lays down, if it lays one down.
    let back: Option<ChopstickPosition> = match (before.state, state) {
        (
            PhilosopherState::WaitingForOtherChopstick(held),
            ChopstickState::ChopstickUnAvailable(_),
        ) => Some(held),
        (PhilosopherState::FirstChopStickDenied, ChopstickState::ChopstickAvailable(s)) => Some(s),
        _ => None,
    };
    if state is ChopstickAvailable {
        assert(w.owned_by(before.chopstick(side), to, side));
    }
    match back {
        Some(s) => {
            assert(w.owned_by(before.chopstick(s), to, s));
            assert(w.response(delivered) == seq![
                Envelope::put(before.chopstick(s)),
                Envelope::timer(to, Action::Eat),
            ]);
        },
        None => {
            let sent = w.response(delivered);
            assert forall|k: int| 0 <= k < sent.len() implies #[trigger] sent[k] is Timer by {}
        },
    }
    assert forall|c: Address| c < v.chopsticks.len() implies #[trigger] v.guarded(c) by {
        assert(w.guarded(c));
        assert forall|p: Address, s: ChopstickPosition| #[trigger]
            v.owned_by(c, p, s) implies w.owned_by(c, p, s) && !(back == Some(s) && p == to) by {
            if p == to && v.owned_by(c, p, s) {
                assert(w.owned_by(before.chopstick(s), to, s));
            }
        }
        assert(v.puts(c) == w.puts(c) + one_if(
            back is Some && c == before.chopstick(back->Some_0),
        ));
        assert forall|p: Address, s: ChopstickPosition| #[trigger]
            v.owned_by(c, p, s) implies v.claims(p, s) == 1 by {
            assert(w.owned_by(c, p, s));
        }
    }
}

/// Whatever a chopstick answers to a request, every chopstick stays guarded.
proof fn lemma_take_keeps_safe(w: World, to: Address, from: Address, side: ChopstickPosition)
    requires
        w.safe(),
        w.pool.count(Envelope::take(to, from, side)) > 0,
    ensures
        w.deliver(Envelope::take(to, from, side)).safe(),
{
    let delivered = Envelope::take(to, from, side);
    let v = w.deliver(delivered);
    lemma_delivery_keeps_well_formed(w, delivered);
    lemma_pool_after_delivery(w, delivered);
    assert(w.well_addressed(delivered));
    assert(w.well_seated(from));
    assert(w.guarded(to));
    let granted = !w.chopsticks[to as int];
    assert(w.response(delivered) == seq![w.answer(from, side)]);
    if granted {
        assert(!w.owned_by(to, from, side));
    }
    assert forall|c: Address| c < v.chopsticks.len() implies #[trigger] v.guarded(c) by {
        assert(w.guarded(c));
        assert forall|p: Address, s: ChopstickPosition|
            #![trigger v.owned_by(c, p, s)]
            #![trigger w.owned_by(c, p, s)]
            v.owned_by(c, p, s) == (w.owned_by(c, p, s) || (granted && c == to && p == from && s
                == side)) by {}
    }
}

/// When a `Put` reaches its chopstick, every chopstick stays guarded.
proof fn lemma_put_keeps_safe(w: World, to: Address)
    requires
        w.safe(),
        w.pool.count(Envelope::put(to)) > 0,
    ensures
        w.deliver(Envelope::put(to)).safe(),
{
    let delivered = Envelope::put(to);
    let v = w.deliver(delivered);
    lemma_delivery_keeps_well_formed(w, delivered);
    lemma_pool_after_delivery(w, delivered);
    assert(w.well_addressed(delivered));
    assert(w.guarded(to));
    assert(w.response(delivered) == Seq::<Envelope>::empty());
    assert forall|c: Address| c < v.chopsticks.len() implies #[trigger] v.guarded(c) by {
        assert(w.guarded(c));
        assert forall|p: Address, s: ChopstickPosition|
            #![trigger v.owned_by(c, p, s)]
            #![trigger w.owned_by(c, p, s)]
            v.owned_by(c, p, s) == w.owned_by(c, p, s) by {}
    }
}

/// A `Think` ends a meal: the philosopher lays both chopsticks down.
proof fn lemma_meal_end_keeps_sound(w: World, to: Address)
    requires
        w.sound(),
        w.pool.count(Envelope::timer(to, Action::Think)) > 0,
        to < w.philosophers.len(),
        w.philosophers[to as int].state == PhilosopherState::Eating,
    ensures
        w.deliver(Envelope::timer(to, Action::Think)).sound(),
{
    let delivered = Envelope::timer(to, Action::Think);
    let v = w.deliver(delivered);
    let left = w.philosophers[to as int].left;
    let right = w.philosophers[to as int].right;
    let put_left = Envelope::put(left);
    let put_right = Envelope::put(right);
    let eat = Envelope::timer(to, Action::Eat);
    lemma_delivery_keeps_well_formed(w, delivered);
    lemma_pool_after_delivery(w, delivered);
    assert(w.well_seated(to));
    assert(w.attempt_fits(to));
    assert(w.timers_fit(to));
    assert(w.accounted(left));
    assert(w.accounted(right));
    assert(w.owned_by(left, to, ChopstickPosition::Left));
    assert(w.owned_by(right, to, ChopstickPosition::Right));
    assert(w.response(delivered) == seq![put_left, put_right, eat]);
    assert forall|envelope: Envelope| #[trigger]
        v.pool.count(envelope) == w.pool.count(envelope) - one_if(envelope == delivered)
            + one_if(envelope == put_left)
            + one_if(envelope == put_right)
            + one_if(envelope == eat) by {}
    assert forall|p: Address| p < v.philosophers.len() implies #[trigger] v.attempt_fits(p) by {
        assert(w.attempt_fits(p));
    }
    assert forall|p: Address| p < v.philosophers.len() implies #[trigger] v.timers_fit(p) by {
        assert(w.timers_fit(p));
    }
    assert forall|c: Address| c < v.chopsticks.len() implies #[trigger] v.accounted(c) by {
        assert(w.accounted(c));
        assert forall|p: Address, s: ChopstickPosition|
            #![trigger v.owned_by(c, p, s)]
            #![trigger w.owned_by(c, p, s)]
            v.owned_by(c, p, s) == (w.owned_by(c, p, s) && p != to) by {}
    }
}

/// A `Think` starts a philosopher that was waiting.
proof fn lemma_start_keeps_sound(w: World, to: Address)
    requires
        w.sound(),
        w.pool.count(Envelope::timer(to, Action::Think)) > 0,
        to < w.philosophers.len(),
        w.philosophers[to as int].state == PhilosopherState::Waiting,
    ensures
        w.deliver(Envelope::timer(to, Action::Think)).sound(),
{
    let delivered = Envelope::timer(to, Action::Think);
    let v = w.deliver(delivered);
    let eat = Envelope::timer(to, Action::Eat);
    lemma_delivery_keeps_well_formed(w, delivered);
    lemma_pool_after_delivery(w, delivered);
    assert(w.well_seated(to));
    assert(w.attempt_fits(to));
    assert(w.timers_fit(to));
    assert(w.response(delivered) == seq![eat]);
    assert forall|envelope: Envelope| #[trigger]
        v.pool.count(envelope) == w.pool.count(envelope) - one_if(envelope == delivered)
            + one_if(envelope == eat) by {}
    assert forall|p: Address| p < v.philosophers.len() implies #[trigger] v.attempt_fits(p) by {
        assert(w.attempt_fits(p));
    }
    assert forall|p: Address| p < v.philosophers.len() implies #[trigger] v.timers_fit(p) by {
        assert(w.timers_fit(p));
    }
    assert forall|c: Address| c < v.chopsticks.len() implies #[trigger] v.accounted(c) by {
        assert(w.accounted(c));
        assert forall|p: Address, s: ChopstickPosition|
            #![trigger v.owned_by(c, p, s)]
            #![trigger w.owned_by(c, p, s)]
            v.owned_by(c, p, s) == w.owned_by(c, p, s) by {}
    }
}

/// An `Eat` makes a thinking philosopher ask for both chopsticks.
proof fn lemma_hunger_keeps_sound(w: World, to: Address)
    requires
        w.sound(),
        w.pool.count(Envelope::timer(to, Action::Eat)) > 0,
        to < w.philosophers.len(),
        w.philosophers[to as int].state == PhilosopherState::Thinking,
    ensures
        w.deliver(Envelope::timer(to, Action::Eat)).sound(),
{
    let delivered = Envelope::timer(to, Action::Eat);
    let v = w.deliver(delivered);
    let take_left = w.take(to, ChopstickPosition::Left);
    let take_right = w.take(to, ChopstickPosition::Right);
    lemma_delivery_keeps_well_formed(w, delivered);
    lemma_pool_after_delivery(w, delivered);
    assert(w.well_seated(to));
    assert(w.attempt_fits(to));
    assert(w.timers_fit(to));
    assert(w.response(delivered) == seq![take_left, take_right]);
    assert forall|envelope: Envelope| #[trigger]
        v.pool.count(envelope) == w.pool.count(envelope) - one_if(envelope == delivered)
            + one_if(envelope == take_left)
            + one_if(envelope == take_right) by {}
    assert forall|p: Address| p < v.philosophers.len() implies #[trigger] v.attempt_fits(p) by {
        assert(w.attempt_fits(p));
    }
    assert forall|p: Address| p < v.philosophers.len() implies #[trigger] v.timers_fit(p) by {
        assert(w.timers_fit(p));
    }
    assert forall|c: Address| c < v.chopsticks.len() implies #[trigger] v.accounted(c) by {
        assert(w.accounted(c));
        assert forall|p: Address, s: ChopstickPosition|
            #![trigger v.owned_by(c, p, s)]
            #![trigger w.owned_by(c, p, s)]
            v.owned_by(c, p, s) == w.owned_by(c, p, s) by {}
    }
}

/// An `Eat` is ignored by a philosopher that is not thinking.
proof fn lemma_ignored_eat_keeps_sound(w: World, to: Address)
    requires
        w.sound(),
        w.pool.count(Envelope::timer(to, Action::Eat)) > 0,
        to < w.philosophers.len(),
        w.philosophers[to as int].state != PhilosopherState::Thinking,
    ensures
        w.deliver(Envelope::timer(to, Action::Eat)).sound(),
{
    let delivered = Envelope::timer(to, Action::Eat);
    let v = w.deliver(delivered);
    lemma_delivery_keeps_well_formed(w, delivered);
    lemma_pool_after_delivery(w, delivered);
    assert(w.well_seated(to));
    assert(w.attempt_fits(to));
    assert(w.timers_fit(to));
    assert(w.response(delivered) == Seq::<Envelope>::empty());
    assert forall|envelope: Envelope| #[trigger]
        v.pool.count(envelope) == w.pool.count(envelope) - one_if(envelope == delivered) by {}
    assert forall|p: Address| p < v.philosophers.len() implies #[trigger] v.attempt_fits(p) by {
        assert(w.attempt_fits(p));
    }
    assert forall|p: Address| p < v.philosophers.len() implies #[trigger] v.timers_fit(p) by {
        assert(w.timers_fit(p));
    }
    assert forall|c: Address| c < v.chopsticks.len() implies #[trigger] v.accounted(c) by {
        assert(w.accounted(c));
        assert forall|p: Address, s: ChopstickPosition|
            #![trigger v.owned_by(c, p, s)]
            #![trigger w.owned_by(c, p, s)]
            v.owned_by(c, p, s) == w.owned_by(c, p, s) by {}
    }
}

/// The first answer is a grant: the philosopher holds one chopstick.
proof fn lemma_first_grant_keeps_sound(w: World, to: Address, s: ChopstickPosition)
    requires
        w.sound(),
        w.pool.count(Envelope::grant(to, s)) > 0,
        to < w.philosophers.len(),
        w.philosophers[to as int].state == PhilosopherState::Hungry,
    ensures
        w.deliver(Envelope::grant(to, s)).sound(),
{
    let delivered = Envelope::grant(to, s);
    let v = w.deliver(delivered);
    lemma_delivery_keeps_well_formed(w, delivered);
    lemma_pool_after_delivery(w, delivered);
    assert(w.well_seated(to));
    assert(w.attempt_fits(to));
    assert(w.timers_fit(to));
    assert(w.response(delivered) == Seq::<Envelope>::empty());
    assert forall|envelope: Envelope| #[trigger]
        v.pool.count(envelope) == w.pool.count(envelope) - one_if(envelope == delivered) by {}
    assert forall|p: Address| p < v.philosophers.len() implies #[trigger] v.attempt_fits(p) by {
        assert(w.attempt_fits(p));
    }
    assert forall|p: Address| p < v.philosophers.len() implies #[trigger] v.timers_fit(p) by {
        assert(w.timers_fit(p));
    }
    assert forall|c: Address| c < v.chopsticks.len() implies #[trigger] v.accounted(c) by {
        assert(w.accounted(c));
        assert forall|p: Address, s: ChopstickPosition|
            #![trigger v.owned_by(c, p, s)]
            #![trigger w.owned_by(c, p, s)]
            v.owned_by(c, p, s) == w.owned_by(c, p, s) by {}
    }
}

/// The first answer is a refusal: the philosopher holds nothing.
proof fn lemma_first_refusal_keeps_sound(w: World, to: Address, s: ChopstickPosition)
    requires
        w.sound(),
        w.pool.count(Envelope::refusal(to, s)) > 0,
        to < w.philosophers.len(),
        w.philosophers[to as int].state == PhilosopherState::Hungry,
    ensures
        w.deliver(Envelope::refusal(to, s)).sound(),
{
    let delivered = Envelope::refusal(to, s);
    let v = w.deliver(delivered);
    lemma_delivery_keeps_well_formed(w, delivered);
    lemma_pool_after_delivery(w, delivered);
    assert(w.well_seated(to));
    assert(w.attempt_fits(to));
    assert(w.timers_fit(to));
    assert(w.response(delivered) == Seq::<Envelope>::empty());
    assert forall|envelope: Envelope| #[trigger]
        v.pool.count(envelope) == w.pool.count(envelope) - one_if(envelope == delivered) by {}
    assert forall|p: Address| p < v.philosophers.len() implies #[trigger] v.attempt_fits(p) by {
        assert(w.attempt_fits(p));
    }
    assert forall|p: Address| p < v.philosophers.len() implies #[trigger] v.timers_fit(p) by {
        assert(w.timers_fit(p));
    }
    assert forall|c: Address| c < v.chopsticks.len() implies #[trigger] v.accounted(c) by {
        assert(w.accounted(c));
        assert forall|p: Address, s: ChopstickPosition|
            #![trigger v.owned_by(c, p, s)]
            #![trigger w.owned_by(c, p, s)]
            v.owned_by(c, p, s) == w.owned_by(c, p, s) by {}
    }
}

/// The second answer completes the pair: the philosopher eats.
proof fn lemma_second_grant_keeps_sound(
    w: World,
    to: Address,
    s: ChopstickPosition,
    held: ChopstickPosition,
)
    requires
        w.sound(),
        w.pool.count(Envelope::grant(to, s)) > 0,
        to < w.philosophers.len(),
        w.philosophers[to as int].state == PhilosopherState::WaitingForOtherChopstick(held),
    ensures
        w.deliver(Envelope::grant(to, s)).sound(),
{
    let delivered = Envelope::grant(to, s);
    let v = w.deliver(delivered);
    let think = Envelope::timer(to, Action::Think);
    lemma_delivery_keeps_well_formed(w, delivered);
    lemma_pool_after_delivery(w, delivered);
    assert(w.well_seated(to));
    assert(w.attempt_fits(to));
    assert(w.timers_fit(to));
    assert(w.response(delivered) == seq![think]);
    assert forall|envelope: Envelope| #[trigger]
        v.pool.count(envelope) == w.pool.count(envelope) - one_if(envelope == delivered)
            + one_if(envelope == think) by {}
    assert forall|p: Address| p < v.philosophers.len() implies #[trigger] v.attempt_fits(p) by {
        assert(w.attempt_fits(p));
    }
    assert forall|p: Address| p < v.philosophers.len() implies #[trigger] v.timers_fit(p) by {
        assert(w.timers_fit(p));
    }
    assert forall|c: Address| c < v.chopsticks.len() implies #[trigger] v.accounted(c) by {
        assert(w.accounted(c));
        assert forall|p: Address, s: ChopstickPosition|
            #![trigger v.owned_by(c, p, s)]
            #![trigger w.owned_by(c, p, s)]
            v.owned_by(c, p, s) == w.owned_by(c, p, s) by {}
    }
}

/// The second answer is a refusal: the philosopher lays down the chopstick
/// it holds.
proof fn lemma_late_refusal_keeps_sound(
    w: World,
    to: Address,
    s: ChopstickPosition,
    held: ChopstickPosition,
)
    requires
        w.sound(),
        w.pool.count(Envelope::refusal(to, s)) > 0,
        to < w.philosophers.len(),
        w.philosophers[to as int].state == PhilosopherState::WaitingForOtherChopstick(held),
    ensures
        w.deliver(Envelope::refusal(to, s)).sound(),
{
    let delivered = Envelope::refusal(to, s);
    let v = w.deliver(delivered);
    let back = w.philosophers[to as int].chopstick(held);
    let put = Envelope::put(back);
    let eat = Envelope::timer(to, Action::Eat);
    lemma_delivery_keeps_well_formed(w, delivered);
    lemma_pool_after_delivery(w, delivered);
    assert(w.well_seated(to));
    assert(w.attempt_fits(to));
    assert(w.timers_fit(to));
    assert(w.accounted(back));
    assert(w.owned_by(back, to, held));
    assert(w.response(delivered) == seq![put, eat]);
    assert forall|envelope: Envelope| #[trigger]
        v.pool.count(envelope) == w.pool.count(envelope) - one_if(envelope == delivered)
            + one_if(envelope == put)
            + one_if(envelope == eat) by {}
    assert forall|p: Address| p < v.philosophers.len() implies #[trigger] v.attempt_fits(p) by {
        assert(w.attempt_fits(p));
    }
    assert forall|p: Address| p < v.philosophers.len() implies #[trigger] v.timers_fit(p) by {
        assert(w.timers_fit(p));
    }
    assert forall|c: Address| c < v.chopsticks.len() implies #[trigger] v.accounted(c) by {
        assert(w.accounted(c));
        assert forall|p: Address, s: ChopstickPosition|
            #![trigger v.owned_by(c, p, s)]
            #![trigger w.owned_by(c, p, s)]
            v.owned_by(c, p, s) == (w.owned_by(c, p, s) && p != to) by {}
    }
}

/// A grant follows a refusal: the philosopher lays the chopstick down at
/// once.
proof fn lemma_late_grant_keeps_sound(w: World, to: Address, s: ChopstickPosition)
    requires
        w.sound(),
        w.pool.count(Envelope::grant(to, s)) > 0,
        to < w.philosophers.len(),
        w.philosophers[to as int].state == PhilosopherState::FirstChopStickDenied,
    ensures
        w.deliver(Envelope::grant(to, s)).sound(),
{
    let delivered = Envelope::grant(to, s);
    let v = w.deliver(delivered);
    let back = w.philosophers[to as int].chopstick(s);
    let put = Envelope::put(back);
    let eat = Envelope::timer(to, Action::Eat);
    lemma_delivery_keeps_well_formed(w, delivered);
    lemma_pool_after_delivery(w, delivered);
    assert(w.well_seated(to));
    assert(w.attempt_fits(to));
    assert(w.timers_fit(to));
    assert(w.accounted(back));
    assert(w.owned_by(back, to, s));
    assert(w.response(delivered) == seq![put, eat]);
    assert forall|envelope: Envelope| #[trigger]
        v.pool.count(envelope) == w.pool.count(envelope) - one_if(envelope == delivered)
            + one_if(envelope == put)
            + one_if(envelope == eat) by {}
    assert forall|p: Address| p < v.philosophers.len() implies #[trigger] v.attempt_fits(p) by {
        assert(w.attempt_fits(p));
    }
    assert forall|p: Address| p < v.philosophers.len() implies #[trigger] v.timers_fit(p) by {
        assert(w.timers_fit(p));
    }
    assert forall|c: Address| c < v.chopsticks.len() implies #[trigger] v.accounted(c) by {
        assert(w.accounted(c));
        assert forall|p: Address, s: ChopstickPosition|
            #![trigger v.owned_by(c, p, s)]
            #![trigger w.owned_by(c, p, s)]
            v.owned_by(c, p, s) == (w.owned_by(c, p, s) && p != to) by {}
    }
}

/// Both answers are refusals: the philosopher goes back to thinking.
proof fn lemma_second_refusal_keeps_sound(w: World, to: Address, s: ChopstickPosition)
    requires
        w.sound(),
        w.pool.count(Envelope::refusal(to, s)) > 0,
        to < w.philosophers.len(),
        w.philosophers[to as int].state == PhilosopherState::FirstChopStickDenied,
    ensures
        w.deliver(Envelope::refusal(to, s)).sound(),
{
    let delivered = Envelope::refusal(to, s);
    let v = w.deliver(delivered);
    let eat = Envelope::timer(to, Action::Eat);
    lemma_delivery_keeps_well_formed(w, delivered);
    lemma_pool_after_delivery(w, delivered);
    assert(w.well_seated(to));
    assert(w.attempt_fits(to));
    assert(w.timers_fit(to));
    assert(w.response(delivered) == seq![eat]);
    assert forall|envelope: Envelope| #[trigger]
        v.pool.count(envelope) == w.pool.count(envelope) - one_if(envelope == delivered)
            + one_if(envelope == eat) by {}
    assert forall|p: Address| p < v.philosophers.len() implies #[trigger] v.attempt_fits(p) by {
        assert(w.attempt_fits(p));
    }
    assert forall|p: Address| p < v.philosophers.len() implies #[trigger] v.timers_fit(p) by {
        assert(w.timers_fit(p));
    }
    assert forall|c: Address| c < v.chopsticks.len() implies #[trigger] v.accounted(c) by {
        assert(w.accounted(c));
        assert forall|p: Address, s: ChopstickPosition|
            #![trigger v.owned_by(c, p, s)]
            #![trigger w.owned_by(c, p, s)]
            v.owned_by(c, p, s) == w.owned_by(c, p, s) by {}
    }
}

/// A request reaches a free chopstick: the chopstick is the requester's.
proof fn lemma_granted_take_keeps_sound(
    w: World,
    to: Address,
    from: Address,
    side: ChopstickPosition,
)
    requires
        w.sound(),
        w.pool.count(Envelope::take(to, from, side)) > 0,
        to < w.chopsticks.len(),
        !w.chopsticks[to as int],
    ensures
        w.deliver(Envelope::take(to, from, side)).sound(),
{
    let delivered = Envelope::take(to, from, side);
    let v = w.deliver(delivered);
    let grant = Envelope::grant(from, side);
    lemma_delivery_keeps_well_formed(w, delivered);
    lemma_pool_after_delivery(w, delivered);
    assert(w.well_addressed(delivered));
    assert(w.well_seated(from));
    assert(w.attempt_fits(from));
    assert(w.accounted(to));
    assert(w.response(delivered) == seq![grant]);
    assert forall|envelope: Envelope| #[trigger]
        v.pool.count(envelope) == w.pool.count(envelope) - one_if(envelope == delivered)
            + one_if(envelope == grant) by {}
    assert forall|p: Address| p < v.philosophers.len() implies #[trigger] v.attempt_fits(p) by {
        assert(w.attempt_fits(p));
    }
    assert forall|p: Address| p < v.philosophers.len() implies #[trigger] v.timers_fit(p) by {
        assert(w.timers_fit(p));
    }
    assert forall|c: Address| c < v.chopsticks.len() implies #[trigger] v.accounted(c) by {
        assert(w.accounted(c));
        assert forall|p: Address, s: ChopstickPosition|
            #![trigger v.owned_by(c, p, s)]
            #![trigger w.owned_by(c, p, s)]
            v.owned_by(c, p, s) == (w.owned_by(c, p, s) || (c == to && p == from && s
                == side)) by {}
        if c == to {
            assert(v.owned_by(to, from, side));
        }
    }
}

/// A request reaches a busy chopstick: nothing changes hands.
proof fn lemma_refused_take_keeps_sound(
    w: World,
    to: Address,
    from: Address,
    side: ChopstickPosition,
)
    requires
        w.sound(),
        w.pool.count(Envelope::take(to, from, side)) > 0,
        to < w.chopsticks.len(),
        w.chopsticks[to as int],
    ensures
        w.deliver(Envelope::take(to, from, side)).sound(),
{
    let delivered = Envelope::take(to, from, side);
    let v = w.deliver(delivered);
    let refusal = Envelope::refusal(from, side);
    lemma_delivery_keeps_well_formed(w, delivered);
    lemma_pool_after_delivery(w, delivered);
    assert(w.well_addressed(delivered));
    assert(w.well_seated(from));
    assert(w.attempt_fits(from));
    assert(w.accounted(to));
    assert(w.response(delivered) == seq![refusal]);
    assert forall|envelope: Envelope| #[trigger]
        v.pool.count(envelope) == w.pool.count(envelope) - one_if(envelope == delivered)
            + one_if(envelope == refusal) by {}
    assert forall|p: Address| p < v.philosophers.len() implies #[trigger] v.attempt_fits(p) by {
        assert(w.attempt_fits(p));
    }
    assert forall|p: Address| p < v.philosophers.len() implies #[trigger] v.timers_fit(p) by {
        assert(w.timers_fit(p));
    }
    assert forall|c: Address| c < v.chopsticks.len() implies #[trigger] v.accounted(c) by {
        assert(w.accounted(c));
        assert forall|p: Address, s: ChopstickPosition|
            #![trigger v.owned_by(c, p, s)]
            #![trigger w.owned_by(c, p, s)]
            v.owned_by(c, p, s) == w.owned_by(c, p, s) by {}
    }
}

/// A `Put` reaches its chopstick: the chopstick is free.
proof fn lemma_put_keeps_sound(w: World, to: Address)
    requires
        w.sound(),
        w.pool.count(Envelope::put(to)) > 0,
        to < w.chopsticks.len(),
    ensures
        w.deliver(Envelope::put(to)).sound(),
{
    let delivered = Envelope::put(to);
    let v = w.deliver(delivered);
    lemma_delivery_keeps_well_formed(w, delivered);
    lemma_pool_after_delivery(w, delivered);
    assert(w.accounted(to));
    assert(w.response(delivered) == Seq::<Envelope>::empty());
    assert forall|envelope: Envelope| #[trigger]
        v.pool.count(envelope) == w.pool.count(envelope) - one_if(envelope == delivered) by {}
    assert forall|p: Address| p < v.philosophers.len() implies #[trigger] v.attempt_fits(p) by {
        assert(w.attempt_fits(p));
    }
    assert forall|p: Address| p < v.philosophers.len() implies #[trigger] v.timers_fit(p) by {
        assert(w.timers_fit(p));
    }
    assert forall|c: Address| c < v.chopsticks.len() implies #[trigger] v.accounted(c) by {
        assert(w.accounted(c));
        assert forall|p: Address, s: ChopstickPosition|
            #![trigger v.owned_by(c, p, s)]
            #![trigger w.owned_by(c, p, s)]
            v.owned_by(c, p, s) == w.owned_by(c, p, s) by {}
    }
}

/// Every delivery keeps the table sound.
pub proof fn lemma_delivery_keeps_sound(w: World, delivered: Envelope)
    requires
        w.sound(),
        w.pool.count(delivered) > 0,
    ensures
        w.deliver(delivered).sound(),
{
    assert(w.well_addressed(delivered));
    match delivered {
        Envelope::Timer { to, action } => {
            assert(w.timers_fit(to));
            match (action, w.philosophers[to as int].state) {
                (Action::Think, PhilosopherState::Eating) => lemma_meal_end_keeps_sound(w, to),
                (Action::Think, _) => lemma_start_keeps_sound(w, to),
                (Action::Eat, PhilosopherState::Thinking) => lemma_hunger_keeps_sound(w, to),
                (Action::Eat, _) => lemma_ignored_eat_keeps_sound(w, to),
            }
        },
        Envelope::ToPhilosopher { to, state } => {
            assert(w.attempt_fits(to));
            match (state, w.philosophers[to as int].state) {
                (ChopstickState::ChopstickAvailable(s), PhilosopherState::Hungry) => {
                    lemma_first_grant_keeps_sound(w, to, s)
                },
                (
                    ChopstickState::ChopstickAvailable(s),
                    PhilosopherState::WaitingForOtherChopstick(held),
                ) => lemma_second_grant_keeps_sound(w, to, s, held),
                (ChopstickState::ChopstickAvailable(s), _) => lemma_late_grant_keeps_sound(
                    w,
                    to,
                    s,
                ),
                (ChopstickState::ChopstickUnAvailable(s), PhilosopherState::Hungry) => {
                    lemma_first_refusal_keeps_sound(w, to, s)
                },
                (
                    ChopstickState::ChopstickUnAvailable(s),
                    PhilosopherState::WaitingForOtherChopstick(held),
                ) => lemma_late_refusal_keeps_sound(w, to, s, held),
                (ChopstickState::ChopstickUnAvailable(s), _) => lemma_second_refusal_keeps_sound(
                    w,
                    to,
                    s,
                ),
            }
        },
        Envelope::ToChopstick { to, command: ChopstickAction::Take(from, side) } => {
            assert(w.well_seated(from));
            if w.chopsticks[to as int] {
                lemma_refused_take_keeps_sound(w, to, from, side);
            } else {
                lemma_granted_take_keeps_sound(w, to, from, side);
            }
        },
        Envelope::ToChopstick { to, command: ChopstickAction::Put } => {
            lemma_put_keeps_sound(w, to);
        },
    }
}

/// Every delivery keeps the table safe.
pub proof fn lemma_delivery_keeps_safe(w: World, delivered: Envelope)
    requires
        w.safe(),
        w.pool.count(delivered) > 0,
    ensures
        w.deliver(delivered).safe(),
{
    assert(w.well_addressed(delivered));
    match delivered {
        Envelope::Timer { to, action } => lemma_timer_keeps_safe(w, to, action),
        Envelope::ToPhilosopher { to, state } => lemma_answer_keeps_safe(w, to, state),
        Envelope::ToChopstick { to, command: ChopstickAction::Take(from, side) } => {
            lemma_take_keeps_safe(w, to, from, side)
        },
        Envelope::ToChopstick { to, command: ChopstickAction::Put } => lemma_put_keeps_safe(w, to),
    }
}

/// Whatever happens at the table keeps it safe: a delivery, a word from
/// outside, the loss of a message.
pub proof fn lemma_step_keeps_safe(w: World, step: Step)
    requires
        w.safe(),
        w.enabled(step),
    ensures
        w.after(step).safe(),
{
    let v = w.after(step);
    match step {
        Step::Deliver(envelope) => lemma_delivery_keeps_safe(w, envelope),
        _ => {
            assert forall|envelope: Envelope| #[trigger]
                v.pool.count(envelope) > 0 implies v.well_addressed(envelope) by {
                if w.pool.count(envelope) > 0 {
                    assert(w.well_addressed(envelope));
                }
            }
            assert forall|p: Address|
                p < v.philosophers.len() implies #[trigger] v.well_seated(p) by {
                assert(w.well_seated(p));
            }
            assert forall|c: Address| c < v.chopsticks.len() implies #[trigger] v.guarded(c) by {
                assert(w.guarded(c));
                assert forall|p: Address, s: ChopstickPosition| #[trigger]
                    v.owned_by(c, p, s) implies w.owned_by(c, p, s) by {}
            }
        },
    }
}

/// A step that does not disturb the protocol keeps the table sound.
pub proof fn lemma_step_keeps_sound(w: World, step: Step)
    requires
        w.sound(),
        w.enabled(step),
        step.undisturbing(),
    ensures
        w.after(step).sound(),
{
    match step {
        Step::Deliver(envelope) => lemma_delivery_keeps_sound(w, envelope),
        _ => {
            let v = w.after(step);
            assert forall|envelope: Envelope| #[trigger]
                v.pool.count(envelope) > 0 implies v.well_addressed(envelope) by {
                if w.pool.count(envelope) > 0 {
                    assert(w.well_addressed(envelope));
                }
            }
            assert forall|p: Address|
                p < v.philosophers.len() implies #[trigger] v.well_seated(p) by {
                assert(w.well_seated(p));
            }
            assert forall|p: Address|
                p < v.philosophers.len() implies #[trigger] v.attempt_fits(p) by {
                assert(w.attempt_fits(p));
            }
            assert forall|p: Address|
                p < v.philosophers.len() implies #[trigger] v.timers_fit(p) by {
                assert(w.timers_fit(p));
            }
            assert forall|c: Address| c < v.chopsticks.len() implies #[trigger] v.accounted(c) by {
                assert(w.accounted(c));
                assert forall|p: Address, s: ChopstickPosition|
                    #![trigger v.owned_by(c, p, s)]
                    #![trigger w.owned_by(c, p, s)]
                    v.owned_by(c, p, s) == w.owned_by(c, p, s) by {}
            }
        },
    }
}

/// Every run from a safe table ends in a safe table.
pub proof fn lemma_run_keeps_safe(w: World, steps: Seq<Step>)
    requires
        w.safe(),
        w.admits(steps),
    ensures
        w.run(steps).safe(),
    decreases steps.len(),
{
    if steps.len() > 0 {
        lemma_run_keeps_safe(w, steps.drop_last());
        lemma_step_keeps_safe(w.run(steps.drop_last()), steps.last());
    }
}

/// Every undisturbed run from a sound table ends in a sound table.
pub proof fn lemma_run_keeps_sound(w: World, steps: Seq<Step>)
    requires
        w.sound(),
        w.admits(steps),
        undisturbed(steps),
    ensures
        w.run(steps).sound(),
    decreases steps.len(),
{
    if steps.len() > 0 {
        assert(steps.last().undisturbing());
        assert(undisturbed(steps.drop_last())) by {
            assert forall|k: int| 0 <= k < steps.drop_last().len() implies (
            #[trigger] steps.drop_last()[k]).undisturbing() by {
                assert(steps[k].undisturbing());
            }
        }
        lemma_run_keeps_sound(w, steps.drop_last());
        lemma_step_keeps_sound(w.run(steps.drop_last()), steps.last());
    }
}

/// Mutual exclusion: however a table that was laid properly has been run,
/// no chopstick is held by two hands, and every chopstick that is held is
/// busy. This holds whatever is delivered in whatever order, whatever the
/// philosophers are told from outside, whichever messages are lost, and
/// whichever chopsticks were busy when the table was laid.
pub proof fn theorem_mutual_exclusion(laid: World, steps: Seq<Step>)
    requires
        laid.laid(),
        laid.admits(steps),
    ensures
        laid.run(steps).safe(),
        laid.run(steps).exclusive(),
{
    lemma_laid_is_safe(laid);
    lemma_run_keeps_safe(laid, steps);
    lemma_safe_is_exclusive(laid.run(steps));
}

} // verus!
