//! What the table can always do next: a meal ends with both chopsticks free,
//! a philosopher that holds one chopstick does not keep it, and some
//! philosopher can always get to eat.

use vstd::prelude::*;

use crate::accounting::lemma_initial_is_sound;
use crate::message::{Action, Address, ChopstickAction, ChopstickPosition};
use crate::philosopher::PhilosopherState;
use crate::safety::{lemma_delivery_keeps_sound, lemma_pool_after_delivery, lemma_run_keeps_sound};
use crate::world::{
    lemma_run_concat, lemma_run_push, only_deliveries, undisturbed, Envelope, Step, World,
};

verus! {

/// The end of philosopher `p`'s meal: its `Think` timer fires, then the two
/// `Put`s it sends reach the chopstick on its left and the one on its right.
pub open spec fn meal_end(w: World, p: Address) -> Seq<Step> {
    seq![
        Step::Deliver(Envelope::timer(p, Action::Think)),
        Step::Deliver(Envelope::put(w.philosophers[p as int].left)),
        Step::Deliver(Envelope::put(w.philosophers[p as int].right)),
    ]
}

/// A run of one delivery.
proof fn lemma_run_delivery(w: World, steps: Seq<Step>, envelope: Envelope)
    requires
        w.admits(steps),
        w.run(steps).pool.count(envelope) > 0,
    ensures
        w.admits(steps.push(Step::Deliver(envelope))),
        w.run(steps.push(Step::Deliver(envelope))) == w.run(steps).deliver(envelope),
{
    lemma_run_push(w, steps, Step::Deliver(envelope));
}

/// Release after a meal: when a philosopher that eats is told to think and
/// its two `Put`s arrive, it thinks and both its chopsticks are free.
pub proof fn theorem_meal_ends_with_free_chopsticks(w: World, p: Address)
    requires
        w.sound(),
        p < w.philosophers.len(),
        w.philosophers[p as int].state == PhilosopherState::Eating,
    ensures
        w.admits(meal_end(w, p)),
        w.run(meal_end(w, p)).sound(),
        w.run(meal_end(w, p)).philosophers[p as int].state == PhilosopherState::Thinking,
        !w.run(meal_end(w, p)).chopsticks[w.philosophers[p as int].left as int],
        !w.run(meal_end(w, p)).chopsticks[w.philosophers[p as int].right as int],
{
    let left = w.philosophers[p as int].left;
    let right = w.philosophers[p as int].right;
    let think = Envelope::timer(p, Action::Think);
    assert(w.timers_fit(p));
    assert(w.well_seated(p));

    let none = Seq::<Step>::empty();
    lemma_run_delivery(w, none, think);
    let w1 = w.deliver(think);
    lemma_delivery_keeps_sound(w, think);
    lemma_pool_after_delivery(w, think);
    assert(w.response(think) == seq![
        Envelope::put(left),
        Envelope::put(right),
        Envelope::timer(p, Action::Eat),
    ]);
    assert(w1.pool.count(Envelope::put(left)) > 0);
    assert(w1.pool.count(Envelope::put(right)) > 0);

    let s1 = none.push(Step::Deliver(think));
    lemma_run_delivery(w, s1, Envelope::put(left));
    let w2 = w1.deliver(Envelope::put(left));
    lemma_delivery_keeps_sound(w1, Envelope::put(left));
    lemma_pool_after_delivery(w1, Envelope::put(left));
    assert(w1.response(Envelope::put(left)) == Seq::<Envelope>::empty());
    assert(w1.accounted(left));
    assert(w1.accounted(right));
    assert(w2.pool.count(Envelope::put(right)) > 0);

    let s2 = s1.push(Step::Deliver(Envelope::put(left)));
    lemma_run_delivery(w, s2, Envelope::put(right));
    lemma_delivery_keeps_sound(w2, Envelope::put(right));
    assert(s2.push(Step::Deliver(Envelope::put(right))) == meal_end(w, p));
}

/// The deliveries that bring philosopher `p` its answer for side `s`: the
/// request first, if it has not arrived yet, then the answer.
pub open spec fn answer_arrives(w: World, p: Address, s: ChopstickPosition) -> Seq<Step> {
    if w.pool.count(w.take(p, s)) > 0 {
        seq![Step::Deliver(w.take(p, s)), Step::Deliver(w.answer(p, s))]
    } else if w.pool.count(Envelope::grant(p, s)) > 0 {
        seq![Step::Deliver(Envelope::grant(p, s))]
    } else {
        seq![Step::Deliver(Envelope::refusal(p, s))]
    }
}

/// No hold-and-wait: a philosopher that holds one chopstick and awaits the
/// other has its answer under way. Once that answer has arrived, after two
/// deliveries at most, the philosopher eats, or it thinks, holds nothing, and
/// the `Put` for the chopstick it held is under way.
pub proof fn theorem_holding_one_ends(w: World, p: Address, held: ChopstickPosition)
    requires
        w.sound(),
        p < w.philosophers.len(),
        w.philosophers[p as int].state == PhilosopherState::WaitingForOtherChopstick(held),
    ensures
        answer_arrives(w, p, held.other()).len() <= 2,
        w.admits(answer_arrives(w, p, held.other())),
        w.run(answer_arrives(w, p, held.other())).sound(),
        ({
            let end = w.run(answer_arrives(w, p, held.other()));
            let state = end.philosophers[p as int].state;
            ||| state == PhilosopherState::Eating
            ||| {
                &&& state == PhilosopherState::Thinking
                &&& !end.philosophers[p as int].holds(ChopstickPosition::Left)
                &&& !end.philosophers[p as int].holds(ChopstickPosition::Right)
                &&& end.puts(w.philosophers[p as int].chopstick(held)) == 1
            }
        }),
{
    let s = held.other();
    let steps = answer_arrives(w, p, s);
    let none = Seq::<Step>::empty();
    assert(w.attempt_fits(p));
    assert(w.well_seated(p));
    if w.pool.count(w.take(p, s)) > 0 {
        let c = w.philosophers[p as int].chopstick(s);
        lemma_run_delivery(w, none, w.take(p, s));
        let w1 = w.deliver(w.take(p, s));
        lemma_delivery_keeps_sound(w, w.take(p, s));
        lemma_pool_after_delivery(w, w.take(p, s));
        assert(w.response(w.take(p, s)) == seq![w.answer(p, s)]);
        assert(w1.pool.count(w.answer(p, s)) > 0);
        let s1 = none.push(Step::Deliver(w.take(p, s)));
        lemma_run_delivery(w, s1, w.answer(p, s));
        assert(s1.push(Step::Deliver(w.answer(p, s))) == steps);
        lemma_answer_ends_wait(w1, p, held, w.answer(p, s));
    } else if w.pool.count(Envelope::grant(p, s)) > 0 {
        lemma_run_delivery(w, none, Envelope::grant(p, s));
        assert(none.push(Step::Deliver(Envelope::grant(p, s))) == steps);
        lemma_answer_ends_wait(w, p, held, Envelope::grant(p, s));
    } else {
        lemma_run_delivery(w, none, Envelope::refusal(p, s));
        assert(none.push(Step::Deliver(Envelope::refusal(p, s))) == steps);
        lemma_answer_ends_wait(w, p, held, Envelope::refusal(p, s));
    }
}

/// The answer for the other side ends the wait of a philosopher that holds
/// one chopstick.
proof fn lemma_answer_ends_wait(
    w: World,
    p: Address,
    held: ChopstickPosition,
    answer: Envelope,
)
    requires
        w.sound(),
        p < w.philosophers.len(),
        w.philosophers[p as int].state == PhilosopherState::WaitingForOtherChopstick(held),
        answer == Envelope::grant(p, held.other()) || answer == Envelope::refusal(p, held.other()),
        w.pool.count(answer) > 0,
    ensures
        w.deliver(answer).sound(),
        ({
            let end = w.deliver(answer);
            let state = end.philosophers[p as int].state;
            ||| state == PhilosopherState::Eating
            ||| {
                &&& state == PhilosopherState::Thinking
                &&& !end.philosophers[p as int].holds(ChopstickPosition::Left)
                &&& !end.philosophers[p as int].holds(ChopstickPosition::Right)
                &&& end.puts(w.philosophers[p as int].chopstick(held)) == 1
            }
        }),
{
    let back = w.philosophers[p as int].chopstick(held);
    lemma_delivery_keeps_sound(w, answer);
    lemma_pool_after_delivery(w, answer);
    assert(w.well_seated(p));
    assert(w.accounted(back));
    assert(w.owned_by(back, p, held));
    if answer == Envelope::refusal(p, held.other()) {
        assert(w.response(answer) == seq![Envelope::put(back), Envelope::timer(p, Action::Eat)]);
    }
}

impl World {
    /// Whether philosopher `p` is not in the middle of an attempt.
    pub open spec fn resting(self, p: Address) -> bool {
        let state = self.philosophers[p as int].state;
        ||| state == PhilosopherState::Waiting
        ||| state == PhilosopherState::Thinking
        ||| state == PhilosopherState::Eating
    }

    /// Whether some philosopher eats.
    pub open spec fn someone_eats(self) -> bool {
        exists|p: Address|
            p < self.philosophers.len() && (#[trigger] self.philosophers[p as int]).state
                == PhilosopherState::Eating
    }

    /// Whether `other` has the same chopsticks and the same philosophers in
    /// the same seats, whatever their states.
    pub open spec fn same_seats(self, other: World) -> bool {
        &&& self.chopsticks.len() == other.chopsticks.len()
        &&& self.philosophers.len() == other.philosophers.len()
        &&& forall|p: int|
            0 <= p < self.philosophers.len() ==> {
                &&& (#[trigger] self.philosophers[p]).left == other.philosophers[p].left
                &&& self.philosophers[p].right == other.philosophers[p].right
            }
    }

    /// How far philosopher `p` is from the end of its attempt: two for each
    /// request under way, one for each answer.
    pub open spec fn unsettled(self, p: Address) -> nat {
        2 * self.takes(p, ChopstickPosition::Left) + 2 * self.takes(p, ChopstickPosition::Right)
            + self.grants(p, ChopstickPosition::Left) + self.grants(p, ChopstickPosition::Right)
            + self.refusals(p, ChopstickPosition::Left) + self.refusals(
            p,
            ChopstickPosition::Right,
        )
    }

    /// The next message to deliver for philosopher `p`'s attempt: a request
    /// of its if one is under way, else an answer to it.
    pub open spec fn next_for(self, p: Address) -> Envelope {
        if self.takes(p, ChopstickPosition::Left) > 0 {
            self.take(p, ChopstickPosition::Left)
        } else if self.takes(p, ChopstickPosition::Right) > 0 {
            self.take(p, ChopstickPosition::Right)
        } else if self.grants(p, ChopstickPosition::Left) > 0 {
            Envelope::grant(p, ChopstickPosition::Left)
        } else if self.grants(p, ChopstickPosition::Right) > 0 {
            Envelope::grant(p, ChopstickPosition::Right)
        } else if self.refusals(p, ChopstickPosition::Left) > 0 {
            Envelope::refusal(p, ChopstickPosition::Left)
        } else {
            Envelope::refusal(p, ChopstickPosition::Right)
        }
    }
}

/// Delivering the next message of philosopher `p`'s attempt brings the
/// attempt nearer its end and leaves every other philosopher as it was.
proof fn lemma_next_for(w: World, p: Address)
    requires
        w.sound(),
        p < w.philosophers.len(),
        !w.resting(p),
    ensures
        w.pool.count(w.next_for(p)) > 0,
        w.deliver(w.next_for(p)).sound(),
        w.deliver(w.next_for(p)).same_seats(w),
        w.deliver(w.next_for(p)).unsettled(p) < w.unsettled(p),
        forall|q: int|
            0 <= q < w.philosophers.len() && q != p ==> #[trigger] w.deliver(
                w.next_for(p),
            ).philosophers[q] == w.philosophers[q],
{
    let next = w.next_for(p);
    assert(w.attempt_fits(p));
    assert(w.well_seated(p));
    lemma_delivery_keeps_sound(w, next);
    lemma_pool_after_delivery(w, next);
    let left = ChopstickPosition::Left;
    let right = ChopstickPosition::Right;
    if w.takes(p, left) > 0 {
        assert(w.response(next) == seq![w.answer(p, left)]);
    } else if w.takes(p, right) > 0 {
        assert(w.response(next) == seq![w.answer(p, right)]);
    } else {
        let sent = w.response(next);
        assert forall|k: int| 0 <= k < sent.len() implies !(#[trigger] sent[k] is ToPhilosopher)
            && !(sent[k] matches Envelope::ToChopstick {
            command: ChopstickAction::Take(_, _),
            ..
        }) by {}
    }
}

/// The deliveries that bring philosopher `p`'s attempt to its end.
proof fn lemma_settle(w: World, p: Address) -> (steps: Seq<Step>)
    requires
        w.sound(),
        p < w.philosophers.len(),
    ensures
        only_deliveries(steps),
        w.admits(steps),
        w.run(steps).sound(),
        w.run(steps).same_seats(w),
        w.run(steps).resting(p),
        forall|q: int|
            0 <= q < w.philosophers.len() && q != p ==> #[trigger] w.run(steps).philosophers[q]
                == w.philosophers[q],
    decreases w.unsettled(p),
{
    if w.resting(p) {
        Seq::empty()
    } else {
        let next = w.next_for(p);
        lemma_next_for(w, p);
        let first = seq![Step::Deliver(next)];
        lemma_run_delivery(w, Seq::empty(), next);
        assert(Seq::<Step>::empty().push(Step::Deliver(next)) == first);
        let rest = lemma_settle(w.deliver(next), p);
        lemma_run_concat(w, first, rest);
        first + rest
    }
}

/// The deliveries that bring the attempts of the first `k` philosophers to
/// their ends.
proof fn lemma_settle_all(w: World, k: nat) -> (steps: Seq<Step>)
    requires
        w.sound(),
        k <= w.philosophers.len(),
    ensures
        only_deliveries(steps),
        w.admits(steps),
        w.run(steps).sound(),
        w.run(steps).same_seats(w),
        forall|p: Address| p < k ==> #[trigger] w.run(steps).resting(p),
    decreases k,
{
    if k == 0 {
        Seq::empty()
    } else {
        let first = lemma_settle_all(w, (k - 1) as nat);
        if k - 1 <= usize::MAX {
            let last = (k - 1) as Address;
            let rest = lemma_settle(w.run(first), last);
            lemma_run_concat(w, first, rest);
            let end = w.run(first + rest);
            assert forall|p: Address| p < k implies #[trigger] end.resting(p) by {
                if p != last {
                    assert(w.run(first).resting(p));
                    assert(end.philosophers[p as int] == w.run(first).philosophers[p as int]);
                }
            }
            first + rest
        } else {
            first
        }
    }
}

impl World {
    /// Whether every philosopher waits to be started or thinks.
    pub open spec fn quiet(self) -> bool {
        forall|p: Address|
            p < self.philosophers.len() ==> {
                let state = (#[trigger] self.philosophers[p as int]).state;
                state == PhilosopherState::Waiting || state == PhilosopherState::Thinking
            }
    }
}

/// At a quiet table, once the `Put` that may be under way to chopstick `c`
/// has arrived, `c` is free.
proof fn lemma_free_chopstick(w: World, c: Address) -> (steps: Seq<Step>)
    requires
        w.sound(),
        w.quiet(),
        c < w.chopsticks.len(),
    ensures
        only_deliveries(steps),
        w.admits(steps),
        w.run(steps).sound(),
        w.run(steps).philosophers == w.philosophers,
        w.run(steps).chopsticks.len() == w.chopsticks.len(),
        !w.run(steps).chopsticks[c as int],
        forall|d: int|
            0 <= d < w.chopsticks.len() && !w.chopsticks[d] ==> !(#[trigger] w.run(
                steps,
            ).chopsticks[d]),
{
    assert(w.accounted(c));
    if w.puts(c) > 0 {
        lemma_run_delivery(w, Seq::empty(), Envelope::put(c));
        lemma_delivery_keeps_sound(w, Envelope::put(c));
        let steps = seq![Step::Deliver(Envelope::put(c))];
        assert(Seq::<Step>::empty().push(Step::Deliver(Envelope::put(c))) == steps);
        assert(w.run(steps).philosophers == w.philosophers);
        steps
    } else {
        assert forall|p: Address, s: ChopstickPosition| !w.owned_by(c, p, s) by {
            if p < w.philosophers.len() {
                assert(w.attempt_fits(p));
                let state = w.philosophers[p as int].state;
                assert(state == PhilosopherState::Waiting || state == PhilosopherState::Thinking);
            }
        }
        Seq::empty()
    }
}

/// A philosopher that waits to be started or thinks gets hungry once its
/// timers have fired: its requests for both chopsticks are under way.
proof fn lemma_wake(w: World, p: Address) -> (steps: Seq<Step>)
    requires
        w.sound(),
        p < w.philosophers.len(),
        w.philosophers[p as int].state == PhilosopherState::Waiting
            || w.philosophers[p as int].state == PhilosopherState::Thinking,
    ensures
        only_deliveries(steps),
        w.admits(steps),
        w.run(steps).sound(),
        w.run(steps).same_seats(w),
        w.run(steps).chopsticks == w.chopsticks,
        w.run(steps).philosophers[p as int].state == PhilosopherState::Hungry,
        w.run(steps).takes(p, ChopstickPosition::Left) > 0,
        w.run(steps).takes(p, ChopstickPosition::Right) > 0,
{
    let think = Envelope::timer(p, Action::Think);
    let eat = Envelope::timer(p, Action::Eat);
    let none = Seq::<Step>::empty();
    assert(w.timers_fit(p));
    if w.philosophers[p as int].state == PhilosopherState::Waiting {
        lemma_run_delivery(w, none, think);
        lemma_delivery_keeps_sound(w, think);
        let w1 = w.deliver(think);
        assert(w1.timers_fit(p));
        let s1 = none.push(Step::Deliver(think));
        lemma_run_delivery(w, s1, eat);
        lemma_hungry(w1, p);
        s1.push(Step::Deliver(eat))
    } else {
        lemma_run_delivery(w, none, eat);
        lemma_hungry(w, p);
        none.push(Step::Deliver(eat))
    }
}

/// An `Eat` makes a thinking philosopher hungry and puts its requests for
/// both chopsticks under way.
proof fn lemma_hungry(w: World, p: Address)
    requires
        w.sound(),
        p < w.philosophers.len(),
        w.philosophers[p as int].state == PhilosopherState::Thinking,
        w.pool.count(Envelope::timer(p, Action::Eat)) > 0,
    ensures
        ({
            let hungry = w.deliver(Envelope::timer(p, Action::Eat));
            &&& hungry.sound()
            &&& hungry.same_seats(w)
            &&& hungry.chopsticks == w.chopsticks
            &&& hungry.philosophers[p as int].state == PhilosopherState::Hungry
            &&& hungry.takes(p, ChopstickPosition::Left) > 0
            &&& hungry.takes(p, ChopstickPosition::Right) > 0
        }),
{
    let eat = Envelope::timer(p, Action::Eat);
    lemma_delivery_keeps_sound(w, eat);
    lemma_pool_after_delivery(w, eat);
    assert(w.response(eat) == seq![
        w.take(p, ChopstickPosition::Left),
        w.take(p, ChopstickPosition::Right),
    ]);
}

/// The four deliveries that take a hungry philosopher to its meal when both
/// its requests are under way: the requests, left first, then the answers.
pub open spec fn both_granted(w: World, p: Address) -> Seq<Step> {
    seq![
        Step::Deliver(w.take(p, ChopstickPosition::Left)),
        Step::Deliver(w.take(p, ChopstickPosition::Right)),
        Step::Deliver(Envelope::grant(p, ChopstickPosition::Left)),
        Step::Deliver(Envelope::grant(p, ChopstickPosition::Right)),
    ]
}

/// A hungry philosopher whose two chopsticks are free, and not one and the
/// same, gets both and eats.
proof fn lemma_both_granted(w: World, p: Address)
    requires
        w.sound(),
        p < w.philosophers.len(),
        w.philosophers[p as int].state == PhilosopherState::Hungry,
        w.takes(p, ChopstickPosition::Left) > 0,
        w.takes(p, ChopstickPosition::Right) > 0,
        w.philosophers[p as int].left != w.philosophers[p as int].right,
        !w.chopsticks[w.philosophers[p as int].left as int],
        !w.chopsticks[w.philosophers[p as int].right as int],
    ensures
        w.admits(both_granted(w, p)),
        w.run(both_granted(w, p)).sound(),
        w.run(both_granted(w, p)).philosophers.len() == w.philosophers.len(),
        w.run(both_granted(w, p)).philosophers[p as int].state == PhilosopherState::Eating,
{
    let left = ChopstickPosition::Left;
    let right = ChopstickPosition::Right;
    let none = Seq::<Step>::empty();
    assert(w.well_seated(p));
    assert(w.attempt_fits(p));

    lemma_run_delivery(w, none, w.take(p, left));
    let w1 = w.deliver(w.take(p, left));
    lemma_delivery_keeps_sound(w, w.take(p, left));
    lemma_pool_after_delivery(w, w.take(p, left));
    assert(w.response(w.take(p, left)) == seq![Envelope::grant(p, left)]);
    assert(w1.pool.count(w.take(p, right)) > 0);
    assert(w1.pool.count(Envelope::grant(p, left)) > 0);

    let s1 = none.push(Step::Deliver(w.take(p, left)));
    lemma_run_delivery(w, s1, w.take(p, right));
    let w2 = w1.deliver(w.take(p, right));
    lemma_delivery_keeps_sound(w1, w.take(p, right));
    lemma_pool_after_delivery(w1, w.take(p, right));
    assert(w1.response(w.take(p, right)) == seq![Envelope::grant(p, right)]);
    assert(w2.pool.count(Envelope::grant(p, left)) > 0);
    assert(w2.pool.count(Envelope::grant(p, right)) > 0);

    let s2 = s1.push(Step::Deliver(w.take(p, right)));
    lemma_run_delivery(w, s2, Envelope::grant(p, left));
    let w3 = w2.deliver(Envelope::grant(p, left));
    lemma_delivery_keeps_sound(w2, Envelope::grant(p, left));
    lemma_pool_after_delivery(w2, Envelope::grant(p, left));
    assert(w2.response(Envelope::grant(p, left)) == Seq::<Envelope>::empty());
    assert(w3.pool.count(Envelope::grant(p, right)) > 0);
    assert(w3.philosophers[p as int].state == PhilosopherState::WaitingForOtherChopstick(left));

    let s3 = s2.push(Step::Deliver(Envelope::grant(p, left)));
    lemma_run_delivery(w, s3, Envelope::grant(p, right));
    lemma_delivery_keeps_sound(w3, Envelope::grant(p, right));
    assert(s3.push(Step::Deliver(Envelope::grant(p, right))) == both_granted(w, p));
}

/// At a sound table at which philosopher `p` sits between two different
/// chopsticks, the messages under way can be delivered in such an order that
/// some philosopher eats. The order is returned: every attempt is brought to
/// its end first; if nobody eats then, `p`'s chopsticks are freed, `p`'s
/// timers fire, and `p` is served before anyone else asks.
pub proof fn lemma_someone_can_eat(w: World, p: Address) -> (steps: Seq<Step>)
    requires
        w.sound(),
        p < w.philosophers.len(),
        w.philosophers[p as int].left != w.philosophers[p as int].right,
    ensures
        only_deliveries(steps),
        w.admits(steps),
        w.run(steps).someone_eats(),
{
    let settle = lemma_settle_all(w, w.philosophers.len());
    let w1 = w.run(settle);
    if w1.someone_eats() {
        settle
    } else {
        assert(w1.quiet()) by {
            assert forall|q: Address| q < w1.philosophers.len() implies {
                let state = (#[trigger] w1.philosophers[q as int]).state;
                state == PhilosopherState::Waiting || state == PhilosopherState::Thinking
            } by {
                assert(w1.resting(q));
            }
        }
        let left = w.philosophers[p as int].left;
        let right = w.philosophers[p as int].right;
        assert(w1.well_seated(p));
        let free_left = lemma_free_chopstick(w1, left);
        let w2 = w1.run(free_left);
        let free_right = lemma_free_chopstick(w2, right);
        let w3 = w2.run(free_right);
        let wake = lemma_wake(w3, p);
        let w4 = w3.run(wake);
        lemma_both_granted(w4, p);
        let meal = both_granted(w4, p);
        let w5 = w4.run(meal);
        assert(w5.philosophers[p as int].state == PhilosopherState::Eating);
        lemma_run_concat(w, settle, free_left);
        lemma_run_concat(w, settle + free_left, free_right);
        lemma_run_concat(w, settle + free_left + free_right, wake);
        lemma_run_concat(w, settle + free_left + free_right + wake, meal);
        settle + free_left + free_right + wake + meal
    }
}

impl World {
    /// Whether the table is a ring of at least two philosophers: as many
    /// chopsticks as philosophers, and each philosopher between the
    /// chopstick with its own number on the left and the next one, counted
    /// round the table, on the right.
    pub open spec fn ring(self) -> bool {
        &&& self.philosophers.len() >= 2
        &&& self.chopsticks.len() == self.philosophers.len()
        &&& forall|p: int|
            0 <= p < self.philosophers.len() ==> {
                &&& (#[trigger] self.philosophers[p]).left == p
                &&& self.philosophers[p].right == (p + 1) % (self.philosophers.len() as int)
            }
    }
}

/// A delivery moves no philosopher to another seat.
proof fn lemma_step_keeps_seats(w: World, step: Step)
    ensures
        w.after(step).same_seats(w),
{
}

/// A run moves no philosopher to another seat.
pub proof fn lemma_run_keeps_seats(w: World, steps: Seq<Step>)
    ensures
        w.run(steps).same_seats(w),
    decreases steps.len(),
{
    if steps.len() > 0 {
        lemma_run_keeps_seats(w, steps.drop_last());
        lemma_step_keeps_seats(w.run(steps.drop_last()), steps.last());
    }
}

/// No deadlock: at a ring of two or more philosophers that was laid properly
/// and has been run in any way, with no message lost and nobody told from
/// outside to think, the messages under way can be delivered in such an
/// order that some philosopher eats. The order is returned.
pub proof fn theorem_someone_can_eat(laid: World, past: Seq<Step>) -> (steps: Seq<Step>)
    requires
        laid.initial(),
        laid.ring(),
        laid.admits(past),
        undisturbed(past),
    ensures
        only_deliveries(steps),
        laid.run(past).admits(steps),
        laid.run(past).run(steps).someone_eats(),
{
    let w = laid.run(past);
    lemma_initial_is_sound(laid);
    lemma_run_keeps_sound(laid, past);
    lemma_run_keeps_seats(laid, past);
    assert(laid.philosophers[0].left == 0);
    let seats = laid.philosophers.len() as int;
    assert(1int % seats == 1) by (nonlinear_arith)
        requires
            seats >= 2,
    ;
    assert(w.philosophers[0].left == laid.philosophers[0].left);
    lemma_someone_can_eat(w, 0)
}

} // verus!
