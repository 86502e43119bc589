use dinning_philosophers::{
    Action, Chopstick, ChopstickAction, ChopstickPosition, Context, Envelope, Handler,
    Philosopher, PhilosopherState, Table,
};

const LEFT: ChopstickPosition = ChopstickPosition::Left;
const RIGHT: ChopstickPosition = ChopstickPosition::Right;

fn think(to: usize) -> Envelope {
    Envelope::Timer { to, action: Action::Think }
}

fn eat(to: usize) -> Envelope {
    Envelope::Timer { to, action: Action::Eat }
}

fn take(to: usize, from: usize, side: ChopstickPosition) -> Envelope {
    Envelope::ToChopstick { to, command: ChopstickAction::Take(from, side) }
}

fn put(to: usize) -> Envelope {
    Envelope::ToChopstick { to, command: ChopstickAction::Put }
}

fn grant(to: usize, side: ChopstickPosition) -> Envelope {
    Envelope::ToPhilosopher {
        to,
        state: dinning_philosophers::ChopstickState::ChopstickAvailable(side),
    }
}

fn refusal(to: usize, side: ChopstickPosition) -> Envelope {
    Envelope::ToPhilosopher {
        to,
        state: dinning_philosophers::ChopstickState::ChopstickUnAvailable(side),
    }
}

/// A ring of `seats` philosophers: philosopher `p` between chopstick `p` on
/// its left and chopstick `p + 1`, counted round the table, on its right.
fn ring(seats: usize) -> Table {
    let chopsticks = (0..seats).map(|_| Chopstick::new()).collect();
    let philosophers =
        (0..seats).map(|p| Philosopher::new("philosopher", p, (p + 1) % seats)).collect();
    Table::new(chopsticks, philosophers)
}

/// Delivers the oldest pending copy of `envelope`.
fn deliver(table: &mut Table, envelope: Envelope) {
    let i = table.pending().iter().position(|pending| *pending == envelope);
    match i {
        Some(i) => assert!(table.deliver(i)),
        None => panic!("{:?} is not under way: {:?}", envelope, table.pending()),
    }
}

fn state(table: &Table, p: usize) -> PhilosopherState {
    table.philosophers()[p].state
}

fn busy(table: &Table) -> Vec<bool> {
    table.chopsticks().iter().map(|chopstick| chopstick.is_busy()).collect()
}

/// Whether philosopher `p` counts the chopstick on `side` as its own.
fn holds(table: &Table, p: usize, side: ChopstickPosition) -> bool {
    match state(table, p) {
        PhilosopherState::Eating => true,
        PhilosopherState::WaitingForOtherChopstick(held) => held == side,
        _ => false,
    }
}

/// No chopstick is in two hands, and every chopstick in a hand is busy.
fn assert_exclusive(table: &Table) {
    let mut hands = vec![0; table.chopsticks().len()];
    for (p, philosopher) in table.philosophers().iter().enumerate() {
        for (side, chopstick) in [(LEFT, philosopher.left), (RIGHT, philosopher.right)] {
            if holds(table, p, side) {
                hands[chopstick] += 1;
                assert!(table.chopsticks()[chopstick].is_busy());
            }
        }
    }
    assert!(hands.iter().all(|&n| n <= 1), "{:?}", table);
}

/// Two philosophers that share both chopsticks, both thinking, both told to
/// eat at the same moment.
fn two_hungry() -> Table {
    let mut table = ring(2);
    deliver(&mut table, think(0));
    deliver(&mut table, think(1));
    assert!(table.tell(0, Action::Eat));
    assert!(table.tell(1, Action::Eat));
    table
}

#[test]
fn a_new_table_holds_one_think_for_each_philosopher() {
    let table = ring(3);
    assert_eq!(table.pending(), &vec![think(0), think(1), think(2)]);
    assert_eq!(busy(&table), vec![false, false, false]);
    for p in 0..3 {
        assert_eq!(state(&table, p), PhilosopherState::Waiting);
        assert_eq!(table.philosophers()[p].left, p);
        assert_eq!(table.philosophers()[p].right, (p + 1) % 3);
    }
}

#[test]
fn an_empty_table_has_nothing_pending() {
    let mut table = Table::new(Vec::new(), Vec::new());
    assert!(table.pending().is_empty());
    assert!(!table.deliver(0));
    assert!(!table.lose(0));
    assert!(!table.tell(0, Action::Eat));
    assert!(table.pending().is_empty());
}

#[test]
fn deliver_beyond_the_pending_messages_changes_nothing() {
    let mut table = ring(2);
    assert!(!table.deliver(2));
    assert!(!table.deliver(usize::MAX));
    assert_eq!(table.pending(), &vec![think(0), think(1)]);
    assert_eq!(state(&table, 0), PhilosopherState::Waiting);
    assert_eq!(state(&table, 1), PhilosopherState::Waiting);
}

#[test]
fn deliver_takes_the_message_out_and_appends_what_is_sent() {
    let mut table = ring(2);
    assert!(table.deliver(0));
    assert_eq!(table.pending(), &vec![think(1), eat(0)]);
    assert!(table.deliver(1));
    assert_eq!(table.pending(), &vec![think(1), take(0, 0, LEFT), take(1, 0, RIGHT)]);
    assert!(table.deliver(2));
    assert_eq!(table.pending(), &vec![think(1), take(0, 0, LEFT), grant(0, RIGHT)]);
    assert_eq!(busy(&table), vec![false, true]);
}

#[test]
fn tell_appends_the_action_for_a_philosopher_that_exists() {
    let mut table = ring(2);
    assert!(table.tell(1, Action::Eat));
    assert_eq!(table.pending(), &vec![think(0), think(1), eat(1)]);
    assert!(table.tell(0, Action::Think));
    assert_eq!(table.pending(), &vec![think(0), think(1), eat(1), think(0)]);
    assert!(!table.tell(2, Action::Eat));
    assert!(!table.tell(usize::MAX, Action::Think));
    assert_eq!(table.pending(), &vec![think(0), think(1), eat(1), think(0)]);
}

#[test]
fn lose_takes_a_message_away_unhandled() {
    let mut table = ring(2);
    assert!(table.lose(0));
    assert_eq!(table.pending(), &vec![think(1)]);
    assert_eq!(state(&table, 0), PhilosopherState::Waiting);
    assert!(!table.lose(1));
    assert_eq!(table.pending(), &vec![think(1)]);
}

#[test]
fn a_chopstick_whose_put_is_lost_stays_busy_and_is_given_to_nobody() {
    let mut table = two_hungry();
    deliver(&mut table, eat(0));
    deliver(&mut table, take(0, 0, LEFT));
    deliver(&mut table, take(1, 0, RIGHT));
    deliver(&mut table, grant(0, LEFT));
    deliver(&mut table, grant(0, RIGHT));
    deliver(&mut table, think(0));
    assert_eq!(state(&table, 0), PhilosopherState::Thinking);
    let lost = table.pending().iter().position(|envelope| *envelope == put(0)).unwrap();
    assert!(table.lose(lost));
    deliver(&mut table, put(1));
    assert_eq!(busy(&table), vec![true, false]);

    deliver(&mut table, eat(1));
    deliver(&mut table, take(1, 1, LEFT));
    deliver(&mut table, take(0, 1, RIGHT));
    deliver(&mut table, grant(1, LEFT));
    deliver(&mut table, refusal(1, RIGHT));
    assert_eq!(state(&table, 1), PhilosopherState::Thinking);
    deliver(&mut table, put(1));
    assert_eq!(busy(&table), vec![true, false]);
    assert_exclusive(&table);
}

#[test]
fn a_philosopher_told_to_think_while_it_holds_a_chopstick_lets_nobody_else_have_it() {
    let mut table = two_hungry();
    deliver(&mut table, eat(0));
    deliver(&mut table, take(0, 0, LEFT));
    deliver(&mut table, grant(0, LEFT));
    assert_eq!(state(&table, 0), PhilosopherState::WaitingForOtherChopstick(LEFT));
    assert!(table.tell(0, Action::Think));
    deliver(&mut table, think(0));
    assert_eq!(state(&table, 0), PhilosopherState::Thinking);
    assert_eq!(busy(&table), vec![true, false]);

    deliver(&mut table, eat(1));
    deliver(&mut table, take(1, 1, LEFT));
    deliver(&mut table, take(0, 1, RIGHT));
    deliver(&mut table, grant(1, LEFT));
    deliver(&mut table, refusal(1, RIGHT));
    assert_eq!(state(&table, 1), PhilosopherState::Thinking);
    assert_exclusive(&table);
}

#[test]
fn a_message_to_an_actor_that_does_not_exist_is_dropped() {
    let chopsticks = vec![Chopstick::new()];
    let philosophers = vec![Philosopher::new("Cato", 0, 5)];
    let mut table = Table::new(chopsticks, philosophers);
    deliver(&mut table, think(0));
    deliver(&mut table, eat(0));
    assert_eq!(table.pending(), &vec![take(0, 0, LEFT), take(5, 0, RIGHT)]);
    deliver(&mut table, take(5, 0, RIGHT));
    assert_eq!(table.pending(), &vec![take(0, 0, LEFT)]);
    assert_eq!(busy(&table), vec![false]);
    assert_eq!(state(&table, 0), PhilosopherState::Hungry);
}

#[test]
fn one_philosopher_with_two_free_chopsticks_eats_and_frees_them() {
    let chopsticks = vec![Chopstick::new(), Chopstick::new()];
    let philosophers = vec![Philosopher::new("Zeno", 0, 1)];
    let mut table = Table::new(chopsticks, philosophers);
    deliver(&mut table, think(0));
    assert_eq!(state(&table, 0), PhilosopherState::Thinking);

    deliver(&mut table, eat(0));
    assert_eq!(state(&table, 0), PhilosopherState::Hungry);
    deliver(&mut table, take(0, 0, LEFT));
    deliver(&mut table, take(1, 0, RIGHT));
    assert_eq!(busy(&table), vec![true, true]);
    assert_eq!(table.pending(), &vec![grant(0, LEFT), grant(0, RIGHT)]);

    deliver(&mut table, grant(0, LEFT));
    assert_eq!(state(&table, 0), PhilosopherState::WaitingForOtherChopstick(LEFT));
    deliver(&mut table, grant(0, RIGHT));
    assert_eq!(state(&table, 0), PhilosopherState::Eating);
    assert_eq!(table.pending(), &vec![think(0)]);
    assert_exclusive(&table);

    deliver(&mut table, think(0));
    assert_eq!(state(&table, 0), PhilosopherState::Thinking);
    assert_eq!(table.pending(), &vec![put(0), put(1), eat(0)]);
    deliver(&mut table, put(0));
    deliver(&mut table, put(1));
    assert_eq!(busy(&table), vec![false, false]);
    assert_eq!(table.pending(), &vec![eat(0)]);
}

/// One philosopher whose left chopstick someone who is not at the table has
/// taken, about to ask for both.
fn left_taken() -> Table {
    let mut left = Chopstick::new();
    left.handle(ChopstickAction::Take(99, LEFT), &mut Context::new(0));
    assert!(left.is_busy());
    let mut table = Table::new(vec![left, Chopstick::new()], vec![Philosopher::new("Zeno", 0, 1)]);
    deliver(&mut table, think(0));
    deliver(&mut table, eat(0));
    deliver(&mut table, take(0, 0, LEFT));
    deliver(&mut table, take(1, 0, RIGHT));
    assert_eq!(table.pending(), &vec![refusal(0, LEFT), grant(0, RIGHT)]);
    assert_eq!(busy(&table), vec![true, true]);
    table
}

#[test]
fn refusal_first_then_grant_gives_the_free_chopstick_back() {
    let mut table = left_taken();
    deliver(&mut table, refusal(0, LEFT));
    assert_eq!(state(&table, 0), PhilosopherState::FirstChopStickDenied);
    deliver(&mut table, grant(0, RIGHT));
    assert_eq!(state(&table, 0), PhilosopherState::Thinking);
    assert_eq!(table.pending(), &vec![put(1), eat(0)]);
    deliver(&mut table, put(1));
    assert_eq!(busy(&table), vec![true, false]);
    assert_exclusive(&table);
}

#[test]
fn grant_first_then_refusal_gives_the_free_chopstick_back() {
    let mut table = left_taken();
    deliver(&mut table, grant(0, RIGHT));
    assert_eq!(state(&table, 0), PhilosopherState::WaitingForOtherChopstick(RIGHT));
    deliver(&mut table, refusal(0, LEFT));
    assert_eq!(state(&table, 0), PhilosopherState::Thinking);
    assert_eq!(table.pending(), &vec![put(1), eat(0)]);
    deliver(&mut table, put(1));
    assert_eq!(busy(&table), vec![true, false]);
    assert_exclusive(&table);
}

#[test]
fn of_two_hungry_neighbours_the_first_to_be_served_eats_first() {
    for first in [0, 1] {
        let second = 1 - first;
        let mut table = two_hungry();
        deliver(&mut table, eat(first));
        deliver(&mut table, eat(second));
        let (left, right) = (first, second);
        deliver(&mut table, take(left, first, LEFT));
        deliver(&mut table, take(right, first, RIGHT));
        deliver(&mut table, take(right, second, LEFT));
        deliver(&mut table, take(left, second, RIGHT));
        deliver(&mut table, grant(first, LEFT));
        deliver(&mut table, grant(first, RIGHT));
        deliver(&mut table, refusal(second, LEFT));
        deliver(&mut table, refusal(second, RIGHT));
        assert_eq!(state(&table, first), PhilosopherState::Eating);
        assert_eq!(state(&table, second), PhilosopherState::Thinking);
        assert_exclusive(&table);

        deliver(&mut table, think(first));
        deliver(&mut table, put(0));
        deliver(&mut table, put(1));
        assert_eq!(busy(&table), vec![false, false]);

        deliver(&mut table, eat(second));
        deliver(&mut table, take(right, second, LEFT));
        deliver(&mut table, take(left, second, RIGHT));
        deliver(&mut table, grant(second, LEFT));
        deliver(&mut table, grant(second, RIGHT));
        assert_eq!(state(&table, second), PhilosopherState::Eating);
        assert_eq!(state(&table, first), PhilosopherState::Thinking);
        assert_exclusive(&table);
    }
}

#[test]
fn two_neighbours_that_each_get_one_chopstick_both_let_go() {
    let mut table = two_hungry();
    deliver(&mut table, eat(0));
    deliver(&mut table, eat(1));
    deliver(&mut table, take(0, 0, LEFT));
    deliver(&mut table, take(1, 1, LEFT));
    deliver(&mut table, take(1, 0, RIGHT));
    deliver(&mut table, take(0, 1, RIGHT));
    deliver(&mut table, grant(0, LEFT));
    deliver(&mut table, grant(1, LEFT));
    assert_eq!(state(&table, 0), PhilosopherState::WaitingForOtherChopstick(LEFT));
    assert_eq!(state(&table, 1), PhilosopherState::WaitingForOtherChopstick(LEFT));
    assert_eq!(busy(&table), vec![true, true]);
    assert_exclusive(&table);

    deliver(&mut table, refusal(0, RIGHT));
    deliver(&mut table, refusal(1, RIGHT));
    assert_eq!(state(&table, 0), PhilosopherState::Thinking);
    assert_eq!(state(&table, 1), PhilosopherState::Thinking);
    deliver(&mut table, put(0));
    deliver(&mut table, put(1));
    assert_eq!(busy(&table), vec![false, false]);

    deliver(&mut table, eat(1));
    deliver(&mut table, take(1, 1, LEFT));
    deliver(&mut table, take(0, 1, RIGHT));
    deliver(&mut table, grant(1, LEFT));
    deliver(&mut table, grant(1, RIGHT));
    assert_eq!(state(&table, 1), PhilosopherState::Eating);
    assert_exclusive(&table);
}

/// Walks through every order in which the pending messages of `table` can be
/// delivered, `depth` deliveries deep, and checks each table on the way.
fn walk(table: &Table, depth: usize, check: &dyn Fn(&Table)) {
    check(table);
    if depth == 0 {
        return;
    }
    let mut tried: Vec<Envelope> = Vec::new();
    for (i, envelope) in table.pending().iter().enumerate() {
        if tried.contains(envelope) {
            continue;
        }
        tried.push(*envelope);
        let mut next = table.clone();
        assert!(next.deliver(i));
        walk(&next, depth - 1, check);
    }
}

/// A philosopher in the middle of an attempt has a request or an answer
/// under way, so it cannot be stuck.
fn assert_not_stuck(table: &Table) {
    for (p, philosopher) in table.philosophers().iter().enumerate() {
        let trying = matches!(
            philosopher.state,
            PhilosopherState::Hungry
                | PhilosopherState::WaitingForOtherChopstick(_)
                | PhilosopherState::FirstChopStickDenied
        );
        let under_way = table.pending().iter().any(|envelope| match envelope {
            Envelope::ToChopstick { command: ChopstickAction::Take(from, _), .. } => *from == p,
            Envelope::ToPhilosopher { to, .. } => *to == p,
            _ => false,
        });
        assert_eq!(trying, under_way, "{:?}", table);
    }
}

#[test]
fn no_schedule_of_two_neighbours_puts_a_chopstick_in_two_hands() {
    walk(&two_hungry(), 12, &|table| {
        assert_exclusive(table);
        assert_not_stuck(table);
    });
}

#[test]
fn no_schedule_of_a_ring_of_three_puts_a_chopstick_in_two_hands() {
    walk(&ring(3), 9, &|table| {
        assert_exclusive(table);
        assert_not_stuck(table);
    });
}

#[test]
fn a_busy_chopstick_is_held_granted_or_about_to_be_freed() {
    walk(&two_hungry(), 11, &|table| {
        for (c, chopstick) in table.chopsticks().iter().enumerate() {
            let mut claims = 0;
            for (p, philosopher) in table.philosophers().iter().enumerate() {
                for (side, at) in [(LEFT, philosopher.left), (RIGHT, philosopher.right)] {
                    if at == c && holds(table, p, side) {
                        claims += 1;
                    }
                    if at == c && table.pending().contains(&grant(p, side)) {
                        claims += 1;
                    }
                }
            }
            let puts = table.pending().iter().filter(|envelope| **envelope == put(c)).count();
            assert_eq!(claims + puts, if chopstick.is_busy() { 1 } else { 0 }, "{:?}", table);
        }
    });
}

#[test]
fn from_every_table_of_two_neighbours_someone_can_get_to_eat() {
    walk(&two_hungry(), 8, &|table| {
        let mut table = table.clone();
        let mut eats = false;
        for _ in 0..40 {
            eats = (0..2).any(|p| state(&table, p) == PhilosopherState::Eating);
            if eats {
                break;
            }
            // The requests and answers of philosopher 0 first, then those of
            // philosopher 1, then the `Put`s, then a timer of philosopher 0.
            let pending = table.pending();
            let mine = |p: usize| {
                pending.iter().position(|envelope| match envelope {
                    Envelope::ToChopstick { command: ChopstickAction::Take(from, _), .. } => {
                        *from == p
                    },
                    Envelope::ToPhilosopher { to, .. } => *to == p,
                    _ => false,
                })
            };
            let a_put = pending.iter().position(|envelope| {
                matches!(envelope, Envelope::ToChopstick { command: ChopstickAction::Put, .. })
            });
            let a_timer = pending
                .iter()
                .position(|envelope| matches!(envelope, Envelope::Timer { to: 0, .. }));
            let next = mine(0).or(mine(1)).or(a_put).or(a_timer);
            match next {
                Some(i) => assert!(table.deliver(i)),
                None => panic!("nothing to deliver: {:?}", table),
            }
        }
        assert!(eats, "{:?}", table);
    });
}

/// Walks like `walk`, and lets each message also be lost and each philosopher
/// also be told to think or to eat at any moment.
fn walk_disturbed(table: &Table, depth: usize, check: &dyn Fn(&Table)) {
    check(table);
    if depth == 0 {
        return;
    }
    let mut tried: Vec<Envelope> = Vec::new();
    for (i, envelope) in table.pending().iter().enumerate() {
        if tried.contains(envelope) {
            continue;
        }
        tried.push(*envelope);
        let mut next = table.clone();
        assert!(next.deliver(i));
        walk_disturbed(&next, depth - 1, check);
        let mut next = table.clone();
        assert!(next.lose(i));
        walk_disturbed(&next, depth - 1, check);
    }
    for p in 0..table.philosophers().len() {
        for action in [Action::Think, Action::Eat] {
            let mut next = table.clone();
            assert!(next.tell(p, action));
            walk_disturbed(&next, depth - 1, check);
        }
    }
}

#[test]
fn no_loss_and_no_word_from_outside_puts_a_chopstick_in_two_hands() {
    walk_disturbed(&two_hungry(), 7, &assert_exclusive);
    walk_disturbed(&ring(3), 6, &assert_exclusive);
}
