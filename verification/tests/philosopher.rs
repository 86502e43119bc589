use dinning_philosophers::philosopher::{EATING_MILLIS, RETRY_MILLIS, THINKING_MILLIS};
use dinning_philosophers::{
    Action, ChopstickAction, ChopstickPosition, ChopstickState, Context, Effect, Handler,
    Philosopher, PhilosopherState,
};

const LEFT: ChopstickPosition = ChopstickPosition::Left;
const RIGHT: ChopstickPosition = ChopstickPosition::Right;

/// A philosopher between chopsticks 3 and 4, brought into `state`.
fn philosopher_in(state: PhilosopherState) -> Philosopher {
    let mut philosopher = Philosopher::new("Zeno", 3, 4);
    philosopher.state = state;
    philosopher
}

/// What the philosopher at address 9 asks for when it handles `msg`.
fn on_action(philosopher: &mut Philosopher, msg: Action) -> Vec<Effect> {
    let mut ctx = Context::new(9);
    philosopher.handle(msg, &mut ctx);
    assert_eq!(ctx.address, 9);
    ctx.outbox
}

/// What the philosopher at address 9 asks for when it handles `msg`.
fn on_answer(philosopher: &mut Philosopher, msg: ChopstickState) -> Vec<Effect> {
    let mut ctx = Context::new(9);
    philosopher.handle(msg, &mut ctx);
    assert_eq!(ctx.address, 9);
    ctx.outbox
}

fn put(to: usize) -> Effect {
    Effect::ToChopstick { to, command: ChopstickAction::Put }
}

fn later(action: Action, millis: u64) -> Effect {
    Effect::Later { action, millis }
}

fn all_states() -> Vec<PhilosopherState> {
    vec![
        PhilosopherState::Waiting,
        PhilosopherState::Eating,
        PhilosopherState::Thinking,
        PhilosopherState::Hungry,
        PhilosopherState::WaitingForOtherChopstick(LEFT),
        PhilosopherState::WaitingForOtherChopstick(RIGHT),
        PhilosopherState::FirstChopStickDenied,
    ]
}

#[test]
fn the_delays_are_five_seconds_two_seconds_and_ten_milliseconds() {
    assert_eq!(THINKING_MILLIS, 5000);
    assert_eq!(EATING_MILLIS, 2000);
    assert_eq!(RETRY_MILLIS, 10);
}

#[test]
fn new_philosopher_waits_between_its_chopsticks() {
    let philosopher = Philosopher::new("Seneca", 1, 2);
    assert_eq!(philosopher.name, "Seneca");
    assert_eq!(philosopher.state, PhilosopherState::Waiting);
    assert_eq!(philosopher.left, 1);
    assert_eq!(philosopher.right, 2);
}

#[test]
fn think_starts_a_waiting_philosopher() {
    let mut philosopher = Philosopher::new("Cato", 3, 4);
    let sent = on_action(&mut philosopher, Action::Think);
    assert_eq!(philosopher.state, PhilosopherState::Thinking);
    assert_eq!(sent, vec![later(Action::Eat, 5000)]);
}

#[test]
fn eat_makes_a_thinking_philosopher_ask_for_both_chopsticks() {
    let mut philosopher = philosopher_in(PhilosopherState::Thinking);
    let sent = on_action(&mut philosopher, Action::Eat);
    assert_eq!(philosopher.state, PhilosopherState::Hungry);
    assert_eq!(
        sent,
        vec![
            Effect::ToChopstick { to: 3, command: ChopstickAction::Take(9, LEFT) },
            Effect::ToChopstick { to: 4, command: ChopstickAction::Take(9, RIGHT) },
        ]
    );
}

#[test]
fn eat_is_ignored_by_a_philosopher_that_does_not_think() {
    for state in all_states() {
        if state == PhilosopherState::Thinking {
            continue;
        }
        let mut philosopher = philosopher_in(state);
        let sent = on_action(&mut philosopher, Action::Eat);
        assert_eq!(philosopher.state, state);
        assert!(sent.is_empty());
    }
}

#[test]
fn think_ends_a_meal_and_lays_both_chopsticks_down() {
    let mut philosopher = philosopher_in(PhilosopherState::Eating);
    let sent = on_action(&mut philosopher, Action::Think);
    assert_eq!(philosopher.state, PhilosopherState::Thinking);
    assert_eq!(sent, vec![put(3), put(4), later(Action::Eat, 5000)]);
}

#[test]
fn think_makes_any_philosopher_think() {
    for state in all_states() {
        if state == PhilosopherState::Eating {
            continue;
        }
        let mut philosopher = philosopher_in(state);
        let sent = on_action(&mut philosopher, Action::Think);
        assert_eq!(philosopher.state, PhilosopherState::Thinking);
        assert_eq!(sent, vec![later(Action::Eat, 5000)]);
    }
}

#[test]
fn first_grant_is_remembered_by_its_side() {
    for side in [LEFT, RIGHT] {
        let mut philosopher = philosopher_in(PhilosopherState::Hungry);
        let sent = on_answer(&mut philosopher, ChopstickState::ChopstickAvailable(side));
        assert_eq!(philosopher.state, PhilosopherState::WaitingForOtherChopstick(side));
        assert!(sent.is_empty());
    }
}

#[test]
fn first_refusal_is_remembered() {
    for side in [LEFT, RIGHT] {
        let mut philosopher = philosopher_in(PhilosopherState::Hungry);
        let sent = on_answer(&mut philosopher, ChopstickState::ChopstickUnAvailable(side));
        assert_eq!(philosopher.state, PhilosopherState::FirstChopStickDenied);
        assert!(sent.is_empty());
    }
}

#[test]
fn second_grant_starts_the_meal() {
    let mut philosopher = philosopher_in(PhilosopherState::WaitingForOtherChopstick(LEFT));
    let sent = on_answer(&mut philosopher, ChopstickState::ChopstickAvailable(RIGHT));
    assert_eq!(philosopher.state, PhilosopherState::Eating);
    assert_eq!(sent, vec![later(Action::Think, 2000)]);
}

#[test]
fn refusal_of_the_right_chopstick_lays_the_left_one_down() {
    let mut philosopher = philosopher_in(PhilosopherState::WaitingForOtherChopstick(LEFT));
    let sent = on_answer(&mut philosopher, ChopstickState::ChopstickUnAvailable(RIGHT));
    assert_eq!(philosopher.state, PhilosopherState::Thinking);
    assert_eq!(sent, vec![put(3), later(Action::Eat, 10)]);
}

#[test]
fn refusal_of_the_left_chopstick_lays_the_right_one_down() {
    let mut philosopher = philosopher_in(PhilosopherState::WaitingForOtherChopstick(RIGHT));
    let sent = on_answer(&mut philosopher, ChopstickState::ChopstickUnAvailable(LEFT));
    assert_eq!(philosopher.state, PhilosopherState::Thinking);
    assert_eq!(sent, vec![put(4), later(Action::Eat, 10)]);
}

#[test]
fn grant_after_a_refusal_is_given_back_at_once() {
    let mut philosopher = philosopher_in(PhilosopherState::FirstChopStickDenied);
    let sent = on_answer(&mut philosopher, ChopstickState::ChopstickAvailable(LEFT));
    assert_eq!(philosopher.state, PhilosopherState::Thinking);
    assert_eq!(sent, vec![put(3), later(Action::Eat, 10)]);

    let mut philosopher = philosopher_in(PhilosopherState::FirstChopStickDenied);
    let sent = on_answer(&mut philosopher, ChopstickState::ChopstickAvailable(RIGHT));
    assert_eq!(philosopher.state, PhilosopherState::Thinking);
    assert_eq!(sent, vec![put(4), later(Action::Eat, 10)]);
}

#[test]
fn two_refusals_send_the_philosopher_back_to_thinking() {
    let mut philosopher = philosopher_in(PhilosopherState::FirstChopStickDenied);
    let sent = on_answer(&mut philosopher, ChopstickState::ChopstickUnAvailable(RIGHT));
    assert_eq!(philosopher.state, PhilosopherState::Thinking);
    assert_eq!(sent, vec![later(Action::Eat, 10)]);
}

#[test]
fn answers_are_ignored_by_a_philosopher_that_asked_for_nothing() {
    for state in [PhilosopherState::Waiting, PhilosopherState::Thinking, PhilosopherState::Eating] {
        for answer in [
            ChopstickState::ChopstickAvailable(LEFT),
            ChopstickState::ChopstickAvailable(RIGHT),
            ChopstickState::ChopstickUnAvailable(LEFT),
            ChopstickState::ChopstickUnAvailable(RIGHT),
        ] {
            let mut philosopher = philosopher_in(state);
            let sent = on_answer(&mut philosopher, answer);
            assert_eq!(philosopher.state, state);
            assert!(sent.is_empty());
        }
    }
}

#[test]
fn handlers_leave_name_and_seats_alone() {
    for state in all_states() {
        for action in [Action::Think, Action::Eat] {
            let mut philosopher = philosopher_in(state);
            on_action(&mut philosopher, action);
            assert_eq!(philosopher.name, "Zeno");
            assert_eq!((philosopher.left, philosopher.right), (3, 4));
        }
        for answer in [
            ChopstickState::ChopstickAvailable(LEFT),
            ChopstickState::ChopstickUnAvailable(RIGHT),
        ] {
            let mut philosopher = philosopher_in(state);
            on_answer(&mut philosopher, answer);
            assert_eq!(philosopher.name, "Zeno");
            assert_eq!((philosopher.left, philosopher.right), (3, 4));
        }
    }
}

#[test]
fn a_philosopher_never_stays_with_one_chopstick() {
    for held in [LEFT, RIGHT] {
        for answer in [
            ChopstickState::ChopstickAvailable(LEFT),
            ChopstickState::ChopstickAvailable(RIGHT),
            ChopstickState::ChopstickUnAvailable(LEFT),
            ChopstickState::ChopstickUnAvailable(RIGHT),
        ] {
            let mut philosopher = philosopher_in(PhilosopherState::WaitingForOtherChopstick(held));
            on_answer(&mut philosopher, answer);
            assert!(matches!(
                philosopher.state,
                PhilosopherState::Eating | PhilosopherState::Thinking
            ));
        }
    }
}

#[test]
fn context_keeps_its_address_and_collects_in_order() {
    let mut ctx = Context::new(5);
    assert_eq!(ctx.address(), 5);
    assert!(ctx.outbox.is_empty());
    ctx.notify_later(Action::Think, 7);
    ctx.send_to_chopstick(2, ChopstickAction::Put);
    ctx.send_to_philosopher(1, ChopstickState::ChopstickAvailable(RIGHT));
    assert_eq!(ctx.address(), 5);
    assert_eq!(
        ctx.outbox,
        vec![
            later(Action::Think, 7),
            put(2),
            Effect::ToPhilosopher { to: 1, state: ChopstickState::ChopstickAvailable(RIGHT) },
        ]
    );
}
