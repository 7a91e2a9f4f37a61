use counter_pipeline::counter::{is_power_of_two, CounterPublishState};
use counter_pipeline::counter_types::CounterState;
use counter_pipeline::logger::Publisher;

#[test]
fn power_of_two_check() {
    assert!(is_power_of_two(1));
    assert!(is_power_of_two(2));
    assert!(is_power_of_two(4));
    assert!(is_power_of_two(1024));
    assert!(is_power_of_two(1 << 63));
    assert!(!is_power_of_two(0));
    assert!(!is_power_of_two(3));
    assert!(!is_power_of_two(6));
    assert!(!is_power_of_two(7));
    assert!(!is_power_of_two(u64::MAX));
}

#[test]
fn publishes_at_powers_of_two() {
    // five increments of one counter within minute 100: the update is
    // published at counts 1, 2 and 4, and only then
    let mut state = CounterPublishState::new();

    let first = state.record("x".to_string(), 100).expect("count 1 publishes");
    assert_eq!(first.counter, "x");
    assert_eq!(first.state, vec![CounterState { epoch_minutes: 100, count: 1 }]);

    let second = state.record("x".to_string(), 100).expect("count 2 publishes");
    assert_eq!(second.state, vec![CounterState { epoch_minutes: 100, count: 2 }]);

    assert!(state.record("x".to_string(), 100).is_none());

    let fourth = state.record("x".to_string(), 100).expect("count 4 publishes");
    assert_eq!(fourth.counter, "x");
    assert_eq!(fourth.state, vec![CounterState { epoch_minutes: 100, count: 4 }]);

    assert!(state.record("x".to_string(), 100).is_none());
}

#[test]
fn publishes_on_minute_roll_over() {
    // three increments in minute 100 publish at counts 1 and 2; the
    // first increment of minute 101 carries minute 100's final total
    let mut state = CounterPublishState::new();

    assert!(state.record("x".to_string(), 100).is_some());
    assert!(state.record("x".to_string(), 100).is_some());
    assert!(state.record("x".to_string(), 100).is_none());

    let rolled = state.record("x".to_string(), 101).expect("roll-over publishes");
    assert_eq!(rolled.counter, "x");
    assert_eq!(
        rolled.state,
        vec![
            CounterState { epoch_minutes: 100, count: 3 },
            CounterState { epoch_minutes: 101, count: 1 },
        ]
    );
}

#[test]
fn distinct_counters_do_not_mix() {
    let mut state = CounterPublishState::new();

    assert!(state.record("a".to_string(), 50).is_some());
    assert!(state.record("b".to_string(), 50).is_some());
    // "b" is at count 1, so "a" going to 2 still publishes its own total
    let a2 = state.record("a".to_string(), 50).expect("count 2 publishes");
    assert_eq!(a2.counter, "a");
    assert_eq!(a2.state, vec![CounterState { epoch_minutes: 50, count: 2 }]);
}

#[test]
fn send_queues_decided_updates() {
    // the trait path stamps increments with the real clock; whatever
    // the minute, the first increment of a fresh name publishes
    let mut state: CounterPublishState = Publisher::<String>::new();
    assert_eq!(state.send("hits".to_string()), Ok(()));
    assert_eq!(state.send("hits".to_string()), Ok(()));
    assert_eq!(state.send("hits".to_string()), Ok(()));
    let out = state.take_outbox();
    assert!(!out.is_empty());
    assert!(out.len() <= 3);
    assert_eq!(out[0].counter, "hits");
    assert_eq!(out[0].state.last().map(|s| s.count), Some(1));
    let out2 = state.take_outbox();
    assert!(out2.is_empty());
}
