use std::collections::VecDeque;

use counter_pipeline::counter_types::CounterState;
use counter_pipeline::time_bucket::{add_to_bucket, TimeBucket};
use counter_pipeline::time_series::{
    add_to_series, create_time_series, shift_time_series, update_time_series,
};

#[test]
fn time_series_creation() {
    let ts = create_time_series();
    assert_eq!(ts.len(), 5);
    assert_eq!(ts[0].interval_minutes, 1);
    assert_eq!(ts[1].interval_minutes, 5);
    assert_eq!(ts[2].interval_minutes, 15);
    assert_eq!(ts[3].interval_minutes, 60);
    assert_eq!(ts[4].interval_minutes, 3 * 60);

    assert_eq!(ts[0].cutoff_minutes, 6 * 60);
    assert_eq!(ts[1].cutoff_minutes, (6 * 60) + (18 * 60));
    assert_eq!(ts[2].cutoff_minutes, (6 * 60) + (18 * 60) + (5 * 24 * 60));
    assert_eq!(
        ts[3].cutoff_minutes,
        (6 * 60) + (18 * 60) + (5 * 24 * 60) + (23 * 24 * 60)
    );
    assert_eq!(
        ts[4].cutoff_minutes,
        (6 * 60) + (18 * 60) + (5 * 24 * 60) + (23 * 24 * 60) + (3 * 60 * 8 * 60)
    );

    assert_eq!(ts[0].data.capacity(), 6 * 60);
    assert_eq!(ts[1].data.capacity(), 18 * 12);
    assert_eq!(ts[2].data.capacity(), 5 * 24 * 4);
    assert_eq!(ts[3].data.capacity(), 23 * 24);
    assert_eq!(ts[4].data.capacity(), 60 * 8);
}

#[test]
fn add_to_empty_1min_bucket() {
    let mut bucket = TimeBucket {
        interval_minutes: 1,
        cutoff_minutes: 6 * 60,
        data: VecDeque::with_capacity(6 * 60),
    };

    let counter_state = CounterState {
        epoch_minutes: 5,
        count: 3,
    };

    add_to_bucket(&mut bucket, counter_state, 6);

    assert_eq!(bucket.data.len(), 1);
    assert_eq!(bucket.data[0].epoch_minutes, 5);
    assert_eq!(bucket.data[0].count, 3);
}

#[test]
fn add_to_empty_1min_bucket_multiple() {
    let mut bucket = TimeBucket {
        interval_minutes: 1,
        cutoff_minutes: 6 * 60,
        data: VecDeque::with_capacity(6 * 60),
    };

    let counter_state = CounterState {
        epoch_minutes: 1,
        count: 1,
    };

    add_to_bucket(&mut bucket, counter_state, 1);

    assert_eq!(bucket.data.len(), 1);
    assert_eq!(bucket.data[0].epoch_minutes, 1);
    assert_eq!(bucket.data[0].count, 1);

    let counter_state = CounterState {
        epoch_minutes: 4,
        count: 1,
    };

    add_to_bucket(&mut bucket, counter_state, 4);

    // oldest first: minute 1 in front of minute 4
    assert_eq!(bucket.data.len(), 2);
    assert_eq!(bucket.data[0].epoch_minutes, 1);
    assert_eq!(bucket.data[0].count, 1);
    assert_eq!(bucket.data[1].epoch_minutes, 4);
    assert_eq!(bucket.data[1].count, 1);

    let counter_state = CounterState {
        epoch_minutes: 1,
        count: 1,
    };

    add_to_bucket(&mut bucket, counter_state, 4);

    assert_eq!(bucket.data.len(), 2);
    assert_eq!(bucket.data[0].epoch_minutes, 1);
    assert_eq!(bucket.data[0].count, 2);
    assert_eq!(bucket.data[1].epoch_minutes, 4);
    assert_eq!(bucket.data[1].count, 1);
}

#[test]
fn add_to_empty_3minute_bucket_multiple() {
    let mut bucket = TimeBucket {
        interval_minutes: 3,
        cutoff_minutes: 6 * 60,
        data: VecDeque::with_capacity(6 * 60 / 3),
    };

    let counter_state = CounterState {
        epoch_minutes: 1,
        count: 1,
    };

    add_to_bucket(&mut bucket, counter_state, 1);

    assert_eq!(bucket.data.len(), 1);
    // 1 min in the 3 min bucket goes into the 0-2 min interval
    assert_eq!(bucket.data[0].epoch_minutes, 0);
    assert_eq!(bucket.data[0].count, 1);

    let counter_state = CounterState {
        epoch_minutes: 4,
        count: 1,
    };

    add_to_bucket(&mut bucket, counter_state, 4);

    assert_eq!(bucket.data.len(), 2);
    assert_eq!(bucket.data[0].epoch_minutes, 0);
    assert_eq!(bucket.data[0].count, 1);
    assert_eq!(bucket.data[1].epoch_minutes, 3);
    assert_eq!(bucket.data[1].count, 1);

    let counter_state = CounterState {
        epoch_minutes: 1,
        count: 1,
    };

    add_to_bucket(&mut bucket, counter_state, 4);

    assert_eq!(bucket.data.len(), 2);
    assert_eq!(bucket.data[0].epoch_minutes, 0);
    assert_eq!(bucket.data[0].count, 2);
    assert_eq!(bucket.data[1].epoch_minutes, 3);
    assert_eq!(bucket.data[1].count, 1);

    let counter_state = CounterState {
        epoch_minutes: 5,
        count: 7,
    };

    add_to_bucket(&mut bucket, counter_state, 5);

    assert_eq!(bucket.data.len(), 2);
    assert_eq!(bucket.data[0].epoch_minutes, 0);
    assert_eq!(bucket.data[0].count, 2);
    assert_eq!(bucket.data[1].epoch_minutes, 3);
    assert_eq!(bucket.data[1].count, 8);
}

#[test]
fn add_to_0len_series() {
    let mut series = Vec::new();
    let counter_state = CounterState {
        epoch_minutes: 1,
        count: 1,
    };

    add_to_series(&mut series, counter_state, 1);

    assert_eq!(series.len(), 0);
}

#[test]
fn add_to_standard_series() {
    let mut series = create_time_series();
    let counter_state = CounterState {
        epoch_minutes: 1,
        count: 1,
    };

    add_to_series(&mut series, counter_state, 1);

    assert_eq!(series[0].data.len(), 1);
    assert_eq!(series[0].data[0].epoch_minutes, 1);
    assert_eq!(series[0].data[0].count, 1);
}

#[test]
fn add_to_standard_series_multiple_first_bucket() {
    let mut series = create_time_series();
    let counter_state = CounterState {
        epoch_minutes: 1,
        count: 1,
    };

    add_to_series(&mut series, counter_state, 1);

    assert_eq!(series[0].data.len(), 1);
    assert_eq!(series[0].data[0].epoch_minutes, 1);
    assert_eq!(series[0].data[0].count, 1);

    let counter_state = CounterState {
        epoch_minutes: 2,
        count: 1,
    };

    add_to_series(&mut series, counter_state, 2);

    assert_eq!(series[0].data.len(), 2);
    assert_eq!(series[0].data[0].epoch_minutes, 1);
    assert_eq!(series[0].data[0].count, 1);
    assert_eq!(series[0].data[1].epoch_minutes, 2);
    assert_eq!(series[0].data[1].count, 1);
}

#[test]
fn add_to_standard_series_multiple_multiple_buckets() {
    const START_POINT: u64 = 18 * 60;

    let mut series = create_time_series();
    let counter_state = CounterState {
        epoch_minutes: START_POINT,
        count: 1,
    };

    add_to_series(&mut series, counter_state, START_POINT);

    assert_eq!(series[0].data.len(), 1);
    assert_eq!(series[0].data[0].epoch_minutes, START_POINT);
    assert_eq!(series[0].data[0].count, 1);
    assert!(series[1..].iter().all(|bucket| bucket.data.is_empty()));

    let counter_state = CounterState {
        epoch_minutes: START_POINT + 1,
        count: 2,
    };

    add_to_series(&mut series, counter_state, START_POINT + 1);

    assert_eq!(series[0].data.len(), 2);
    assert_eq!(series[0].data[0].epoch_minutes, START_POINT);
    assert_eq!(series[0].data[0].count, 1);
    assert_eq!(series[0].data[1].epoch_minutes, START_POINT + 1);
    assert_eq!(series[0].data[1].count, 2);
    assert!(series[1..].iter().all(|bucket| bucket.data.is_empty()));

    let counter_state = CounterState {
        epoch_minutes: 0, // Much older than the first bucket
        count: 5,
    };

    add_to_series(&mut series, counter_state, START_POINT + 1);

    assert_eq!(series[0].data.len(), 2);
    assert_eq!(series[0].data[0].epoch_minutes, START_POINT);
    assert_eq!(series[0].data[0].count, 1);
    assert_eq!(series[0].data[1].epoch_minutes, START_POINT + 1);
    assert_eq!(series[0].data[1].count, 2);
    assert_eq!(series[1].data.len(), 1);
    assert_eq!(series[1].data[0].epoch_minutes, 0);
    assert_eq!(series[1].data[0].count, 5);
    assert!(series[2..].iter().all(|bucket| bucket.data.is_empty()));
}

#[test]
fn add_to_standard_series_past_final_cutoff() {
    let mut series = create_time_series();
    let start_point = series[4].cutoff_minutes + 100;
    let counter_state = CounterState {
        epoch_minutes: 10,
        count: 1,
    };

    add_to_series(&mut series, counter_state, start_point);

    assert!(series.iter().all(|bucket| bucket.data.is_empty()));
}

#[test]
fn shift_time_series_no_shift() {
    const START_POINT: u64 = 18 * 60;

    let mut series = create_time_series();
    let counter_state = CounterState {
        epoch_minutes: 10,
        count: 2,
    };

    add_to_series(&mut series, counter_state, START_POINT);

    let counter_state = CounterState {
        epoch_minutes: 11,
        count: 3,
    };

    add_to_series(&mut series, counter_state, START_POINT + 1);

    let pre_shift = series.clone();

    shift_time_series(&mut series, START_POINT);

    assert_eq!(series, pre_shift);
}

#[test]
fn shift_time_series_shift_multiple_to_one() {
    const START_POINT: u64 = 18 * 60;

    let mut series = create_time_series();
    let counter_state = CounterState {
        epoch_minutes: 10,
        count: 2,
    };

    add_to_series(&mut series, counter_state, START_POINT);

    let counter_state = CounterState {
        epoch_minutes: 11,
        count: 3,
    };

    add_to_series(&mut series, counter_state, START_POINT + 1);

    assert_eq!(series[0].data.len(), 0);
    assert_eq!(series[1].data.len(), 1);
    assert_eq!(
        series[2..].iter().all(|bucket| bucket.data.is_empty()),
        true
    );

    let pre_shift = series.clone();

    // One day later
    shift_time_series(&mut series, START_POINT + (60 * 24));

    assert_ne!(series, pre_shift);
    assert_eq!(series[0].data.len(), 0);
    assert_eq!(series[1].data.len(), 0);
    assert_eq!(series[2].data.len(), 1);
    assert_eq!(series[2].data[0].epoch_minutes, 0);
    assert_eq!(series[2].data[0].count, 5);
    assert!(series[3..].iter().all(|bucket| bucket.data.is_empty()));
}

#[test]
fn shift_time_series_shift_multiple_to_multiple() {
    const START_POINT: u64 = 18 * 60;

    let mut series = create_time_series();
    let counter_state = CounterState {
        epoch_minutes: 10,
        count: 2,
    };

    add_to_series(&mut series, counter_state, START_POINT);

    let counter_state = CounterState {
        epoch_minutes: START_POINT - 10,
        count: 3,
    };

    add_to_series(&mut series, counter_state, START_POINT);

    assert_eq!(series[0].data.len(), 1);
    assert_eq!(series[1].data.len(), 1);
    assert_eq!(series[2..].iter().all(|bucket| bucket.data.is_empty()), true);

    let pre_shift = series.clone();

    // 18 hours later
    shift_time_series(&mut series, START_POINT + (60 * 18));

    assert_ne!(series, pre_shift);
    assert_eq!(series[0].data.len(), 0);
    assert_eq!(series[1].data.len(), 1);
    assert_eq!(series[1].data[0].epoch_minutes, 1070);
    assert_eq!(series[1].data[0].count, 3);
    assert_eq!(series[2].data.len(), 1);
    assert_eq!(series[2].data[0].epoch_minutes, 0);
    assert_eq!(series[2].data[0].count, 2);
    assert_eq!(series[3..].iter().all(|bucket| bucket.data.is_empty()), true);
}

#[test]
fn update_preserves_totals_of_fresh_samples() {
    // the cascade's total grows by exactly the counts of the accepted
    // samples, wherever they land
    let mut series = create_time_series();
    update_time_series(
        &mut series,
        vec![
            CounterState { epoch_minutes: 1070, count: 3 },
            CounterState { epoch_minutes: 10, count: 2 },
            CounterState { epoch_minutes: 1080, count: 4 },
        ],
        1080,
    );
    let total: u64 = series
        .iter()
        .flat_map(|bucket| bucket.data.iter())
        .map(|state| state.count)
        .sum();
    assert_eq!(total, 9);

    // much later, the samples have cascaded outward but their total
    // still stands
    update_time_series(&mut series, Vec::new(), 100_000);
    let total: u64 = series
        .iter()
        .flat_map(|bucket| bucket.data.iter())
        .map(|state| state.count)
        .sum();
    assert_eq!(total, 9);
}

#[test]
fn entries_past_the_final_cutoff_age_out() {
    let mut series = create_time_series();
    update_time_series(
        &mut series,
        vec![CounterState { epoch_minutes: 10, count: 5 }],
        50,
    );
    let last_cutoff = series[4].cutoff_minutes;
    update_time_series(&mut series, Vec::new(), last_cutoff + 100);
    assert!(series.iter().all(|bucket| bucket.data.is_empty()));
}

#[test]
fn update_keeps_entries_near_their_cutoffs() {
    // after an update, nothing is older than its bucket's cutoff plus
    // the bucket's alignment slack
    let mut series = create_time_series();
    update_time_series(
        &mut series,
        vec![
            CounterState { epoch_minutes: 100, count: 1 },
            CounterState { epoch_minutes: 2000, count: 1 },
        ],
        2000,
    );
    update_time_series(&mut series, Vec::new(), 40_000);
    for bucket in series.iter() {
        for state in bucket.data.iter() {
            assert!(40_000 - state.epoch_minutes <= bucket.cutoff_minutes + bucket.interval_minutes - 1);
        }
    }
}

#[test]
fn steady_traffic_stays_within_bucket_capacity() {
    // one sample per minute for 361 minutes: ages 0..=360 all fit the
    // finest bucket's cutoff, but its interval count is 360, so the
    // oldest entry cascades into the 5-minute bucket instead
    let mut series = create_time_series();
    for m in 0..=360u64 {
        update_time_series(
            &mut series,
            vec![CounterState { epoch_minutes: m, count: 1 }],
            m,
        );
        assert!(series[0].data.len() <= 360);
    }
    assert_eq!(series[0].data.len(), 360);
    assert_eq!(series[0].data[0].epoch_minutes, 1);
    assert_eq!(series[1].data.len(), 1);
    assert_eq!(series[1].data[0].epoch_minutes, 0);
    assert_eq!(series[1].data[0].count, 1);
    let total: u64 = series
        .iter()
        .flat_map(|bucket| bucket.data.iter())
        .map(|state| state.count)
        .sum();
    assert_eq!(total, 361);
}

#[test]
fn update_applies_shift_then_adds() {
    const START_POINT: u64 = 18 * 60;

    let mut series = create_time_series();
    update_time_series(
        &mut series,
        vec![
            CounterState { epoch_minutes: 10, count: 2 },
            CounterState { epoch_minutes: 11, count: 3 },
        ],
        START_POINT,
    );

    // both land in the 5-minute bucket and merge into the 10..15 slot
    assert_eq!(series[0].data.len(), 0);
    assert_eq!(series[1].data.len(), 1);
    assert_eq!(series[1].data[0].epoch_minutes, 10);
    assert_eq!(series[1].data[0].count, 5);
}
