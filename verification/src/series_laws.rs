//! Laws of the cascade: how fresh the stored entries are after an
//! update, and how the totals move.

use vstd::prelude::*;

use crate::counter_types::CounterState;
use crate::time_bucket::{
    align_of, bucket_data_wf, has_epoch, lemma_align, lemma_seq_insert_props, lemma_sum_nonneg,
    seq_insert, sum_counts,
};
use crate::time_series::{
    add_all, bucket_cap, caps_ok, epochs_le, lemma_series_add_props, lemma_series_trim_identity,
    lemma_series_sum_nonneg, lemma_too_old_len_bound, pop_count, series_add, series_shift,
    series_sum, series_trim, series_update, series_wf, state_too_old, too_old_len, BucketModel,
};

verus! {

/// Every stored entry is younger than its bucket's cutoff plus the
/// bucket's alignment slack: aligning an accepted state down to the
/// interval can age it by at most `interval - 1` minutes.
pub open spec fn ages_within(bs: Seq<BucketModel>, now: u64) -> bool {
    forall|i: int, k: int|
        0 <= i < bs.len() && 0 <= k < bs[i].data.len() ==> now - (
        #[trigger] bs[i].data[k]).epoch_minutes <= bs[i].cutoff_minutes + bs[i].interval_minutes - 1
}

/// The first entry a bucket keeps is young enough for its cutoff.
pub proof fn lemma_too_old_len_first_ok(data: Seq<CounterState>, cutoff: u64, now: u64)
    ensures
        too_old_len(data, cutoff, now) < data.len() ==> !state_too_old(
            data[too_old_len(data, cutoff, now)],
            cutoff,
            now,
        ),
    decreases data.len(),
{
    if data.len() > 0 && state_too_old(data[0], cutoff, now) {
        lemma_too_old_len_first_ok(data.drop_first(), cutoff, now);
        lemma_too_old_len_bound(data.drop_first(), cutoff, now);
        let k = too_old_len(data, cutoff, now);
        assert(k == 1 + too_old_len(data.drop_first(), cutoff, now));
        if k < data.len() {
            assert(data[k] == data.drop_first()[k - 1]);
        }
    }
}

/// `add_all` keeps the series invariant, the epochs in the past, and
/// every bucket's resolution and cutoff.
pub proof fn lemma_add_all_props(bs: Seq<BucketModel>, states: Seq<CounterState>, now: u64)
    requires
        series_wf(bs),
        epochs_le(bs, now),
        forall|m: int| 0 <= m < states.len() ==> (#[trigger] states[m]).epoch_minutes <= now,
    ensures
        add_all(bs, states, now).len() == bs.len(),
        series_wf(add_all(bs, states, now)),
        epochs_le(add_all(bs, states, now), now),
        forall|j: int|
            0 <= j < bs.len() ==> (#[trigger] add_all(bs, states, now)[j]).interval_minutes
                == bs[j].interval_minutes && add_all(bs, states, now)[j].cutoff_minutes
                == bs[j].cutoff_minutes,
    decreases states.len(),
{
    if states.len() > 0 {
        lemma_series_add_props(bs, states[0], now);
        lemma_add_all_props(series_add(bs, states[0], now), states.drop_first(), now);
    }
}

/// Adding one state keeps every entry within its bucket's cutoff plus
/// alignment slack.
pub proof fn lemma_series_add_ages(bs: Seq<BucketModel>, s: CounterState, now: u64)
    requires
        series_wf(bs),
        epochs_le(bs, now),
        s.epoch_minutes <= now,
        ages_within(bs, now),
    ensures
        ages_within(series_add(bs, s, now), now),
    decreases bs.len(),
{
    if bs.len() == 0 {
    } else {
        let r = series_add(bs, s, now);
        let rest = bs.drop_first();
        if state_too_old(s, bs[0].cutoff_minutes, now) {
            assert(series_wf(rest));
            assert(epochs_le(rest, now));
            assert(ages_within(rest, now)) by {
                assert(forall|i: int, k: int|
                    0 <= i < rest.len() && 0 <= k < rest[i].data.len() ==> rest[i].data[k]
                        == bs[i + 1].data[k]);
            }
            lemma_series_add_ages(rest, s, now);
            let rr = series_add(rest, s, now);
            assert(r =~= seq![bs[0]] + rr);
            assert forall|i: int, k: int|
                0 <= i < r.len() && 0 <= k < r[i].data.len() implies now - (
            #[trigger] r[i].data[k]).epoch_minutes <= r[i].cutoff_minutes + r[i].interval_minutes
                - 1 by {
                if i > 0 {
                    assert(r[i] == rr[i - 1]);
                }
            }
        } else {
            let nd = seq_insert(bs[0].data, bs[0].interval_minutes, s);
            lemma_seq_insert_props(bs[0].data, bs[0].interval_minutes, s);
            lemma_align(s.epoch_minutes, bs[0].interval_minutes);
            assert(r[0].data == nd);
            assert forall|i: int, k: int|
                0 <= i < r.len() && 0 <= k < r[i].data.len() implies now - (
            #[trigger] r[i].data[k]).epoch_minutes <= r[i].cutoff_minutes + r[i].interval_minutes
                - 1 by {
                if i == 0 {
                    if nd[k].epoch_minutes == align_of(s.epoch_minutes, bs[0].interval_minutes) {
                        assert(now - s.epoch_minutes <= bs[0].cutoff_minutes);
                        assert(s.epoch_minutes < align_of(s.epoch_minutes, bs[0].interval_minutes)
                            + bs[0].interval_minutes);
                    } else {
                        assert(has_epoch(bs[0].data, nd[k].epoch_minutes));
                        let j = choose|j: int|
                            0 <= j < bs[0].data.len() && bs[0].data[j].epoch_minutes
                                == nd[k].epoch_minutes;
                        assert(now - bs[0].data[j].epoch_minutes <= bs[0].cutoff_minutes + bs[0].interval_minutes - 1);
                    }
                } else {
                    assert(r[i] == bs[i]);
                    assert(now - bs[i].data[k].epoch_minutes <= bs[i].cutoff_minutes + bs[i].interval_minutes - 1);
                }
            }
        }
    }
}

/// Adding a run of states keeps every entry within its bucket's cutoff
/// plus alignment slack.
pub proof fn lemma_add_all_ages(bs: Seq<BucketModel>, states: Seq<CounterState>, now: u64)
    requires
        series_wf(bs),
        epochs_le(bs, now),
        forall|m: int| 0 <= m < states.len() ==> (#[trigger] states[m]).epoch_minutes <= now,
        ages_within(bs, now),
    ensures
        ages_within(add_all(bs, states, now), now),
    decreases states.len(),
{
    if states.len() > 0 {
        lemma_series_add_props(bs, states[0], now);
        lemma_series_add_ages(bs, states[0], now);
        lemma_add_all_ages(series_add(bs, states[0], now), states.drop_first(), now);
    }
}

/// After a shift, every entry is within its bucket's cutoff plus the
/// alignment slack of cascading, and the series stays well-formed with
/// its resolutions and cutoffs unchanged.
pub proof fn lemma_series_shift_props(bs: Seq<BucketModel>, now: u64)
    requires
        series_wf(bs),
        epochs_le(bs, now),
    ensures
        series_shift(bs, now).len() == bs.len(),
        series_wf(series_shift(bs, now)),
        epochs_le(series_shift(bs, now), now),
        ages_within(series_shift(bs, now), now),
        forall|j: int|
            0 <= j < bs.len() ==> (#[trigger] series_shift(bs, now)[j]).interval_minutes
                == bs[j].interval_minutes && series_shift(bs, now)[j].cutoff_minutes
                == bs[j].cutoff_minutes,
    decreases bs.len(),
{
    if bs.len() == 0 {
    } else {
        let r = series_shift(bs, now);
        let data = bs[0].data;
        let cutoff = bs[0].cutoff_minutes;
        let k = too_old_len(data, cutoff, now);
        lemma_too_old_len_bound(data, cutoff, now);
        lemma_too_old_len_first_ok(data, cutoff, now);
        let popped = data.subrange(0, k);
        let kept = data.subrange(k, data.len() as int);
        let rest = bs.drop_first();
        assert(series_wf(rest));
        assert(epochs_le(rest, now));
        assert(forall|m: int| 0 <= m < popped.len() ==> (#[trigger] popped[m]).epoch_minutes <= now);
        lemma_add_all_props(rest, popped, now);
        let rest1 = add_all(rest, popped, now);
        lemma_series_shift_props(rest1, now);
        assert(r =~= seq![
            BucketModel {
                interval_minutes: bs[0].interval_minutes,
                cutoff_minutes: cutoff,
                data: kept,
            },
        ] + series_shift(rest1, now));
        // the kept entries are all young enough for the cutoff itself:
        // the first kept one is, and the rest are newer
        assert forall|j: int| 0 <= j < kept.len() implies now - (
        #[trigger] kept[j]).epoch_minutes <= cutoff by {
            assert(kept[j] == data[k + j]);
            if j > 0 || k < data.len() {
                assert(!state_too_old(data[k], cutoff, now));
                if j > 0 {
                    assert(data[k].epoch_minutes < data[k + j].epoch_minutes);
                }
            }
        }
        assert(bucket_data_wf(kept, bs[0].interval_minutes)) by {
            assert(forall|a: int| 0 <= a < kept.len() ==> (#[trigger] kept[a]) == data[k + a]);
        }
        assert forall|i: int, j: int| 0 <= i < j < r.len() implies (
        #[trigger] r[i]).cutoff_minutes <= (#[trigger] r[j]).cutoff_minutes by {
            if i > 0 {
                assert(r[i].cutoff_minutes == rest1[i - 1].cutoff_minutes == bs[i].cutoff_minutes);
            }
            assert(r[j].cutoff_minutes == rest1[j - 1].cutoff_minutes == bs[j].cutoff_minutes);
        }
        assert(series_wf(r));
        assert(epochs_le(r, now));
        assert(ages_within(r, now)) by {
            assert(forall|i: int, kk: int|
                1 <= i < r.len() && 0 <= kk < r[i].data.len() ==> r[i].data[kk]
                    == series_shift(rest1, now)[i - 1].data[kk]);
        }
    }
}

/// The trim pass keeps the series invariant, the epochs in the past,
/// every bucket's resolution and cutoff, and the age bounds; it leaves
/// every bucket within its capacity.
pub proof fn lemma_series_trim_props(bs: Seq<BucketModel>, now: u64, prev_cutoff: u64)
    requires
        series_wf(bs),
        epochs_le(bs, now),
        bs.len() > 0 ==> prev_cutoff <= bs[0].cutoff_minutes,
    ensures
        series_trim(bs, now, prev_cutoff).len() == bs.len(),
        series_wf(series_trim(bs, now, prev_cutoff)),
        epochs_le(series_trim(bs, now, prev_cutoff), now),
        caps_ok(series_trim(bs, now, prev_cutoff), prev_cutoff),
        ages_within(bs, now) ==> ages_within(series_trim(bs, now, prev_cutoff), now),
        forall|j: int|
            0 <= j < bs.len() ==> (#[trigger] series_trim(bs, now, prev_cutoff)[j]).interval_minutes
                == bs[j].interval_minutes && series_trim(bs, now, prev_cutoff)[j].cutoff_minutes
                == bs[j].cutoff_minutes,
    decreases bs.len(),
{
    if bs.len() == 0 {
    } else {
        let r = series_trim(bs, now, prev_cutoff);
        let data = bs[0].data;
        let cap = bucket_cap(bs[0], prev_cutoff);
        vstd::arithmetic::div_mod::lemma_div_pos_is_pos(
            bs[0].cutoff_minutes - prev_cutoff,
            bs[0].interval_minutes as int,
        );
        assert(cap >= 0);
        let k = pop_count(data.len() as int, cap);
        assert(0 <= k <= data.len());
        let popped = data.subrange(0, k);
        let kept = data.subrange(k, data.len() as int);
        assert(kept.len() <= cap);
        let rest = bs.drop_first();
        assert(series_wf(rest));
        assert(epochs_le(rest, now));
        assert(forall|m: int| 0 <= m < popped.len() ==> (#[trigger] popped[m]).epoch_minutes <= now);
        lemma_add_all_props(rest, popped, now);
        let rest1 = add_all(rest, popped, now);
        assert(rest1.len() > 0 ==> bs[0].cutoff_minutes <= rest1[0].cutoff_minutes);
        lemma_series_trim_props(rest1, now, bs[0].cutoff_minutes);
        let kb = BucketModel {
            interval_minutes: bs[0].interval_minutes,
            cutoff_minutes: bs[0].cutoff_minutes,
            data: kept,
        };
        assert(r =~= seq![kb] + series_trim(rest1, now, bs[0].cutoff_minutes));
        assert(bucket_data_wf(kept, bs[0].interval_minutes)) by {
            assert(forall|a: int| 0 <= a < kept.len() ==> (#[trigger] kept[a]) == data[k + a]);
        }
        assert forall|i: int, j: int| 0 <= i < j < r.len() implies (
        #[trigger] r[i]).cutoff_minutes <= (#[trigger] r[j]).cutoff_minutes by {
            if i > 0 {
                assert(r[i].cutoff_minutes == rest1[i - 1].cutoff_minutes == bs[i].cutoff_minutes);
            }
            assert(r[j].cutoff_minutes == rest1[j - 1].cutoff_minutes == bs[j].cutoff_minutes);
        }
        assert(series_wf(r));
        assert(epochs_le(r, now));
        assert(caps_ok(r, prev_cutoff)) by {
            assert(r.drop_first() =~= series_trim(rest1, now, bs[0].cutoff_minutes));
        }
        if ages_within(bs, now) {
            assert(ages_within(rest, now)) by {
                assert(forall|i: int, kk: int|
                    0 <= i < rest.len() && 0 <= kk < rest[i].data.len() ==> rest[i].data[kk]
                        == bs[i + 1].data[kk]);
            }
            lemma_add_all_ages(rest, popped, now);
            assert(ages_within(r, now)) by {
                assert(forall|a: int| 0 <= a < kept.len() ==> (#[trigger] kept[a]) == data[k + a]);
                assert(forall|i: int, kk: int|
                    1 <= i < r.len() && 0 <= kk < r[i].data.len() ==> r[i].data[kk]
                        == series_trim(rest1, now, bs[0].cutoff_minutes)[i - 1].data[kk]);
            }
        }
    }
}

/// Law, the capacity discipline: after an update at server minute
/// `now`, every bucket holds no more entries than its interval count,
/// the span it covers divided by its resolution — for the standard
/// series, 360, 216, 480, 552 and 480. An insert that would exceed a
/// bucket\'s capacity cascades the oldest aligned entry outward.
pub proof fn lemma_series_update_capacity(bs: Seq<BucketModel>, states: Seq<CounterState>, now: u64)
    requires
        series_wf(bs),
        epochs_le(bs, now),
        forall|m: int| 0 <= m < states.len() ==> (#[trigger] states[m]).epoch_minutes <= now,
    ensures
        caps_ok(series_update(bs, states, now), 0),
{
    lemma_series_shift_props(bs, now);
    lemma_add_all_props(series_shift(bs, now), states, now);
    lemma_series_trim_props(add_all(series_shift(bs, now), states, now), now, 0);
}

/// The total of the counts of the states young enough for the cutoff.
pub open spec fn counted_sum(states: Seq<CounterState>, cutoff: u64, now: u64) -> int
    decreases states.len(),
{
    if states.len() == 0 {
        0
    } else {
        (if !state_too_old(states[0], cutoff, now) {
            states[0].count as int
        } else {
            0
        }) + counted_sum(states.drop_first(), cutoff, now)
    }
}

/// When every state is young enough, the counted total is the whole
/// total.
pub proof fn lemma_counted_sum_all(states: Seq<CounterState>, cutoff: u64, now: u64)
    requires
        forall|m: int| 0 <= m < states.len() ==> !state_too_old(#[trigger] states[m], cutoff, now),
    ensures
        counted_sum(states, cutoff, now) == sum_counts(states),
    decreases states.len(),
{
    if states.len() > 0 {
        lemma_counted_sum_all(states.drop_first(), cutoff, now);
    }
}

/// The alignment slack an entry can still accumulate while cascading
/// through the buckets behind position `i` (exclusive of `i` itself at
/// `i + 1`): the sum of `interval - 1` over those buckets.
pub open spec fn tail_slack(bs: Seq<BucketModel>, i: int) -> int
    decreases bs.len() - i,
{
    if !(0 <= i < bs.len()) {
        0
    } else {
        (bs[i].interval_minutes - 1) + tail_slack(bs, i + 1)
    }
}

pub proof fn lemma_tail_slack_nonneg(bs: Seq<BucketModel>, i: int)
    requires
        series_wf(bs),
    ensures
        tail_slack(bs, i) >= 0,
    decreases bs.len() - i,
{
    if 0 <= i < bs.len() {
        lemma_tail_slack_nonneg(bs, i + 1);
    }
}

/// The slack only shrinks as an entry moves to coarser buckets.
pub proof fn lemma_tail_slack_mono(bs: Seq<BucketModel>, i: int, j: int)
    requires
        series_wf(bs),
        0 <= i <= j,
    ensures
        tail_slack(bs, i) >= tail_slack(bs, j),
    decreases j - i,
{
    if i < j {
        if i < bs.len() {
            assert(bs[i].interval_minutes >= 1);
            lemma_tail_slack_mono(bs, i + 1, j);
        } else {
            assert(j >= bs.len());
        }
    }
}

/// Slack is a function of the buckets' resolutions alone.
pub proof fn lemma_tail_slack_congruent(a: Seq<BucketModel>, b: Seq<BucketModel>, i: int)
    requires
        a.len() == b.len(),
        forall|j: int|
            0 <= j < a.len() ==> (#[trigger] a[j]).interval_minutes == (
            #[trigger] b[j]).interval_minutes,
    ensures
        tail_slack(a, i) == tail_slack(b, i),
    decreases a.len() - i,
{
    if 0 <= i < a.len() {
        lemma_tail_slack_congruent(a, b, i + 1);
    }
}

/// Dropping the first bucket shifts the slack index by one.
pub proof fn lemma_tail_slack_drop(bs: Seq<BucketModel>, i: int)
    requires
        0 <= i,
        bs.len() >= 1,
    ensures
        tail_slack(bs.drop_first(), i) == tail_slack(bs, i + 1),
    decreases bs.len() - i,
{
    assert(bs.drop_first().len() == bs.len() - 1);
    if i < bs.len() - 1 {
        assert(bs.drop_first()[i] == bs[i + 1]);
        lemma_tail_slack_drop(bs, i + 1);
    }
}

/// Deep freshness: every entry could still cascade to the coarsest
/// bucket without its alignment slack pushing it past the final
/// cutoff.
pub open spec fn deep_ok(bs: Seq<BucketModel>, now: u64) -> bool {
    forall|i: int, k: int|
        0 <= i < bs.len() && 0 <= k < bs[i].data.len() ==> now - (
        #[trigger] bs[i].data[k]).epoch_minutes + tail_slack(bs, i + 1) <= bs[bs.len()
            - 1].cutoff_minutes
}

/// Splitting a run splits its total.
pub proof fn lemma_sum_counts_split(data: Seq<CounterState>, k: int)
    requires
        0 <= k <= data.len(),
    ensures
        sum_counts(data) == sum_counts(data.subrange(0, k)) + sum_counts(
            data.subrange(k, data.len() as int),
        ),
    decreases k,
{
    if k == 0 {
        assert(data.subrange(0, 0) =~= Seq::<CounterState>::empty());
        assert(data.subrange(0, data.len() as int) =~= data);
    } else {
        lemma_sum_counts_split(data.drop_first(), k - 1);
        assert(data.drop_first().subrange(0, k - 1) =~= data.subrange(0, k).drop_first());
        assert(data.drop_first().subrange(k - 1, data.drop_first().len() as int) =~= data.subrange(
            k,
            data.len() as int,
        ));
        assert(data.subrange(0, k)[0] == data[0]);
        assert(sum_counts(data.subrange(0, k)) == data[0].count + sum_counts(
            data.subrange(0, k).drop_first(),
        ));
    }
}

/// Every entry after adding one state either keeps an epoch its bucket
/// already held or carries the state's epoch aligned to that bucket.
pub proof fn lemma_series_add_entries(bs: Seq<BucketModel>, s: CounterState, now: u64)
    requires
        series_wf(bs),
    ensures
        forall|j: int, k: int|
            0 <= j < series_add(bs, s, now).len() && 0 <= k < series_add(bs, s, now)[j].data.len()
                ==> has_epoch(bs[j].data, (#[trigger] series_add(bs, s, now)[j].data[k]).epoch_minutes)
                || series_add(bs, s, now)[j].data[k].epoch_minutes == align_of(
                s.epoch_minutes,
                bs[j].interval_minutes,
            ),
    decreases bs.len(),
{
    if bs.len() == 0 {
    } else {
        lemma_series_add_props_fields(bs, s, now);
        let r = series_add(bs, s, now);
        let rest = bs.drop_first();
        if state_too_old(s, bs[0].cutoff_minutes, now) {
            assert(series_wf(rest));
            lemma_series_add_entries(rest, s, now);
            lemma_series_add_props_fields(rest, s, now);
            let rr = series_add(rest, s, now);
            assert(r =~= seq![bs[0]] + rr);
            assert forall|j: int, k: int|
                0 <= j < r.len() && 0 <= k < r[j].data.len() implies has_epoch(
                bs[j].data,
                (#[trigger] r[j].data[k]).epoch_minutes,
            ) || r[j].data[k].epoch_minutes == align_of(s.epoch_minutes, bs[j].interval_minutes) by {
                if j == 0 {
                    assert(r[0].data[k] == bs[0].data[k]);
                } else {
                    assert(r[j].data == rr[j - 1].data);
                    assert(rest[j - 1] == bs[j]);
                }
            }
        } else {
            lemma_seq_insert_props(bs[0].data, bs[0].interval_minutes, s);
            assert forall|j: int, k: int|
                0 <= j < r.len() && 0 <= k < r[j].data.len() implies has_epoch(
                bs[j].data,
                (#[trigger] r[j].data[k]).epoch_minutes,
            ) || r[j].data[k].epoch_minutes == align_of(s.epoch_minutes, bs[j].interval_minutes) by {
                if j > 0 {
                    assert(r[j] == bs[j]);
                }
            }
        }
    }
}

/// Adding a state that is deep-fresh keeps the whole series deep-fresh.
pub proof fn lemma_series_add_deep(bs: Seq<BucketModel>, s: CounterState, now: u64)
    requires
        series_wf(bs),
        s.epoch_minutes <= now,
        deep_ok(bs, now),
        bs.len() > 0,
        now - s.epoch_minutes + tail_slack(bs, 0) <= bs[bs.len() - 1].cutoff_minutes,
    ensures
        deep_ok(series_add(bs, s, now), now),
{
    let r = series_add(bs, s, now);
    lemma_series_add_entries(bs, s, now);
    lemma_series_add_props_fields(bs, s, now);
    assert forall|i: int, k: int|
        0 <= i < r.len() && 0 <= k < r[i].data.len() implies now - (
    #[trigger] r[i].data[k]).epoch_minutes + tail_slack(r, i + 1) <= r[r.len()
        - 1].cutoff_minutes by {
        lemma_tail_slack_congruent(r, bs, i + 1);
        assert(r[r.len() - 1].cutoff_minutes == bs[bs.len() - 1].cutoff_minutes);
        if r[i].data[k].epoch_minutes == align_of(s.epoch_minutes, bs[i].interval_minutes)
            && !has_epoch(bs[i].data, r[i].data[k].epoch_minutes) {
            lemma_align(s.epoch_minutes, bs[i].interval_minutes);
            // aligned down by less than the bucket's own interval,
            // which the slack before this bucket accounts for
            lemma_tail_slack_mono(bs, 0, i);
            assert(tail_slack(bs, i) == (bs[i].interval_minutes - 1) + tail_slack(bs, i + 1));
        } else {
            let j = choose|j: int|
                0 <= j < bs[i].data.len() && bs[i].data[j].epoch_minutes
                    == r[i].data[k].epoch_minutes;
            assert(now - bs[i].data[j].epoch_minutes + tail_slack(bs, i + 1) <= bs[bs.len()
                - 1].cutoff_minutes);
        }
    }
}

/// Resolutions and cutoffs never change; only data does. (A shape fact
/// usable without the full well-formedness premises.)
pub proof fn lemma_series_add_props_fields(bs: Seq<BucketModel>, s: CounterState, now: u64)
    ensures
        series_add(bs, s, now).len() == bs.len(),
        forall|j: int|
            0 <= j < bs.len() ==> (#[trigger] series_add(bs, s, now)[j]).interval_minutes
                == bs[j].interval_minutes && series_add(bs, s, now)[j].cutoff_minutes
                == bs[j].cutoff_minutes,
    decreases bs.len(),
{
    if bs.len() > 0 && state_too_old(s, bs[0].cutoff_minutes, now) {
        lemma_series_add_props_fields(bs.drop_first(), s, now);
        let r = series_add(bs, s, now);
        let rr = series_add(bs.drop_first(), s, now);
        assert(forall|j: int| 1 <= j < r.len() ==> (#[trigger] r[j]) == rr[j - 1]);
    }
}

/// Adding a run of deep-fresh states keeps the series deep-fresh, and
/// adds exactly the counts of the states young enough for the final
/// cutoff.
pub proof fn lemma_add_all_deep_sum(bs: Seq<BucketModel>, states: Seq<CounterState>, now: u64)
    requires
        series_wf(bs),
        epochs_le(bs, now),
        bs.len() > 0,
        deep_ok(bs, now),
        forall|m: int| 0 <= m < states.len() ==> (#[trigger] states[m]).epoch_minutes <= now,
        forall|m: int|
            0 <= m < states.len() ==> now - (#[trigger] states[m]).epoch_minutes + tail_slack(
                bs,
                0,
            ) <= bs[bs.len() - 1].cutoff_minutes,
        series_sum(bs) + sum_counts(states) <= u64::MAX,
    ensures
        deep_ok(add_all(bs, states, now), now),
        series_sum(add_all(bs, states, now)) == series_sum(bs) + counted_sum(
            states,
            bs[bs.len() - 1].cutoff_minutes,
            now,
        ),
    decreases states.len(),
{
    lemma_series_sum_nonneg(bs);
    lemma_sum_nonneg(states);
    if states.len() > 0 {
        let s = states[0];
        let bs1 = series_add(bs, s, now);
        lemma_series_add_props(bs, s, now);
        lemma_series_add_deep(bs, s, now);
        lemma_sum_nonneg(states.drop_first());
        assert(sum_counts(states) == s.count + sum_counts(states.drop_first()));
        assert(series_sum(bs) + s.count <= u64::MAX);
        if state_too_old(s, bs[bs.len() - 1].cutoff_minutes, now) {
            assert(series_add(bs, s, now) == bs);
        } else {
            assert(series_sum(bs1) == series_sum(bs) + s.count);
        }
        lemma_tail_slack_congruent(bs1, bs, 0);
        assert(forall|m: int|
            0 <= m < states.drop_first().len() ==> (#[trigger] states.drop_first()[m])
                == states[m + 1]);
        lemma_add_all_deep_sum(bs1, states.drop_first(), now);
        assert(bs1[bs1.len() - 1].cutoff_minutes == bs[bs.len() - 1].cutoff_minutes);
    }
}

/// Shifting loses nothing while every entry is deep-fresh: totals move
/// between buckets but their sum stands.
pub proof fn lemma_series_shift_sum(bs: Seq<BucketModel>, now: u64)
    requires
        series_wf(bs),
        epochs_le(bs, now),
        deep_ok(bs, now),
        series_sum(bs) <= u64::MAX,
    ensures
        series_sum(series_shift(bs, now)) == series_sum(bs),
        deep_ok(series_shift(bs, now), now),
    decreases bs.len(),
{
    if bs.len() == 0 {
    } else {
        let r = series_shift(bs, now);
        let data = bs[0].data;
        let cutoff = bs[0].cutoff_minutes;
        let k = too_old_len(data, cutoff, now);
        lemma_too_old_len_bound(data, cutoff, now);
        let popped = data.subrange(0, k);
        let kept = data.subrange(k, data.len() as int);
        let rest = bs.drop_first();
        lemma_sum_counts_split(data, k);
        lemma_sum_nonneg(popped);
        lemma_sum_nonneg(kept);
        lemma_series_sum_nonneg(rest);
        assert(series_sum(bs) == sum_counts(data) + series_sum(rest));
        let kb = BucketModel {
            interval_minutes: bs[0].interval_minutes,
            cutoff_minutes: cutoff,
            data: kept,
        };
        if bs.len() == 1 {
            // a single bucket pops nothing: its slack is zero, so deep
            // freshness is freshness for its own cutoff
            assert(tail_slack(bs, 1) == 0);
            if data.len() > 0 {
                assert(now - data[0].epoch_minutes + tail_slack(bs, 1) <= bs[0].cutoff_minutes);
                assert(!state_too_old(data[0], cutoff, now));
            }
            assert(k == 0);
            assert(popped =~= Seq::<CounterState>::empty());
            assert(kept =~= data);
            assert(add_all(rest, popped, now) == rest);
            assert(r =~= seq![kb] + series_shift(rest, now));
            assert(series_shift(rest, now) =~= rest);
            assert(r.drop_first() =~= rest);
            assert(series_sum(r) == sum_counts(kept) + series_sum(r.drop_first()));
            assert(deep_ok(r, now)) by {
                lemma_tail_slack_congruent(r, bs, 1);
                assert(forall|kk: int| 0 <= kk < kept.len() ==> kept[kk] == data[kk]);
            }
        } else {
            assert(series_wf(rest));
            assert(epochs_le(rest, now));
            assert(rest[rest.len() - 1] == bs[bs.len() - 1]);
            // the popped entries are deep-fresh for the rest
            assert(deep_ok(rest, now)) by {
                assert forall|i: int, kk: int|
                    0 <= i < rest.len() && 0 <= kk < rest[i].data.len() implies now - (
                #[trigger] rest[i].data[kk]).epoch_minutes + tail_slack(rest, i + 1) <= rest[rest.len()
                    - 1].cutoff_minutes by {
                    assert(rest[i].data[kk] == bs[i + 1].data[kk]);
                    lemma_tail_slack_drop(bs, i + 1);
                }
            }
            assert(forall|m: int|
                0 <= m < popped.len() ==> (#[trigger] popped[m]) == data[m]);
            assert forall|m: int|
                0 <= m < popped.len() implies now - (#[trigger] popped[m]).epoch_minutes
                + tail_slack(rest, 0) <= rest[rest.len() - 1].cutoff_minutes by {
                lemma_tail_slack_drop(bs, 0);
                assert(now - data[m].epoch_minutes + tail_slack(bs, 1) <= bs[bs.len()
                    - 1].cutoff_minutes);
            }
            assert(forall|m: int| 0 <= m < popped.len() ==> (#[trigger] popped[m]).epoch_minutes <= now);
            assert(series_sum(rest) + sum_counts(popped) <= u64::MAX);
            lemma_add_all_deep_sum(rest, popped, now);
            let rest1 = add_all(rest, popped, now);
            lemma_add_all_props(rest, popped, now);
            // popped entries are young enough for the final cutoff, so
            // every one of them lands
            assert(counted_sum(popped, rest[rest.len() - 1].cutoff_minutes, now) == sum_counts(
                popped,
            )) by {
                lemma_tail_slack_nonneg(rest, 0);
                assert forall|m: int| 0 <= m < popped.len() implies !state_too_old(
                    #[trigger] popped[m],
                    rest[rest.len() - 1].cutoff_minutes,
                    now,
                ) by {
                    assert(now - popped[m].epoch_minutes + tail_slack(rest, 0) <= rest[rest.len()
                        - 1].cutoff_minutes);
                }
                lemma_counted_sum_all(popped, rest[rest.len() - 1].cutoff_minutes, now);
            }
            assert(series_sum(rest1) == series_sum(rest) + sum_counts(popped));
            lemma_series_shift_sum(rest1, now);
            assert(r =~= seq![kb] + series_shift(rest1, now));
            assert(r.drop_first() =~= series_shift(rest1, now));
            assert(series_sum(r) == sum_counts(kept) + series_sum(r.drop_first()));
            // deep freshness of the result
            crate::series_laws::lemma_series_shift_props(rest1, now);
            assert(deep_ok(r, now)) by {
                assert forall|i: int, kk: int|
                    0 <= i < r.len() && 0 <= kk < r[i].data.len() implies now - (
                #[trigger] r[i].data[kk]).epoch_minutes + tail_slack(r, i + 1) <= r[r.len()
                    - 1].cutoff_minutes by {
                    lemma_tail_slack_congruent(r.drop_first(), series_shift(rest1, now), 0);
                    lemma_tail_slack_drop(r, i);
                    lemma_tail_slack_drop(r, 0);
                    if i == 0 {
                        assert(kept[kk] == data[k + kk]);
                        assert(now - data[k + kk].epoch_minutes + tail_slack(bs, 1) <= bs[bs.len()
                            - 1].cutoff_minutes);
                        lemma_tail_slack_congruent(series_shift(rest1, now), rest, 0);
                        lemma_tail_slack_drop(bs, 0);
                        assert(r[r.len() - 1].cutoff_minutes == series_shift(rest1, now)[r.len()
                            - 2].cutoff_minutes);
                        assert(series_shift(rest1, now)[r.len() - 2].cutoff_minutes
                            == rest1[r.len() - 2].cutoff_minutes);
                        assert(rest1[r.len() - 2].cutoff_minutes == rest[r.len()
                            - 2].cutoff_minutes);
                    } else {
                        assert(r[i].data[kk] == series_shift(rest1, now)[i - 1].data[kk]);
                        assert(now - series_shift(rest1, now)[i - 1].data[kk].epoch_minutes
                            + tail_slack(series_shift(rest1, now), i) <= series_shift(rest1, now)[
                        series_shift(rest1, now).len() - 1].cutoff_minutes);
                        lemma_tail_slack_drop(r, i);
                        lemma_tail_slack_congruent(r.drop_first(), series_shift(rest1, now), i);
                        assert(r[r.len() - 1] == series_shift(rest1, now)[series_shift(
                            rest1,
                            now,
                        ).len() - 1]);
                    }
                }
            }
        }
    }
}

/// Law: an update changes the cascade's total by exactly the counts of
/// the incoming states young enough for the coarsest bucket's cutoff.
/// Entries already held must be deep-fresh — young enough that the
/// alignment slack of cascading cannot push them past the final
/// cutoff; an entry within that slack of the final cutoff may age out
/// during the shift and be dropped. And no bucket may end the update
/// beyond its capacity: an entry the capacity discipline pops from the
/// coarsest bucket is dropped too.
pub proof fn lemma_series_update_sum(bs: Seq<BucketModel>, states: Seq<CounterState>, now: u64)
    requires
        series_wf(bs),
        epochs_le(bs, now),
        bs.len() > 0,
        deep_ok(bs, now),
        forall|m: int| 0 <= m < states.len() ==> (#[trigger] states[m]).epoch_minutes <= now,
        series_sum(bs) + sum_counts(states) <= u64::MAX,
        caps_ok(add_all(series_shift(bs, now), states, now), 0),
    ensures
        series_sum(series_update(bs, states, now)) == series_sum(bs) + counted_sum(
            states,
            bs[bs.len() - 1].cutoff_minutes,
            now,
        ),
{
    lemma_sum_nonneg(states);
    lemma_series_sum_nonneg(bs);
    lemma_series_shift_sum(bs, now);
    lemma_series_shift_props(bs, now);
    let shifted = series_shift(bs, now);
    assert(shifted[shifted.len() - 1].cutoff_minutes == bs[bs.len() - 1].cutoff_minutes);
    lemma_add_all_sum_plain(shifted, states, now);
    lemma_series_trim_identity(add_all(shifted, states, now), now, 0);
}

/// Adding a run of states adds exactly the counts of those young
/// enough for the final cutoff, whether or not they are deep-fresh:
/// no shift follows within the same update.
pub proof fn lemma_add_all_sum_plain(bs: Seq<BucketModel>, states: Seq<CounterState>, now: u64)
    requires
        series_wf(bs),
        epochs_le(bs, now),
        bs.len() > 0,
        forall|m: int| 0 <= m < states.len() ==> (#[trigger] states[m]).epoch_minutes <= now,
        series_sum(bs) + sum_counts(states) <= u64::MAX,
    ensures
        series_sum(add_all(bs, states, now)) == series_sum(bs) + counted_sum(
            states,
            bs[bs.len() - 1].cutoff_minutes,
            now,
        ),
    decreases states.len(),
{
    lemma_series_sum_nonneg(bs);
    lemma_sum_nonneg(states);
    if states.len() > 0 {
        let s = states[0];
        let bs1 = series_add(bs, s, now);
        lemma_series_add_props(bs, s, now);
        lemma_sum_nonneg(states.drop_first());
        assert(sum_counts(states) == s.count + sum_counts(states.drop_first()));
        assert(series_sum(bs) + s.count <= u64::MAX);
        if state_too_old(s, bs[bs.len() - 1].cutoff_minutes, now) {
            assert(series_add(bs, s, now) == bs);
        } else {
            assert(series_sum(bs1) == series_sum(bs) + s.count);
        }
        lemma_add_all_sum_plain(bs1, states.drop_first(), now);
        assert(bs1[bs1.len() - 1].cutoff_minutes == bs[bs.len() - 1].cutoff_minutes);
    }
}

/// Law: immediately after an update at server minute `now`, every
/// entry of every bucket is younger than the bucket's cutoff plus its
/// alignment slack; in the finest bucket, whose interval is one
/// minute, no entry is older than the cutoff itself.
pub proof fn lemma_series_update_ages(bs: Seq<BucketModel>, states: Seq<CounterState>, now: u64)
    requires
        series_wf(bs),
        epochs_le(bs, now),
        forall|m: int| 0 <= m < states.len() ==> (#[trigger] states[m]).epoch_minutes <= now,
    ensures
        ages_within(series_update(bs, states, now), now),
{
    lemma_series_shift_props(bs, now);
    lemma_add_all_ages(series_shift(bs, now), states, now);
    lemma_add_all_props(series_shift(bs, now), states, now);
    lemma_series_trim_props(add_all(series_shift(bs, now), states, now), now, 0);
}

} // verus!
