//! The five-bucket cascade: adding samples to the finest bucket that
//! still covers them, and shifting aged intervals outward into coarser
//! buckets.

use vstd::prelude::*;

use crate::counter_types::CounterState;
use crate::time_bucket::{
    add_to_bucket, bucket_data_wf, seq_insert, sum_counts, lemma_seq_insert_props,
    lemma_sum_nonneg, lemma_align, align_of, has_epoch, TimeBucket,
};
use std::collections::VecDeque;

verus! {

/// The mathematical image of one bucket.
pub struct BucketModel {
    pub interval_minutes: u64,
    pub cutoff_minutes: u64,
    pub data: Seq<CounterState>,
}

impl View for TimeBucket {
    type V = BucketModel;

    open spec fn view(&self) -> BucketModel {
        BucketModel {
            interval_minutes: self.interval_minutes,
            cutoff_minutes: self.cutoff_minutes,
            data: self.data@,
        }
    }
}

/// The mathematical image of a whole series, newest resolution first.
pub open spec fn models(ts: Seq<TimeBucket>) -> Seq<BucketModel> {
    Seq::new(ts.len(), |i: int| ts[i]@)
}

/// Every bucket holds aligned, strictly increasing epochs, and the
/// cutoffs grow from the finest bucket to the coarsest.
pub open spec fn series_wf(bs: Seq<BucketModel>) -> bool {
    &&& forall|i: int|
        0 <= i < bs.len() ==> (#[trigger] bs[i]).interval_minutes >= 1 && bucket_data_wf(
            bs[i].data,
            bs[i].interval_minutes,
        )
    &&& forall|i: int, j: int|
        0 <= i < j < bs.len() ==> (#[trigger] bs[i]).cutoff_minutes <= (
        #[trigger] bs[j]).cutoff_minutes
}

/// No stored epoch lies in the future of `now`.
pub open spec fn epochs_le(bs: Seq<BucketModel>, now: u64) -> bool {
    forall|i: int, k: int|
        0 <= i < bs.len() && 0 <= k < bs[i].data.len() ==> (#[trigger] bs[i].data[k]).epoch_minutes
            <= now
}

/// Whether the state has aged past the given cutoff.
pub open spec fn state_too_old(e: CounterState, cutoff: u64, now: u64) -> bool {
    now - e.epoch_minutes > cutoff
}

/// The total of all counts held anywhere in the series.
pub open spec fn series_sum(bs: Seq<BucketModel>) -> int
    decreases bs.len(),
{
    if bs.len() == 0 {
        0
    } else {
        sum_counts(bs[0].data) + series_sum(bs.drop_first())
    }
}

pub proof fn lemma_series_sum_nonneg(bs: Seq<BucketModel>)
    ensures
        series_sum(bs) >= 0,
    decreases bs.len(),
{
    if bs.len() > 0 {
        lemma_sum_nonneg(bs[0].data);
        lemma_series_sum_nonneg(bs.drop_first());
    }
}

/// Each bucket's own total is at most the series total.
pub proof fn lemma_series_sum_element(bs: Seq<BucketModel>, i: int)
    requires
        0 <= i < bs.len(),
    ensures
        sum_counts(bs[i].data) <= series_sum(bs),
    decreases bs.len(),
{
    lemma_series_sum_nonneg(bs.drop_first());
    lemma_sum_nonneg(bs[0].data);
    if i > 0 {
        lemma_series_sum_element(bs.drop_first(), i - 1);
    }
}

/// What adding one state to the cascade yields: the state goes into
/// the first bucket whose cutoff still covers its age; if every bucket
/// is too fine, it is dropped.
pub open spec fn series_add(bs: Seq<BucketModel>, s: CounterState, now: u64) -> Seq<BucketModel>
    decreases bs.len(),
{
    if bs.len() == 0 {
        bs
    } else if state_too_old(s, bs[0].cutoff_minutes, now) {
        seq![bs[0]] + series_add(bs.drop_first(), s, now)
    } else {
        seq![
            BucketModel {
                interval_minutes: bs[0].interval_minutes,
                cutoff_minutes: bs[0].cutoff_minutes,
                data: seq_insert(bs[0].data, bs[0].interval_minutes, s),
            },
        ] + bs.drop_first()
    }
}

/// What adding a run of states, oldest first, yields.
pub open spec fn add_all(bs: Seq<BucketModel>, states: Seq<CounterState>, now: u64) -> Seq<
    BucketModel,
>
    decreases states.len(),
{
    if states.len() == 0 {
        bs
    } else {
        add_all(series_add(bs, states[0], now), states.drop_first(), now)
    }
}

/// How many of the oldest entries of a bucket's run have aged past the
/// cutoff. The run is ordered oldest first, so these form a prefix.
pub open spec fn too_old_len(data: Seq<CounterState>, cutoff: u64, now: u64) -> int
    decreases data.len(),
{
    if data.len() == 0 {
        0
    } else if state_too_old(data[0], cutoff, now) {
        1 + too_old_len(data.drop_first(), cutoff, now)
    } else {
        0
    }
}

pub proof fn lemma_too_old_len_bound(data: Seq<CounterState>, cutoff: u64, now: u64)
    ensures
        0 <= too_old_len(data, cutoff, now) <= data.len(),
    decreases data.len(),
{
    if data.len() > 0 && state_too_old(data[0], cutoff, now) {
        lemma_too_old_len_bound(data.drop_first(), cutoff, now);
    }
}

/// `series_add` changes nothing but the data of the one bucket that
/// receives the state; it keeps the series invariant, keeps epochs in
/// the past, and adds exactly the state's count — or nothing, when the
/// state is too old even for the coarsest bucket.
pub proof fn lemma_series_add_props(bs: Seq<BucketModel>, s: CounterState, now: u64)
    requires
        series_wf(bs),
        epochs_le(bs, now),
        s.epoch_minutes <= now,
    ensures
        series_add(bs, s, now).len() == bs.len(),
        series_wf(series_add(bs, s, now)),
        epochs_le(series_add(bs, s, now), now),
        forall|j: int|
            0 <= j < bs.len() ==> (#[trigger] series_add(bs, s, now)[j]).interval_minutes == bs[j].interval_minutes
                && series_add(bs, s, now)[j].cutoff_minutes == bs[j].cutoff_minutes,
        bs.len() > 0 && !state_too_old(s, bs[bs.len() - 1].cutoff_minutes, now) ==> (sum_counts(
            bs[0].data,
        ) >= 0 && (series_sum(bs) + s.count <= u64::MAX ==> series_sum(series_add(bs, s, now))
            == series_sum(bs) + s.count)),
        bs.len() == 0 || state_too_old(s, bs[bs.len() - 1].cutoff_minutes, now) ==> series_add(
            bs,
            s,
            now,
        ) == bs,
    decreases bs.len(),
{
    lemma_series_sum_nonneg(bs);
    if bs.len() == 0 {
    } else {
        let r = series_add(bs, s, now);
        let rest = bs.drop_first();
        assert(series_wf(rest));
        assert(epochs_le(rest, now));
        lemma_sum_nonneg(bs[0].data);
        lemma_series_sum_nonneg(rest);
        if state_too_old(s, bs[0].cutoff_minutes, now) {
            lemma_series_add_props(rest, s, now);
            let rr = series_add(rest, s, now);
            assert(r =~= seq![bs[0]] + rr);
            assert(r.drop_first() =~= rr);
            assert(forall|j: int| 1 <= j < r.len() ==> r[j] == rr[j - 1]);
            assert(series_wf(r));
            assert(epochs_le(r, now));
            if bs.len() > 1 && !state_too_old(s, bs[bs.len() - 1].cutoff_minutes, now) {
                assert(rest[rest.len() - 1] == bs[bs.len() - 1]);
                if series_sum(bs) + s.count <= u64::MAX {
                    assert(series_sum(rest) + s.count <= u64::MAX);
                    assert(series_sum(r) == sum_counts(r[0].data) + series_sum(r.drop_first()));
                }
            }
            if bs.len() == 1 {
                assert(state_too_old(s, bs[0].cutoff_minutes, now));
                assert(r =~= bs);
            } else if state_too_old(s, bs[bs.len() - 1].cutoff_minutes, now) {
                assert(rr == rest);
                assert(r =~= bs);
            }
        } else {
            // the state lands in the first bucket
            assert(!state_too_old(s, bs[bs.len() - 1].cutoff_minutes, now)) by {
                assert(bs[0].cutoff_minutes <= bs[bs.len() - 1].cutoff_minutes);
            }
            lemma_seq_insert_props(bs[0].data, bs[0].interval_minutes, s);
            lemma_align(s.epoch_minutes, bs[0].interval_minutes);
            assert(r.drop_first() =~= rest);
            assert(forall|j: int| 1 <= j < r.len() ==> r[j] == bs[j]);
            let nd = seq_insert(bs[0].data, bs[0].interval_minutes, s);
            assert(bucket_data_wf(nd, bs[0].interval_minutes));
            assert(series_wf(r));
            // fresh entries carry the aligned epoch, which is not in the future
            assert forall|k: int| 0 <= k < nd.len() implies (#[trigger] nd[k]).epoch_minutes
                <= now by {
                if nd[k].epoch_minutes == align_of(s.epoch_minutes, bs[0].interval_minutes) {
                } else {
                    assert(has_epoch(bs[0].data, nd[k].epoch_minutes));
                    let j = choose|j: int|
                        0 <= j < bs[0].data.len() && bs[0].data[j].epoch_minutes
                            == nd[k].epoch_minutes;
                    assert(bs[0].data[j].epoch_minutes <= now);
                }
            }
            assert(epochs_le(r, now));
            if series_sum(bs) + s.count <= u64::MAX {
                assert(sum_counts(bs[0].data) + s.count <= u64::MAX);
                assert(sum_counts(nd) == sum_counts(bs[0].data) + s.count);
                assert(series_sum(r) == sum_counts(r[0].data) + series_sum(r.drop_first()));
                assert(series_sum(bs) == sum_counts(bs[0].data) + series_sum(rest));
            }
        }
    }
}

pub proof fn lemma_series_add_len(bs: Seq<BucketModel>, s: CounterState, now: u64)
    ensures
        series_add(bs, s, now).len() == bs.len(),
    decreases bs.len(),
{
    if bs.len() > 0 && state_too_old(s, bs[0].cutoff_minutes, now) {
        lemma_series_add_len(bs.drop_first(), s, now);
    }
}

pub proof fn lemma_add_all_len(bs: Seq<BucketModel>, states: Seq<CounterState>, now: u64)
    ensures
        add_all(bs, states, now).len() == bs.len(),
    decreases states.len(),
{
    if states.len() > 0 {
        lemma_series_add_len(bs, states[0], now);
        lemma_add_all_len(series_add(bs, states[0], now), states.drop_first(), now);
    }
}

pub proof fn lemma_series_sum_concat(a: Seq<BucketModel>, b: Seq<BucketModel>)
    ensures
        series_sum(a + b) == series_sum(a) + series_sum(b),
    decreases a.len(),
{
    if a.len() == 0 {
        assert(a + b =~= b);
    } else {
        lemma_series_sum_concat(a.drop_first(), b);
        assert((a + b).drop_first() =~= a.drop_first() + b);
        assert(sum_counts((a + b)[0].data) == sum_counts(a[0].data));
    }
}

/// What shifting the cascade at time `now` yields: bucket by bucket,
/// from the finest outward, the prefix of entries that have aged past
/// the bucket's cutoff is popped, and each popped entry is re-added to
/// the coarser sub-series behind it.
pub open spec fn series_shift(bs: Seq<BucketModel>, now: u64) -> Seq<BucketModel>
    decreases bs.len(),
    via series_shift_decreases
{
    if bs.len() == 0 {
        bs
    } else {
        let k = too_old_len(bs[0].data, bs[0].cutoff_minutes, now);
        let popped = bs[0].data.subrange(0, k);
        let kept = BucketModel {
            interval_minutes: bs[0].interval_minutes,
            cutoff_minutes: bs[0].cutoff_minutes,
            data: bs[0].data.subrange(k, bs[0].data.len() as int),
        };
        seq![kept] + series_shift(add_all(bs.drop_first(), popped, now), now)
    }
}

#[via_fn]
proof fn series_shift_decreases(bs: Seq<BucketModel>, now: u64) {
    if bs.len() > 0 {
        let k = too_old_len(bs[0].data, bs[0].cutoff_minutes, now);
        lemma_too_old_len_bound(bs[0].data, bs[0].cutoff_minutes, now);
        lemma_add_all_len(bs.drop_first(), bs[0].data.subrange(0, k), now);
    }
}

/// A bucket's capacity within the cascade: its interval count, derived
/// from the span it covers — the stretch from the previous bucket's
/// cutoff to its own, divided by its resolution. For the standard
/// series this gives 360, 216, 480, 552 and 480 entries.
pub open spec fn bucket_cap(b: BucketModel, prev_cutoff: u64) -> int
    recommends
        b.interval_minutes >= 1,
        prev_cutoff <= b.cutoff_minutes,
{
    (b.cutoff_minutes - prev_cutoff) / (b.interval_minutes as int)
}

/// How many of the oldest entries a bucket must shed to fit its
/// capacity.
pub open spec fn pop_count(len: int, cap: int) -> int {
    if cap <= 0 {
        len
    } else if len > cap {
        len - cap
    } else {
        0
    }
}

/// Every bucket holds no more entries than its capacity.
pub open spec fn caps_ok(bs: Seq<BucketModel>, prev_cutoff: u64) -> bool
    decreases bs.len(),
{
    if bs.len() == 0 {
        true
    } else {
        bs[0].data.len() <= bucket_cap(bs[0], prev_cutoff) && caps_ok(
            bs.drop_first(),
            bs[0].cutoff_minutes,
        )
    }
}

/// What enforcing the capacity discipline yields: bucket by bucket,
/// from the finest outward, the oldest entries beyond the bucket's
/// capacity are popped, and each popped entry is re-added to the
/// coarser sub-series behind it.
pub open spec fn series_trim(bs: Seq<BucketModel>, now: u64, prev_cutoff: u64) -> Seq<BucketModel>
    decreases bs.len(),
    via series_trim_decreases
{
    if bs.len() == 0 {
        bs
    } else {
        let k = pop_count(bs[0].data.len() as int, bucket_cap(bs[0], prev_cutoff));
        let popped = bs[0].data.subrange(0, k);
        let kept = BucketModel {
            interval_minutes: bs[0].interval_minutes,
            cutoff_minutes: bs[0].cutoff_minutes,
            data: bs[0].data.subrange(k, bs[0].data.len() as int),
        };
        seq![kept] + series_trim(add_all(bs.drop_first(), popped, now), now, bs[0].cutoff_minutes)
    }
}

#[via_fn]
proof fn series_trim_decreases(bs: Seq<BucketModel>, now: u64, prev_cutoff: u64) {
    if bs.len() > 0 {
        let k = pop_count(bs[0].data.len() as int, bucket_cap(bs[0], prev_cutoff));
        lemma_add_all_len(bs.drop_first(), bs[0].data.subrange(0, k), now);
    }
}

/// A series within its capacities is left alone by the trim.
pub proof fn lemma_series_trim_identity(bs: Seq<BucketModel>, now: u64, prev_cutoff: u64)
    requires
        caps_ok(bs, prev_cutoff),
    ensures
        series_trim(bs, now, prev_cutoff) == bs,
    decreases bs.len(),
{
    if bs.len() > 0 {
        let cap = bucket_cap(bs[0], prev_cutoff);
        assert(bs[0].data.len() <= cap);
        assert(pop_count(bs[0].data.len() as int, cap) == 0);
        let popped = bs[0].data.subrange(0, 0);
        assert(popped =~= Seq::<CounterState>::empty());
        assert(add_all(bs.drop_first(), popped, now) == bs.drop_first());
        lemma_series_trim_identity(bs.drop_first(), now, bs[0].cutoff_minutes);
        assert(bs[0].data.subrange(0, bs[0].data.len() as int) =~= bs[0].data);
        assert(BucketModel {
            interval_minutes: bs[0].interval_minutes,
            cutoff_minutes: bs[0].cutoff_minutes,
            data: bs[0].data.subrange(0, bs[0].data.len() as int),
        } == bs[0]);
        assert(series_trim(bs, now, prev_cutoff) =~= bs);
    }
}

/// Popping one over-capacity entry off the front of the first bucket
/// and re-adding it behind leaves the trim's outcome unchanged.
pub proof fn lemma_series_trim_pop(bs: Seq<BucketModel>, now: u64, prev_cutoff: u64)
    requires
        bs.len() > 0,
        bucket_cap(bs[0], prev_cutoff) >= 0,
        bs[0].data.len() > bucket_cap(bs[0], prev_cutoff),
    ensures
        series_trim(bs, now, prev_cutoff) == series_trim(
            seq![
                BucketModel {
                    interval_minutes: bs[0].interval_minutes,
                    cutoff_minutes: bs[0].cutoff_minutes,
                    data: bs[0].data.drop_first(),
                },
            ] + series_add(bs.drop_first(), bs[0].data[0], now),
            now,
            prev_cutoff,
        ),
{
    let data = bs[0].data;
    let cap = bucket_cap(bs[0], prev_cutoff);
    let rest = bs.drop_first();
    let k = pop_count(data.len() as int, cap);
    assert(1 <= k <= data.len());
    let popped = data.subrange(0, k);
    let bs2 = seq![
        BucketModel {
            interval_minutes: bs[0].interval_minutes,
            cutoff_minutes: bs[0].cutoff_minutes,
            data: data.drop_first(),
        },
    ] + series_add(rest, data[0], now);
    assert(bs2[0].data == data.drop_first());
    assert(bucket_cap(bs2[0], prev_cutoff) == cap);
    let k2 = pop_count(data.len() - 1, cap);
    assert(k2 == k - 1);
    let popped2 = data.drop_first().subrange(0, k2);
    assert(bs2[0].data.subrange(k2, bs2[0].data.len() as int) =~= data.subrange(
        k,
        data.len() as int,
    ));
    assert(bs2.drop_first() =~= series_add(rest, data[0], now));
    // the two pop orders feed the same states to the rest, in order
    assert(popped[0] == data[0]);
    assert(popped.drop_first() =~= popped2);
    assert(add_all(rest, popped, now) == add_all(
        series_add(rest, popped[0], now),
        popped.drop_first(),
        now,
    ));
    assert(add_all(series_add(rest, data[0], now), popped2, now) == add_all(rest, popped, now));
}

/// When the first bucket fits its capacity, the trim leaves it as it
/// stands and moves on.
pub proof fn lemma_series_trim_done(bs: Seq<BucketModel>, now: u64, prev_cutoff: u64)
    requires
        bs.len() > 0,
        pop_count(bs[0].data.len() as int, bucket_cap(bs[0], prev_cutoff)) == 0,
    ensures
        series_trim(bs, now, prev_cutoff) == seq![bs[0]] + series_trim(
            bs.drop_first(),
            now,
            bs[0].cutoff_minutes,
        ),
{
    let popped = bs[0].data.subrange(0, 0);
    assert(popped =~= Seq::<CounterState>::empty());
    assert(add_all(bs.drop_first(), popped, now) == bs.drop_first());
    assert(bs[0].data.subrange(0, bs[0].data.len() as int) =~= bs[0].data);
    assert(BucketModel {
        interval_minutes: bs[0].interval_minutes,
        cutoff_minutes: bs[0].cutoff_minutes,
        data: bs[0].data.subrange(0, bs[0].data.len() as int),
    } == bs[0]);
}

/// What applying an update message yields: shift the cascade to the
/// server's clock, add each incoming state oldest first, then enforce
/// every bucket's capacity.
pub open spec fn series_update(bs: Seq<BucketModel>, states: Seq<CounterState>, now: u64) -> Seq<
    BucketModel,
>
    recommends
        series_wf(bs),
{
    series_trim(add_all(series_shift(bs, now), states, now), now, 0)
}

/// Popping one aged entry off the front of the first bucket and
/// re-adding it behind leaves the shift's outcome unchanged.
pub proof fn lemma_series_shift_pop(bs: Seq<BucketModel>, now: u64)
    requires
        bs.len() > 0,
        bs[0].data.len() > 0,
        state_too_old(bs[0].data[0], bs[0].cutoff_minutes, now),
    ensures
        series_shift(bs, now) == series_shift(
            seq![
                BucketModel {
                    interval_minutes: bs[0].interval_minutes,
                    cutoff_minutes: bs[0].cutoff_minutes,
                    data: bs[0].data.drop_first(),
                },
            ] + series_add(bs.drop_first(), bs[0].data[0], now),
            now,
        ),
{
    let data = bs[0].data;
    let cutoff = bs[0].cutoff_minutes;
    let rest = bs.drop_first();
    let k = too_old_len(data, cutoff, now);
    lemma_too_old_len_bound(data.drop_first(), cutoff, now);
    assert(k == 1 + too_old_len(data.drop_first(), cutoff, now));
    let popped = data.subrange(0, k);
    let bs2 = seq![
        BucketModel { interval_minutes: bs[0].interval_minutes, cutoff_minutes: cutoff, data: data.drop_first() },
    ] + series_add(rest, data[0], now);
    let k2 = too_old_len(data.drop_first(), cutoff, now);
    assert(bs2[0].data == data.drop_first());
    assert(too_old_len(bs2[0].data, cutoff, now) == k2);
    let popped2 = data.drop_first().subrange(0, k2);
    assert(bs2[0].data.subrange(k2, bs2[0].data.len() as int) =~= data.subrange(
        k,
        data.len() as int,
    ));
    assert(bs2.drop_first() =~= series_add(rest, data[0], now));
    // the two pop orders feed the same states to the rest, in order
    assert(popped.len() == k);
    assert(popped[0] == data[0]);
    assert(popped.drop_first() =~= popped2);
    assert(add_all(rest, popped, now) == add_all(
        series_add(rest, popped[0], now),
        popped.drop_first(),
        now,
    ));
    assert(add_all(series_add(rest, data[0], now), popped2, now) == add_all(rest, popped, now));
}

/// When the first bucket's oldest entry is young enough (or the bucket
/// is empty), the shift leaves that bucket as it stands and moves on.
pub proof fn lemma_series_shift_done(bs: Seq<BucketModel>, now: u64)
    requires
        bs.len() > 0,
        bs[0].data.len() == 0 || !state_too_old(bs[0].data[0], bs[0].cutoff_minutes, now),
    ensures
        series_shift(bs, now) == seq![bs[0]] + series_shift(bs.drop_first(), now),
{
    let k = too_old_len(bs[0].data, bs[0].cutoff_minutes, now);
    assert(k == 0);
    let popped = bs[0].data.subrange(0, 0);
    assert(popped =~= Seq::<CounterState>::empty());
    assert(popped.len() == 0);
    assert(add_all(bs.drop_first(), popped, now) == bs.drop_first());
    assert(bs[0].data.subrange(0, bs[0].data.len() as int) =~= bs[0].data);
    assert(BucketModel {
        interval_minutes: bs[0].interval_minutes,
        cutoff_minutes: bs[0].cutoff_minutes,
        data: bs[0].data.subrange(0, bs[0].data.len() as int),
    } == bs[0]);
}

/// Add one counter state to the sub-series that starts at `from`.
///
/// The state goes into the first bucket at or after `from` whose
/// cutoff still covers its age; buckets before `from` are untouched.
pub fn add_to_series_from(
    time_series: &mut Vec<TimeBucket>,
    from: usize,
    counter_state: CounterState,
    server_epoch_minutes: u64,
)
    requires
        from <= old(time_series)@.len(),
        series_wf(models(old(time_series)@)),
        epochs_le(models(old(time_series)@), server_epoch_minutes),
        counter_state.epoch_minutes <= server_epoch_minutes,
        series_sum(models(old(time_series)@)) + counter_state.count <= u64::MAX,
    ensures
        final(time_series)@.len() == old(time_series)@.len(),
        models(final(time_series)@) == models(old(time_series)@).subrange(0, from as int)
            + series_add(
            models(old(time_series)@).subrange(from as int, old(time_series)@.len() as int),
            counter_state,
            server_epoch_minutes,
        ),
    decreases old(time_series)@.len() - from,
{
    let ghost orig = models(time_series@);
    let n = time_series.len();
    if from >= n {
        proof {
            assert(orig.subrange(n as int, n as int) =~= Seq::<BucketModel>::empty());
            assert(models(time_series@) =~= orig.subrange(0, n as int) + series_add(
                orig.subrange(n as int, n as int),
                counter_state,
                server_epoch_minutes,
            ));
        }
        return ;
    }
    let ghost suffix = orig.subrange(from as int, n as int);
    let cutoff = time_series[from].cutoff_minutes;
    assert(suffix[0] == orig[from as int]);
    if cutoff < server_epoch_minutes - counter_state.epoch_minutes {
        // too old for this bucket: try the coarser ones
        proof {
            assert(series_wf(models(time_series@)));
        }
        add_to_series_from(time_series, from + 1, counter_state, server_epoch_minutes);
        proof {
            let deeper = orig.subrange(from + 1 as int, n as int);
            assert(suffix.drop_first() =~= deeper);
            assert(state_too_old(counter_state, suffix[0].cutoff_minutes, server_epoch_minutes));
            assert(series_add(suffix, counter_state, server_epoch_minutes) =~= seq![suffix[0]]
                + series_add(deeper, counter_state, server_epoch_minutes));
            assert(models(final(time_series)@) =~= orig.subrange(0, from as int) + series_add(
                suffix,
                counter_state,
                server_epoch_minutes,
            ));
        }
    } else {
        let mut bucket = time_series.remove(from);
        proof {
            assert(bucket@ == orig[from as int]);
            lemma_series_sum_element(orig, from as int);
        }
        add_to_bucket(&mut bucket, counter_state, server_epoch_minutes);
        time_series.insert(from, bucket);
        proof {
            assert(!state_too_old(counter_state, suffix[0].cutoff_minutes, server_epoch_minutes));
            assert(series_add(suffix, counter_state, server_epoch_minutes) =~= seq![bucket@]
                + suffix.drop_first());
            assert(models(final(time_series)@) =~= orig.subrange(0, from as int) + series_add(
                suffix,
                counter_state,
                server_epoch_minutes,
            ));
        }
    }
}

pub proof fn lemma_add_all_snoc(bs: Seq<BucketModel>, states: Seq<CounterState>, s: CounterState, now: u64)
    ensures
        add_all(bs, states.push(s), now) == series_add(add_all(bs, states, now), s, now),
    decreases states.len(),
{
    if states.len() == 0 {
        assert(states.push(s)[0] == s);
        assert(states.push(s).drop_first() =~= Seq::<CounterState>::empty());
        assert(add_all(bs, states.push(s), now) == add_all(
            series_add(bs, s, now),
            states.push(s).drop_first(),
            now,
        ));
        assert(add_all(series_add(bs, s, now), Seq::<CounterState>::empty(), now) == series_add(
            bs,
            s,
            now,
        ));
        assert(add_all(bs, states, now) == bs);
    } else {
        assert(states.push(s)[0] == states[0]);
        assert(states.push(s).drop_first() =~= states.drop_first().push(s));
        lemma_add_all_snoc(series_add(bs, states[0], now), states.drop_first(), s, now);
        assert(add_all(bs, states.push(s), now) == add_all(
            series_add(bs, states[0], now),
            states.drop_first().push(s),
            now,
        ));
        assert(add_all(bs, states, now) == add_all(
            series_add(bs, states[0], now),
            states.drop_first(),
            now,
        ));
    }
}

pub proof fn lemma_series_sum_update(bs: Seq<BucketModel>, i: int, b: BucketModel)
    requires
        0 <= i < bs.len(),
    ensures
        series_sum(bs.update(i, b)) == series_sum(bs) - sum_counts(bs[i].data) + sum_counts(b.data),
    decreases bs.len(),
{
    if i == 0 {
        assert(bs.update(0, b).drop_first() =~= bs.drop_first());
    } else {
        assert(bs.update(i, b).drop_first() =~= bs.drop_first().update(i - 1, b));
        lemma_series_sum_update(bs.drop_first(), i - 1, b);
    }
}

/// Cascade aged intervals outward: for each bucket, finest first, pop
/// entries that have aged past the bucket's cutoff and re-add each to
/// the coarser buckets behind it. An entry too old even for the
/// coarsest bucket is dropped.
pub fn shift_time_series(time_series: &mut Vec<TimeBucket>, server_epoch_minutes: u64)
    requires
        series_wf(models(old(time_series)@)),
        epochs_le(models(old(time_series)@), server_epoch_minutes),
        series_sum(models(old(time_series)@)) <= u64::MAX,
    ensures
        final(time_series)@.len() == old(time_series)@.len(),
        models(final(time_series)@) == series_shift(
            models(old(time_series)@),
            server_epoch_minutes,
        ),
        series_wf(models(final(time_series)@)),
        epochs_le(models(final(time_series)@), server_epoch_minutes),
        series_sum(models(final(time_series)@)) <= series_sum(models(old(time_series)@)),
{
    let ghost orig = models(time_series@);
    let ghost now = server_epoch_minutes;
    let n = time_series.len();
    let mut i: usize = 0;
    proof {
        assert(orig.subrange(0, 0) =~= Seq::<BucketModel>::empty());
        assert(orig.subrange(0, n as int) =~= orig);
    }
    while i < n
        invariant
            i <= n,
            time_series@.len() == n,
            series_wf(models(time_series@)),
            epochs_le(models(time_series@), server_epoch_minutes),
            series_sum(orig) <= u64::MAX,
            series_sum(models(time_series@)) <= series_sum(orig),
            series_shift(orig, server_epoch_minutes) == models(time_series@).subrange(0, i as int)
                + series_shift(
                models(time_series@).subrange(i as int, n as int),
                server_epoch_minutes,
            ),
        decreases n - i,
    {
        while time_series[i].data.len() > 0 && time_series[i].cutoff_minutes
            < server_epoch_minutes - time_series[i].data[0].epoch_minutes
            invariant
                i < n,
                time_series@.len() == n,
                series_wf(models(time_series@)),
                epochs_le(models(time_series@), server_epoch_minutes),
                series_sum(orig) <= u64::MAX,
                series_sum(models(time_series@)) <= series_sum(orig),
                series_shift(orig, server_epoch_minutes) == models(time_series@).subrange(
                    0,
                    i as int,
                ) + series_shift(
                    models(time_series@).subrange(i as int, n as int),
                    server_epoch_minutes,
                ),
            decreases time_series@[i as int].data@.len(),
    {
            let ghost m0 = models(time_series@);
            proof {
                assert(m0[i as int].data[0] == time_series@[i as int].data@[0]);
                assert(m0[i as int].data[0].epoch_minutes <= server_epoch_minutes);
            }
            let mut bucket = time_series.remove(i);
            let graduated_state = bucket.data.pop_front().unwrap();
            time_series.insert(i, bucket);
            let ghost b1 = models(time_series@)[i as int];
            let ghost m1 = models(time_series@);
            proof {
                assert(m1 =~= m0.update(i as int, b1));
                assert(b1.data =~= m0[i as int].data.drop_first());
                assert(graduated_state == m0[i as int].data[0]);
                // the popped entry was counted in the old total
                assert(sum_counts(m0[i as int].data) == graduated_state.count + sum_counts(
                    b1.data,
                ));
                lemma_series_sum_update(m0, i as int, b1);
                lemma_sum_nonneg(b1.data);
                assert(series_sum(m1) + graduated_state.count == series_sum(m0));
                lemma_series_sum_nonneg(m1);
                assert(series_wf(m1));
                assert(epochs_le(m1, server_epoch_minutes));
            }
            add_to_series_from(time_series, i + 1, graduated_state, server_epoch_minutes);
            let ghost m2 = models(time_series@);
            let ghost suffix1 = m1.subrange(i + 1 as int, n as int);
            let ghost added = series_add(suffix1, graduated_state, server_epoch_minutes);
            proof {
                assert(m2 == m1.subrange(0, i + 1 as int) + added);
                assert(series_wf(suffix1));
                assert(epochs_le(suffix1, server_epoch_minutes));
                lemma_series_add_props(suffix1, graduated_state, server_epoch_minutes);
                lemma_series_sum_concat(m1.subrange(0, i + 1 as int), suffix1);
                lemma_series_sum_concat(m1.subrange(0, i + 1 as int), added);
                assert(m1 =~= m1.subrange(0, i + 1 as int) + suffix1);
                lemma_series_sum_nonneg(m1.subrange(0, i + 1 as int));
                assert(series_sum(suffix1) + graduated_state.count <= u64::MAX);
                // total never grows during the cascade
                assert(series_sum(added) <= series_sum(suffix1) + graduated_state.count);
                assert(series_sum(m2) <= series_sum(m0));
                // the series stays well-formed
                assert forall|a: int, b: int| 0 <= a < b < m2.len() implies (
                #[trigger] m2[a]).cutoff_minutes <= (#[trigger] m2[b]).cutoff_minutes by {
                    assert(m2[a].cutoff_minutes == m1[a].cutoff_minutes);
                    assert(m2[b].cutoff_minutes == m1[b].cutoff_minutes);
                }
                assert(series_wf(m2));
                assert(epochs_le(m2, server_epoch_minutes));
                // one pop step leaves the shift's outcome unchanged
                let bs_before = m0.subrange(i as int, n as int);
                assert(bs_before[0] == m0[i as int]);
                assert(bs_before.drop_first() =~= m0.subrange(i + 1 as int, n as int));
                assert(state_too_old(
                    bs_before[0].data[0],
                    bs_before[0].cutoff_minutes,
                    server_epoch_minutes,
                ));
                lemma_series_shift_pop(bs_before, server_epoch_minutes);
                assert(suffix1 =~= m0.subrange(i + 1 as int, n as int));
                assert(m2.subrange(i as int, n as int) =~= seq![
                    BucketModel {
                        interval_minutes: bs_before[0].interval_minutes,
                        cutoff_minutes: bs_before[0].cutoff_minutes,
                        data: bs_before[0].data.drop_first(),
                    },
                ] + added);
                assert(m2.subrange(0, i as int) =~= m0.subrange(0, i as int));
                assert(series_shift(orig, server_epoch_minutes) == m2.subrange(0, i as int)
                    + series_shift(m2.subrange(i as int, n as int), server_epoch_minutes));
            }
        }
        proof {
            let m = models(time_series@);
            let bs = m.subrange(i as int, n as int);
            assert(bs[0] == m[i as int]);
            assert(bs[0].data == time_series@[i as int].data@);
            if bs[0].data.len() > 0 {
                assert(!state_too_old(bs[0].data[0], bs[0].cutoff_minutes, server_epoch_minutes));
            }
            lemma_series_shift_done(bs, server_epoch_minutes);
            assert(bs.drop_first() =~= m.subrange(i + 1 as int, n as int));
            assert(m.subrange(0, i as int) + seq![m[i as int]] =~= m.subrange(0, i + 1 as int));
            assert(series_shift(orig, server_epoch_minutes) == m.subrange(0, i + 1 as int)
                + series_shift(m.subrange(i + 1 as int, n as int), server_epoch_minutes));
        }
        i = i + 1;
    }
    proof {
        let m = models(time_series@);
        assert(m.subrange(0, n as int) =~= m);
        assert(m.subrange(n as int, n as int) =~= Seq::<BucketModel>::empty());
        assert(series_shift(Seq::<BucketModel>::empty(), server_epoch_minutes)
            == Seq::<BucketModel>::empty());
        assert(models(final(time_series)@) =~= series_shift(orig, server_epoch_minutes));
    }
}

/// Add one counter state to the series: it lands in the first bucket
/// whose cutoff covers its age, or is dropped when too old for all.
pub fn add_to_series(
    time_series: &mut Vec<TimeBucket>,
    counter_state: CounterState,
    server_epoch_minutes: u64,
)
    requires
        series_wf(models(old(time_series)@)),
        epochs_le(models(old(time_series)@), server_epoch_minutes),
        counter_state.epoch_minutes <= server_epoch_minutes,
        series_sum(models(old(time_series)@)) + counter_state.count <= u64::MAX,
    ensures
        final(time_series)@.len() == old(time_series)@.len(),
        models(final(time_series)@) == series_add(
            models(old(time_series)@),
            counter_state,
            server_epoch_minutes,
        ),
        series_wf(models(final(time_series)@)),
        epochs_le(models(final(time_series)@), server_epoch_minutes),
{
    proof {
        lemma_series_add_props(models(time_series@), counter_state, server_epoch_minutes);
    }
    add_to_series_from(time_series, 0, counter_state, server_epoch_minutes);
    proof {
        let orig = models(old(time_series)@);
        assert(orig.subrange(0, orig.len() as int) =~= orig);
        assert(models(final(time_series)@) =~= series_add(
            orig,
            counter_state,
            server_epoch_minutes,
        ));
    }
}

/// The cutoff the bucket at `i` abuts on its newer side: the previous
/// bucket's cutoff, or zero for the finest bucket.
pub open spec fn prev_cutoff_at(bs: Seq<BucketModel>, i: int) -> u64 {
    if i <= 0 {
        0
    } else {
        bs[i - 1].cutoff_minutes
    }
}

/// Enforce the capacity discipline: for each bucket, finest first, pop
/// the oldest entries beyond the bucket's interval count and re-add
/// each to the coarser buckets behind it; one popped from the coarsest
/// bucket is dropped.
#[verifier::rlimit(50)]
fn enforce_capacity(time_series: &mut Vec<TimeBucket>, server_epoch_minutes: u64)
    requires
        series_wf(models(old(time_series)@)),
        epochs_le(models(old(time_series)@), server_epoch_minutes),
        series_sum(models(old(time_series)@)) <= u64::MAX,
    ensures
        final(time_series)@.len() == old(time_series)@.len(),
        models(final(time_series)@) == series_trim(
            models(old(time_series)@),
            server_epoch_minutes,
            0,
        ),
        series_wf(models(final(time_series)@)),
        epochs_le(models(final(time_series)@), server_epoch_minutes),
        series_sum(models(final(time_series)@)) <= series_sum(models(old(time_series)@)),
{
    let ghost orig = models(time_series@);
    let n = time_series.len();
    let mut i: usize = 0;
    proof {
        assert(orig.subrange(0, 0) =~= Seq::<BucketModel>::empty());
        assert(orig.subrange(0, n as int) =~= orig);
    }
    while i < n
        invariant
            i <= n,
            time_series@.len() == n,
            series_wf(models(time_series@)),
            epochs_le(models(time_series@), server_epoch_minutes),
            series_sum(orig) <= u64::MAX,
            series_sum(models(time_series@)) <= series_sum(orig),
            forall|j: int|
                0 <= j < n ==> (#[trigger] models(time_series@)[j]).cutoff_minutes
                    == orig[j].cutoff_minutes,
            series_trim(orig, server_epoch_minutes, 0) == models(time_series@).subrange(0, i as int)
                + series_trim(
                models(time_series@).subrange(i as int, n as int),
                server_epoch_minutes,
                prev_cutoff_at(models(time_series@), i as int),
            ),
        decreases n - i,
    {
        let prev: u64 = if i == 0 {
            0
        } else {
            time_series[i - 1].cutoff_minutes
        };
        proof {
            if i > 0 {
                assert(models(time_series@)[i - 1 as int].cutoff_minutes <= models(
                    time_series@,
                )[i as int].cutoff_minutes);
            }
        }
        let cap: u64 = (time_series[i].cutoff_minutes - prev) / time_series[i].interval_minutes;
        proof {
            assert(cap == bucket_cap(models(time_series@)[i as int], prev));
            assert(prev == prev_cutoff_at(models(time_series@), i as int));
        }
        while time_series[i].data.len() as u64 > cap
            invariant
                i < n,
                time_series@.len() == n,
                series_wf(models(time_series@)),
                epochs_le(models(time_series@), server_epoch_minutes),
                series_sum(orig) <= u64::MAX,
                series_sum(models(time_series@)) <= series_sum(orig),
                forall|j: int|
                    0 <= j < n ==> (#[trigger] models(time_series@)[j]).cutoff_minutes
                        == orig[j].cutoff_minutes,
                prev == prev_cutoff_at(models(time_series@), i as int),
                cap == bucket_cap(models(time_series@)[i as int], prev),
                series_trim(orig, server_epoch_minutes, 0) == models(time_series@).subrange(
                    0,
                    i as int,
                ) + series_trim(
                    models(time_series@).subrange(i as int, n as int),
                    server_epoch_minutes,
                    prev,
                ),
            decreases time_series@[i as int].data@.len(),
        {
            let ghost m0 = models(time_series@);
            proof {
                assert(m0[i as int].data[0] == time_series@[i as int].data@[0]);
                assert(m0[i as int].data[0].epoch_minutes <= server_epoch_minutes);
            }
            let mut bucket = time_series.remove(i);
            let graduated_state = bucket.data.pop_front().unwrap();
            time_series.insert(i, bucket);
            let ghost b1 = models(time_series@)[i as int];
            let ghost m1 = models(time_series@);
            proof {
                assert(m1 =~= m0.update(i as int, b1));
                assert(b1.data =~= m0[i as int].data.drop_first());
                assert(graduated_state == m0[i as int].data[0]);
                assert(sum_counts(m0[i as int].data) == graduated_state.count + sum_counts(
                    b1.data,
                ));
                lemma_series_sum_update(m0, i as int, b1);
                lemma_sum_nonneg(b1.data);
                assert(series_sum(m1) + graduated_state.count == series_sum(m0));
                lemma_series_sum_nonneg(m1);
                assert(series_wf(m1));
                assert(epochs_le(m1, server_epoch_minutes));
            }
            add_to_series_from(time_series, i + 1, graduated_state, server_epoch_minutes);
            let ghost m2 = models(time_series@);
            let ghost suffix1 = m1.subrange(i + 1 as int, n as int);
            let ghost added = series_add(suffix1, graduated_state, server_epoch_minutes);
            proof {
                assert(m2 == m1.subrange(0, i + 1 as int) + added);
                assert(series_wf(suffix1));
                assert(epochs_le(suffix1, server_epoch_minutes));
                lemma_series_add_props(suffix1, graduated_state, server_epoch_minutes);
                lemma_series_sum_concat(m1.subrange(0, i + 1 as int), suffix1);
                lemma_series_sum_concat(m1.subrange(0, i + 1 as int), added);
                assert(m1 =~= m1.subrange(0, i + 1 as int) + suffix1);
                lemma_series_sum_nonneg(m1.subrange(0, i + 1 as int));
                assert(series_sum(suffix1) + graduated_state.count <= u64::MAX);
                assert(series_sum(added) <= series_sum(suffix1) + graduated_state.count);
                assert(series_sum(m2) <= series_sum(m0));
                assert forall|a: int, b: int| 0 <= a < b < m2.len() implies (
                #[trigger] m2[a]).cutoff_minutes <= (#[trigger] m2[b]).cutoff_minutes by {
                    assert(m2[a].cutoff_minutes == m1[a].cutoff_minutes);
                    assert(m2[b].cutoff_minutes == m1[b].cutoff_minutes);
                }
                assert(series_wf(m2));
                assert(epochs_le(m2, server_epoch_minutes));
                // one pop step leaves the trim's outcome unchanged
                let bs_before = m0.subrange(i as int, n as int);
                assert(bs_before[0] == m0[i as int]);
                assert(bs_before.drop_first() =~= m0.subrange(i + 1 as int, n as int));
                assert(bs_before[0].data.len() > bucket_cap(bs_before[0], prev));
                lemma_series_trim_pop(bs_before, server_epoch_minutes, prev);
                assert(suffix1 =~= m0.subrange(i + 1 as int, n as int));
                assert(m2.subrange(i as int, n as int) =~= seq![
                    BucketModel {
                        interval_minutes: bs_before[0].interval_minutes,
                        cutoff_minutes: bs_before[0].cutoff_minutes,
                        data: bs_before[0].data.drop_first(),
                    },
                ] + added);
                assert(m2.subrange(0, i as int) =~= m0.subrange(0, i as int));
                assert(series_trim(orig, server_epoch_minutes, 0) == m2.subrange(0, i as int)
                    + series_trim(m2.subrange(i as int, n as int), server_epoch_minutes, prev));
                assert(prev == prev_cutoff_at(m2, i as int));
                assert(cap == bucket_cap(m2[i as int], prev));
            }
        }
        proof {
            let m = models(time_series@);
            let bs = m.subrange(i as int, n as int);
            assert(bs[0] == m[i as int]);
            assert(bs[0].data == time_series@[i as int].data@);
            assert(bs[0].data.len() <= cap);
            assert(pop_count(bs[0].data.len() as int, bucket_cap(bs[0], prev)) == 0);
            lemma_series_trim_done(bs, server_epoch_minutes, prev);
            assert(bs.drop_first() =~= m.subrange(i + 1 as int, n as int));
            assert(m.subrange(0, i as int) + seq![m[i as int]] =~= m.subrange(0, i + 1 as int));
            assert(bs[0].cutoff_minutes == prev_cutoff_at(m, i + 1 as int));
            assert(series_trim(orig, server_epoch_minutes, 0) == m.subrange(0, i + 1 as int)
                + series_trim(
                m.subrange(i + 1 as int, n as int),
                server_epoch_minutes,
                prev_cutoff_at(m, i + 1 as int),
            ));
        }
        i = i + 1;
    }
    proof {
        let m = models(time_series@);
        assert(m.subrange(0, n as int) =~= m);
        assert(m.subrange(n as int, n as int) =~= Seq::<BucketModel>::empty());
        assert(series_trim(
            Seq::<BucketModel>::empty(),
            server_epoch_minutes,
            prev_cutoff_at(m, n as int),
        ) == Seq::<BucketModel>::empty());
        assert(models(final(time_series)@) =~= series_trim(orig, server_epoch_minutes, 0));
    }
}

/// Apply one update message: shift the cascade to the server's clock,
/// add each incoming state, oldest first, then enforce every bucket's
/// capacity.
pub fn update_time_series(
    time_series: &mut Vec<TimeBucket>,
    counter_message: Vec<CounterState>,
    server_epoch_minutes: u64,
)
    requires
        series_wf(models(old(time_series)@)),
        epochs_le(models(old(time_series)@), server_epoch_minutes),
        series_sum(models(old(time_series)@)) + sum_counts(counter_message@) <= u64::MAX,
        forall|j: int|
            0 <= j < counter_message@.len() ==> (#[trigger] counter_message@[j]).epoch_minutes
                <= server_epoch_minutes,
    ensures
        final(time_series)@.len() == old(time_series)@.len(),
        models(final(time_series)@) == series_update(
            models(old(time_series)@),
            counter_message@,
            server_epoch_minutes,
        ),
        series_wf(models(final(time_series)@)),
        epochs_le(models(final(time_series)@), server_epoch_minutes),
{
    let ghost states = counter_message@;
    proof {
        lemma_sum_nonneg(states);
        lemma_series_sum_nonneg(models(time_series@));
    }
    shift_time_series(time_series, server_epoch_minutes);
    let ghost shifted = models(time_series@);
    proof {
        assert(states.subrange(0, 0) =~= Seq::<CounterState>::empty());
        assert(states.subrange(0, states.len() as int) =~= states);
    }
    let n = counter_message.len();
    let mut j: usize = 0;
    while j < n
        invariant
            j <= n,
            n == states.len(),
            counter_message@ == states,
            time_series@.len() == old(time_series)@.len(),
            series_wf(models(time_series@)),
            epochs_le(models(time_series@), server_epoch_minutes),
            models(time_series@) == add_all(shifted, states.subrange(0, j as int), server_epoch_minutes),
            series_sum(models(time_series@)) + sum_counts(
                states.subrange(j as int, n as int),
            ) <= u64::MAX,
            forall|k: int|
                0 <= k < states.len() ==> (#[trigger] states[k]).epoch_minutes
                    <= server_epoch_minutes,
        decreases n - j,
    {
        let counter_state = counter_message[j];
        let ghost before = models(time_series@);
        let ghost pending = states.subrange(j as int, n as int);
        proof {
            assert(pending[0] == states[j as int]);
            assert(sum_counts(pending) == counter_state.count + sum_counts(pending.drop_first()));
            lemma_sum_nonneg(pending.drop_first());
            lemma_series_add_props(before, counter_state, server_epoch_minutes);
        }
        add_to_series(time_series, counter_state, server_epoch_minutes);
        proof {
            assert(states.subrange(0, j + 1 as int) =~= states.subrange(0, j as int).push(
                states[j as int],
            ));
            lemma_add_all_snoc(
                shifted,
                states.subrange(0, j as int),
                states[j as int],
                server_epoch_minutes,
            );
            assert(pending.drop_first() =~= states.subrange(j + 1 as int, n as int));
            lemma_series_sum_nonneg(before);
            assert(series_sum(models(time_series@)) <= series_sum(before)
                + counter_state.count);
        }
        j = j + 1;
    }
    proof {
        assert(states.subrange(0, n as int) =~= states);
        assert(states.subrange(n as int, n as int) =~= Seq::<CounterState>::empty());
        lemma_series_sum_nonneg(models(time_series@));
    }
    enforce_capacity(time_series, server_epoch_minutes);
}

pub proof fn lemma_series_sum_all_empty(bs: Seq<BucketModel>)
    requires
        forall|i: int| 0 <= i < bs.len() ==> (#[trigger] bs[i]).data.len() == 0,
    ensures
        series_sum(bs) == 0,
    decreases bs.len(),
{
    if bs.len() > 0 {
        lemma_series_sum_all_empty(bs.drop_first());
    }
}

/// The standard cascade: five empty buckets at 1, 5, 15, 60 and 180
/// minute resolution, whose cutoffs reach 6 hours, 1 day, 7 days,
/// 31 days and about 89 days.
pub open spec fn standard_series() -> Seq<BucketModel> {
    seq![
        BucketModel { interval_minutes: 1, cutoff_minutes: 360, data: Seq::empty() },
        BucketModel { interval_minutes: 5, cutoff_minutes: 1440, data: Seq::empty() },
        BucketModel { interval_minutes: 15, cutoff_minutes: 8640, data: Seq::empty() },
        BucketModel { interval_minutes: 60, cutoff_minutes: 41760, data: Seq::empty() },
        BucketModel { interval_minutes: 180, cutoff_minutes: 128160, data: Seq::empty() },
    ]
}

/// Build the standard five-bucket series, newest resolution first.
/// Each bucket's capacity covers its whole span at its resolution.
pub fn create_time_series() -> (r: Vec<TimeBucket>)
    ensures
        models(r@) == standard_series(),
        r@.len() == 5,
        series_wf(models(r@)),
        series_sum(models(r@)) == 0,
        forall|m: u64| epochs_le(models(r@), m),
{
    let mut series_vec: Vec<TimeBucket> = Vec::with_capacity(5);
    series_vec.push(
        TimeBucket {
            interval_minutes: 1,
            cutoff_minutes: 6 * 60,
            data: VecDeque::with_capacity(6 * 60),
        },
    );
    series_vec.push(
        TimeBucket {
            interval_minutes: 5,
            cutoff_minutes: (6 * 60) + (18 * 60),
            data: VecDeque::with_capacity(18 * 12),
        },
    );
    series_vec.push(
        TimeBucket {
            interval_minutes: 15,
            cutoff_minutes: (6 * 60) + (18 * 60) + (5 * 24 * 60),
            data: VecDeque::with_capacity(5 * 24 * 4),
        },
    );
    series_vec.push(
        TimeBucket {
            interval_minutes: 60,
            cutoff_minutes: (6 * 60) + (18 * 60) + (5 * 24 * 60) + (23 * 24 * 60),
            data: VecDeque::with_capacity(23 * 24),
        },
    );
    series_vec.push(
        TimeBucket {
            interval_minutes: 180,
            cutoff_minutes: (6 * 60) + (18 * 60) + (5 * 24 * 60) + (23 * 24 * 60) + (60 * 8 * 180),
            data: VecDeque::with_capacity(60 * 8),
        },
    );
    proof {
        assert(models(series_vec@) =~= standard_series());
        lemma_series_sum_all_empty(models(series_vec@));
    }
    series_vec
}

} // verus!
