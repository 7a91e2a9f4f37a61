//! A single fixed-resolution time bucket and the insert-or-merge
//! operation on it.
//!
//! A bucket stores counter states ordered oldest first. Every stored
//! epoch is aligned down to the bucket's interval, and the epochs are
//! strictly increasing, so each interval holds at most one entry.

use vstd::prelude::*;
use vstd::arithmetic::div_mod::{
    lemma_fundamental_div_mod, lemma_mod_bound, lemma_mod_multiples_basic,
};

use crate::counter_types::CounterState;
use std::collections::VecDeque;

verus! {

/// One resolution level of a counter's history.
#[derive(Clone, Debug, PartialEq, Eq)]
pub struct TimeBucket {
    /// Minutes per interval; each stored epoch is a multiple of this.
    pub interval_minutes: u64,
    /// Age bound: the bucket keeps entries no older than this many
    /// minutes relative to the server's clock.
    pub cutoff_minutes: u64,
    /// The stored entries, oldest first.
    pub data: VecDeque<CounterState>,
}

/// `m` rounded down to a multiple of `interval`.
pub open spec fn align_of(m: u64, interval: u64) -> u64
    recommends
        interval >= 1,
{
    (m - (m % interval)) as u64
}

pub proof fn lemma_align(m: u64, interval: u64)
    requires
        interval >= 1,
    ensures
        align_of(m, interval) % interval == 0,
        align_of(m, interval) <= m,
        m < align_of(m, interval) + interval,
        align_of(m, interval) == m - (m % interval),
{
    lemma_mod_bound(m as int, interval as int);
    lemma_fundamental_div_mod(m as int, interval as int);
    let q = m as int / interval as int;
    assert(m - (m % interval) == q * interval);
    lemma_mod_multiples_basic(q, interval as int);
    assert((q * interval as int) % (interval as int) == 0);
}

/// The bucket's data invariant: all epochs aligned to the interval and
/// strictly increasing (oldest first).
pub open spec fn bucket_data_wf(data: Seq<CounterState>, interval: u64) -> bool {
    &&& forall|i: int| 0 <= i < data.len() ==> #[trigger] data[i].epoch_minutes % interval == 0
    &&& forall|i: int, j: int|
        0 <= i < j < data.len() ==> #[trigger] data[i].epoch_minutes < #[trigger] data[j].epoch_minutes
}

impl TimeBucket {
    pub open spec fn wf(self) -> bool {
        &&& self.interval_minutes >= 1
        &&& bucket_data_wf(self.data@, self.interval_minutes)
    }
}

/// The total of the counts of a run of entries.
pub open spec fn sum_counts(data: Seq<CounterState>) -> int
    decreases data.len(),
{
    if data.len() == 0 {
        0
    } else {
        data[0].count + sum_counts(data.drop_first())
    }
}

pub proof fn lemma_sum_nonneg(data: Seq<CounterState>)
    ensures
        sum_counts(data) >= 0,
    decreases data.len(),
{
    if data.len() > 0 {
        lemma_sum_nonneg(data.drop_first());
    }
}

/// Each entry's count is at most the total.
pub proof fn lemma_sum_element(data: Seq<CounterState>, k: int)
    requires
        0 <= k < data.len(),
    ensures
        data[k].count <= sum_counts(data),
    decreases data.len(),
{
    lemma_sum_nonneg(data.drop_first());
    if k > 0 {
        lemma_sum_element(data.drop_first(), k - 1);
    }
}

pub proof fn lemma_sum_snoc(data: Seq<CounterState>, x: CounterState)
    ensures
        sum_counts(data.push(x)) == sum_counts(data) + x.count,
    decreases data.len(),
{
    if data.len() == 0 {
        assert(data.push(x)[0] == x);
        assert(data.push(x).drop_first() =~= Seq::<CounterState>::empty());
        assert(sum_counts(data.push(x)) == x.count + sum_counts(data.push(x).drop_first()));
    } else {
        assert(data.push(x)[0] == data[0]);
        assert(data.push(x).drop_first() =~= data.drop_first().push(x));
        lemma_sum_snoc(data.drop_first(), x);
        assert(sum_counts(data.push(x)) == data[0].count + sum_counts(data.push(x).drop_first()));
    }
}

/// Whether some entry of `data` carries the epoch `e`.
pub open spec fn has_epoch(data: Seq<CounterState>, e: u64) -> bool {
    exists|j: int| 0 <= j < data.len() && data[j].epoch_minutes == e
}

/// What adding a counter state to a bucket's run of entries yields:
/// the state's epoch is aligned down to the interval, then either
/// merged into the entry already holding that interval or inserted at
/// its sorted position.
pub open spec fn seq_insert(data: Seq<CounterState>, interval: u64, s: CounterState) -> Seq<
    CounterState,
>
    recommends
        interval >= 1,
    decreases data.len(),
{
    let a = align_of(s.epoch_minutes, interval);
    if data.len() == 0 {
        seq![CounterState { epoch_minutes: a, count: s.count }]
    } else if data[0].epoch_minutes == a {
        seq![
            CounterState {
                epoch_minutes: a,
                count: (data[0].count + s.count) as u64,
            },
        ] + data.drop_first()
    } else if a < data[0].epoch_minutes {
        seq![CounterState { epoch_minutes: a, count: s.count }] + data
    } else {
        seq![data[0]] + seq_insert(data.drop_first(), interval, s)
    }
}

/// Entries older than the aligned epoch pass through `seq_insert`
/// unchanged, so the insertion can be split off behind them.
pub proof fn lemma_seq_insert_split(data: Seq<CounterState>, interval: u64, s: CounterState, p: int)
    requires
        interval >= 1,
        0 <= p <= data.len(),
        forall|k: int| 0 <= k < p ==> #[trigger] data[k].epoch_minutes < align_of(
            s.epoch_minutes,
            interval,
        ),
    ensures
        seq_insert(data, interval, s) == data.subrange(0, p) + seq_insert(
            data.subrange(p, data.len() as int),
            interval,
            s,
        ),
    decreases p,
{
    if p == 0 {
        assert(data.subrange(0, data.len() as int) =~= data);
        assert(seq_insert(data, interval, s) =~= data.subrange(0, 0) + seq_insert(
            data,
            interval,
            s,
        ));
    } else {
        let rest = data.drop_first();
        lemma_seq_insert_split(rest, interval, s, p - 1);
        assert(rest.subrange(0, p - 1) =~= data.subrange(1, p));
        assert(rest.subrange(p - 1, rest.len() as int) =~= data.subrange(p, data.len() as int));
        assert(seq![data[0]] + (data.subrange(1, p) + seq_insert(
            data.subrange(p, data.len() as int),
            interval,
            s,
        )) =~= data.subrange(0, p) + seq_insert(data.subrange(p, data.len() as int), interval, s));
    }
}

/// `seq_insert` keeps the bucket invariant, adds at most one entry,
/// introduces no epoch but the aligned one, and adds exactly the
/// incoming count to the total.
pub proof fn lemma_seq_insert_props(data: Seq<CounterState>, interval: u64, s: CounterState)
    requires
        interval >= 1,
        bucket_data_wf(data, interval),
    ensures
        bucket_data_wf(seq_insert(data, interval, s), interval),
        data.len() <= seq_insert(data, interval, s).len() <= data.len() + 1,
        forall|k: int|
            0 <= k < seq_insert(data, interval, s).len() ==> #[trigger] seq_insert(
                data,
                interval,
                s,
            )[k].epoch_minutes == align_of(s.epoch_minutes, interval) || has_epoch(
                data,
                seq_insert(data, interval, s)[k].epoch_minutes,
            ),
        sum_counts(data) + s.count <= u64::MAX ==> sum_counts(seq_insert(data, interval, s))
            == sum_counts(data) + s.count,
    decreases data.len(),
{
    let a = align_of(s.epoch_minutes, interval);
    lemma_align(s.epoch_minutes, interval);
    let r = seq_insert(data, interval, s);
    if data.len() == 0 {
        assert(r.len() == 1);
        assert(r.drop_first() =~= Seq::<CounterState>::empty());
        assert(sum_counts(r) == r[0].count + sum_counts(r.drop_first()));
        assert(sum_counts(r) == s.count);
    } else if data[0].epoch_minutes == a {
        assert(r.drop_first() =~= data.drop_first());
        assert(forall|k: int| 1 <= k < r.len() ==> r[k] == data[k]);
        lemma_sum_element(data, 0);
        lemma_sum_nonneg(data.drop_first());
        assert(forall|k: int| 0 <= k < r.len() ==> r[k].epoch_minutes == data[k].epoch_minutes);
        if sum_counts(data) + s.count <= u64::MAX {
            assert(data[0].count + s.count <= u64::MAX);
            assert(r[0].count == data[0].count + s.count);
            assert(sum_counts(r) == r[0].count + sum_counts(r.drop_first()));
            assert(sum_counts(data) == data[0].count + sum_counts(data.drop_first()));
        }
    } else if a < data[0].epoch_minutes {
        assert(r.drop_first() =~= data);
        assert(forall|k: int| 1 <= k < r.len() ==> r[k] == data[k - 1]);
        lemma_sum_nonneg(data);
        assert(sum_counts(r) == r[0].count + sum_counts(r.drop_first()));
        assert(sum_counts(r) == s.count + sum_counts(data));
    } else {
        let rest = data.drop_first();
        assert(bucket_data_wf(rest, interval));
        lemma_seq_insert_props(rest, interval, s);
        let rr = seq_insert(rest, interval, s);
        assert(r =~= seq![data[0]] + rr);
        assert(r.drop_first() =~= rr);
        // the head stays older than everything behind it
        assert forall|k: int| 1 <= k < r.len() implies data[0].epoch_minutes
            < #[trigger] r[k].epoch_minutes by {
            assert(r[k] == rr[k - 1]);
            if rr[k - 1].epoch_minutes == a {
                assert(data[0].epoch_minutes < a);
            } else {
                assert(has_epoch(rest, rr[k - 1].epoch_minutes));
                let j = choose|j: int| 0 <= j < rest.len() && rest[j].epoch_minutes == rr[k
                    - 1].epoch_minutes;
                assert(data[0].epoch_minutes < rest[j].epoch_minutes);
            }
        }
        assert(bucket_data_wf(r, interval));
        if sum_counts(data) + s.count <= u64::MAX {
            lemma_sum_nonneg(rest);
            assert(sum_counts(data) == data[0].count + sum_counts(rest));
            assert(sum_counts(rest) + s.count <= u64::MAX);
            assert(sum_counts(rr) == sum_counts(rest) + s.count);
            assert(sum_counts(r) == r[0].count + sum_counts(r.drop_first()));
            assert(sum_counts(r) == sum_counts(data) + s.count);
        }
    }
}

/// Merge a counter state into a bucket: align its epoch down to the
/// bucket's interval, then add its count to the entry holding that
/// interval, or insert it at its sorted position.
///
/// The state must not be older than the bucket's cutoff relative to
/// the server's clock; handing one that is would be a programmer
/// error, so it is ruled out here.
pub fn add_to_bucket(bucket: &mut TimeBucket, counter_state: CounterState, server_epoch_minutes: u64)
    requires
        old(bucket).wf(),
        counter_state.epoch_minutes <= server_epoch_minutes,
        server_epoch_minutes - counter_state.epoch_minutes <= old(bucket).cutoff_minutes,
        sum_counts(old(bucket).data@) + counter_state.count <= u64::MAX,
    ensures
        final(bucket).interval_minutes == old(bucket).interval_minutes,
        final(bucket).cutoff_minutes == old(bucket).cutoff_minutes,
        final(bucket).data@ == seq_insert(
            old(bucket).data@,
            old(bucket).interval_minutes,
            counter_state,
        ),
        final(bucket).wf(),
{
    proof {
        lemma_align(counter_state.epoch_minutes, bucket.interval_minutes);
        lemma_seq_insert_props(bucket.data@, bucket.interval_minutes, counter_state);
    }
    let ghost spec_result = seq_insert(bucket.data@, bucket.interval_minutes, counter_state);
    let aligned: u64 = counter_state.epoch_minutes - counter_state.epoch_minutes
        % bucket.interval_minutes;
    let mut i = bucket.data.len();
    #[verifier::loop_isolation(false)]
    while i > 0
        invariant
            i <= bucket.data.len(),
            *bucket == *old(bucket),
            forall|k: int| i <= k < bucket.data@.len() ==> aligned < #[trigger] bucket.data@[k].epoch_minutes,
        decreases i,
    {
        let e = bucket.data[i - 1];
        if e.epoch_minutes == aligned {
            proof {
                lemma_sum_element(bucket.data@, i - 1 as int);
                lemma_sum_nonneg(bucket.data@);
            }
            let merged = CounterState { epoch_minutes: aligned, count: e.count + counter_state.count };
            let ghost before = bucket.data@;
            bucket.data.remove(i - 1);
            bucket.data.insert(i - 1, merged);
            proof {
                assert(forall|k: int| 0 <= k < i - 1 ==> #[trigger] before[k].epoch_minutes < aligned);
                lemma_seq_insert_split(before, bucket.interval_minutes, counter_state, i - 1 as int);
                assert(before.subrange(i - 1 as int, before.len() as int)[0] == before[i - 1]);
                assert(bucket.data@ =~= spec_result);
            }
            return ;
        }
        if e.epoch_minutes < aligned {
            let fresh = CounterState { epoch_minutes: aligned, count: counter_state.count };
            let ghost before = bucket.data@;
            bucket.data.insert(i, fresh);
            proof {
                assert(forall|k: int| 0 <= k < i ==> #[trigger] before[k].epoch_minutes < aligned);
                lemma_seq_insert_split(before, bucket.interval_minutes, counter_state, i as int);
                if i < before.len() {
                    assert(before.subrange(i as int, before.len() as int)[0] == before[i as int]);
                }
                assert(bucket.data@ =~= spec_result);
            }
            return ;
        }
        i = i - 1;
    }
    let fresh = CounterState { epoch_minutes: aligned, count: counter_state.count };
    bucket.data.push_front(fresh);
    proof {
        assert(bucket.data@ =~= spec_result);
    }
}

} // verus!
