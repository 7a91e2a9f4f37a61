//! The server-side store: one five-bucket cascade per counter name,
//! and the dispatch of decoded wire messages against it.

use vstd::prelude::*;

use crate::assoc::{
    distinct_keys, keyed, lemma_keyed_at, lemma_keyed_contains, lemma_keyed_push,
    lemma_keyed_update,
};
use crate::counter_types::{CounterMessage, CounterState};
use crate::time_bucket::{lemma_sum_nonneg, lemma_sum_snoc, sum_counts, TimeBucket};
use crate::time_series::{
    create_time_series, epochs_le, lemma_series_sum_concat, lemma_series_sum_nonneg, models,
    series_sum, series_update, series_wf, standard_series, update_time_series, BucketModel,
};

verus! {

/// The newest bucket's total, clipped at the largest representable
/// count.
pub open spec fn clipped_sum(data: Seq<CounterState>) -> u64 {
    if sum_counts(data) <= u64::MAX {
        sum_counts(data) as u64
    } else {
        u64::MAX
    }
}

/// One bucket's total, clipped at the largest representable count.
fn saturating_data_total(bucket: &TimeBucket) -> (r: u64)
    ensures
        r == clipped_sum(bucket.data@),
{
    let ghost data = bucket.data@;
    proof {
        assert(data.subrange(0, 0) =~= Seq::<CounterState>::empty());
    }
    let n = bucket.data.len();
    let mut total: u64 = 0;
    let mut k: usize = 0;
    while k < n
        invariant
            k <= n,
            n == data.len(),
            data == bucket.data@,
            total == clipped_sum(data.subrange(0, k as int)),
        decreases n - k,
    {
        let e = bucket.data[k];
        proof {
            assert(data.subrange(0, k + 1 as int) =~= data.subrange(0, k as int).push(
                data[k as int],
            ));
            lemma_sum_snoc(data.subrange(0, k as int), data[k as int]);
            lemma_sum_nonneg(data.subrange(0, k as int));
        }
        if u64::MAX - total < e.count {
            total = u64::MAX;
        } else {
            total = total + e.count;
        }
        k = k + 1;
    }
    proof {
        assert(data.subrange(0, n as int) =~= data);
    }
    total
}

/// The per-counter cascades, keyed by counter name, together with the
/// latest server minute at which an update was applied.
pub struct CascadeStore {
    counters: Vec<(String, Vec<TimeBucket>)>,
    last_update_minutes: u64,
}

impl View for CascadeStore {
    type V = Map<Seq<char>, Seq<BucketModel>>;

    closed spec fn view(&self) -> Map<Seq<char>, Seq<BucketModel>> {
        keyed(self.pairs())
    }
}

impl CascadeStore {
    pub closed spec fn pairs(self) -> Seq<(Seq<char>, Seq<BucketModel>)> {
        Seq::new(
            self.counters@.len(),
            |i: int| (self.counters@[i].0@, models(self.counters@[i].1@)),
        )
    }

    /// The latest server minute stamped onto the store; no stored
    /// epoch lies past it.
    pub closed spec fn stamp(self) -> u64 {
        self.last_update_minutes
    }

    pub closed spec fn wf(self) -> bool {
        &&& distinct_keys(self.pairs())
        &&& forall|i: int|
            0 <= i < self.counters@.len() ==> series_wf(
                models((#[trigger] self.counters@[i]).1@),
            ) && epochs_le(models(self.counters@[i].1@), self.last_update_minutes) && models(
                self.counters@[i].1@,
            ).len() == 5
    }

    pub fn new() -> (r: CascadeStore)
        ensures
            r.wf(),
            r@ == Map::<Seq<char>, Seq<BucketModel>>::empty(),
            r.stamp() == 0,
    {
        CascadeStore { counters: Vec::new(), last_update_minutes: 0 }
    }

    /// The latest server minute an update carried.
    pub fn latest_stamp(&self) -> (r: u64)
        ensures
            r == self.stamp(),
    {
        self.last_update_minutes
    }

    /// The position of the pair that carries this counter's name.
    fn find_index(&self, counter: &String) -> (r: Option<usize>)
        ensures
            match r {
                Some(i) => i < self.counters@.len() && self.pairs()[i as int].0 == counter@,
                None => forall|k: int|
                    0 <= k < self.counters@.len() ==> (#[trigger] self.pairs()[k]).0 != counter@,
            },
    {
        let n = self.counters.len();
        let mut idx: usize = 0;
        while idx < n
            invariant
                idx <= n,
                n == self.counters@.len(),
                forall|k: int| 0 <= k < idx ==> (#[trigger] self.pairs()[k]).0 != counter@,
            decreases n - idx,
        {
            if self.counters[idx].0 == *counter {
                proof {
                    assert(self.pairs()[idx as int].0 == counter@);
                }
                return Some(idx);
            }
            idx = idx + 1;
        }
        None
    }

    /// Apply one update message to this counter's cascade, creating
    /// the standard series on first sight of the name. The server's
    /// clock may not run backwards relative to earlier updates, and
    /// the message may not carry future-dated states: the caller
    /// checks both, as the transport layer does before dispatching.
    pub fn apply_update(
        &mut self,
        counter: String,
        counter_message: Vec<CounterState>,
        server_epoch_minutes: u64,
    )
        requires
            old(self).wf(),
            server_epoch_minutes >= old(self).stamp(),
            forall|j: int|
                0 <= j < counter_message@.len() ==> (#[trigger] counter_message@[j]).epoch_minutes
                    <= server_epoch_minutes,
            (if old(self)@.contains_key(counter@) {
                series_sum(old(self)@[counter@])
            } else {
                0
            }) + sum_counts(counter_message@) <= u64::MAX,
        ensures
            final(self).wf(),
            final(self).stamp() == server_epoch_minutes,
            final(self)@ == old(self)@.insert(
                counter@,
                series_update(
                    if old(self)@.contains_key(counter@) {
                        old(self)@[counter@]
                    } else {
                        standard_series()
                    },
                    counter_message@,
                    server_epoch_minutes,
                ),
            ),
    {
        let ghost oldpairs = self.pairs();
        let found = self.find_index(&counter);
        match found {
            None => {
                proof {
                    lemma_keyed_contains(oldpairs, counter@);
                    assert(!old(self)@.contains_key(counter@));
                }
                let mut time_series = create_time_series();
                update_time_series(&mut time_series, counter_message, server_epoch_minutes);
                self.counters.push((counter, time_series));
                self.last_update_minutes = server_epoch_minutes;
                proof {
                    assert(self.pairs() =~= oldpairs.push(
                        (self.counters@.last().0@, models(self.counters@.last().1@)),
                    ));
                    lemma_keyed_push(oldpairs, self.counters@.last().0@, models(self.counters@.last().1@));
                    assert(self@ =~= old(self)@.insert(
                        counter@,
                        series_update(standard_series(), counter_message@, server_epoch_minutes),
                    ));
                    assert forall|i: int| 0 <= i < self.counters@.len() implies series_wf(
                        models((#[trigger] self.counters@[i]).1@),
                    ) && epochs_le(models(self.counters@[i].1@), self.last_update_minutes)
                        && models(self.counters@[i].1@).len() == 5 by {
                        if i < self.counters@.len() - 1 {
                            assert(self.counters@[i] == old(self).counters@[i]);
                            assert(epochs_le(
                                models(self.counters@[i].1@),
                                old(self).last_update_minutes,
                            ));
                        }
                    }
                    assert(distinct_keys(self.pairs()));
                }
            },
            Some(idx) => {
                proof {
                    lemma_keyed_at(oldpairs, idx as int);
                    assert(old(self)@.contains_key(counter@));
                    assert(old(self)@[counter@] == models(self.counters@[idx as int].1@));
                    assert(epochs_le(models(self.counters@[idx as int].1@), old(self).stamp()));
                    assert(epochs_le(
                        models(self.counters@[idx as int].1@),
                        server_epoch_minutes,
                    ));
                }
                let mut pair = self.counters.remove(idx);
                update_time_series(&mut pair.1, counter_message, server_epoch_minutes);
                self.counters.insert(idx, pair);
                self.last_update_minutes = server_epoch_minutes;
                proof {
                    assert(self.counters@[idx as int].0@ == counter@);
                    assert(self.pairs() =~= oldpairs.update(
                        idx as int,
                        (counter@, models(self.counters@[idx as int].1@)),
                    ));
                    lemma_keyed_update(
                        oldpairs,
                        idx as int,
                        models(self.counters@[idx as int].1@),
                    );
                    assert(self@ =~= old(self)@.insert(
                        counter@,
                        series_update(
                            old(self)@[counter@],
                            counter_message@,
                            server_epoch_minutes,
                        ),
                    ));
                    assert forall|i: int| 0 <= i < self.counters@.len() implies series_wf(
                        models((#[trigger] self.counters@[i]).1@),
                    ) && epochs_le(models(self.counters@[i].1@), self.last_update_minutes)
                        && models(self.counters@[i].1@).len() == 5 by {
                        if i != idx {
                            assert(self.counters@[i] == old(self).counters@[i]);
                            assert(epochs_le(
                                models(self.counters@[i].1@),
                                old(self).last_update_minutes,
                            ));
                        }
                    }
                    assert forall|i: int, j: int| 0 <= i < j < self.pairs().len() implies (
                    #[trigger] self.pairs()[i]).0 != (#[trigger] self.pairs()[j]).0 by {
                        assert(self.pairs()[i].0 == oldpairs[i].0);
                        assert(self.pairs()[j].0 == oldpairs[j].0);
                    }
                }
            },
        }
    }

    /// Answer a read: the counter's newest bucket summed into a single
    /// state stamped with the server's minute; an unknown counter
    /// reads as zero.
    pub fn read_counter(&self, counter: &String, server_epoch_minutes: u64) -> (r: CounterState)
        requires
            self.wf(),
        ensures
            r.epoch_minutes == server_epoch_minutes,
            self@.contains_key(counter@) ==> r.count == clipped_sum(self@[counter@][0].data),
            !self@.contains_key(counter@) ==> r.count == 0,
    {
        let found = self.find_index(counter);
        match found {
            None => {
                proof {
                    lemma_keyed_contains(self.pairs(), counter@);
                }
                CounterState { epoch_minutes: server_epoch_minutes, count: 0 }
            },
            Some(idx) => {
                proof {
                    lemma_keyed_at(self.pairs(), idx as int);
                }
                let series = &self.counters[idx].1;
                let total = saturating_data_total(&series[0]);
                proof {
                    assert(series@[0].data@ == self@[counter@][0].data);
                }
                CounterState { epoch_minutes: server_epoch_minutes, count: total }
            },
        }
    }

    /// Everything the store holds for a counter, over all resolutions,
    /// clipped at the largest representable count. The transport layer
    /// checks with this that an incoming update cannot overflow the
    /// counter's total before it dispatches the update.
    pub fn stored_total(&self, counter: &String) -> (r: u64)
        requires
            self.wf(),
        ensures
            self@.contains_key(counter@) ==> r == (if series_sum(self@[counter@]) <= u64::MAX {
                series_sum(self@[counter@]) as u64
            } else {
                u64::MAX
            }),
            !self@.contains_key(counter@) ==> r == 0,
    {
        let found = self.find_index(counter);
        match found {
            None => {
                proof {
                    lemma_keyed_contains(self.pairs(), counter@);
                }
                0
            },
            Some(idx) => {
                proof {
                    lemma_keyed_at(self.pairs(), idx as int);
                }
                let series = &self.counters[idx].1;
                let ghost bs = models(series@);
                proof {
                    assert(bs == self@[counter@]);
                    assert(bs.subrange(0, 0) =~= Seq::<BucketModel>::empty());
                }
                let n = series.len();
                let mut total: u64 = 0;
                let mut b: usize = 0;
                while b < n
                    invariant
                        b <= n,
                        n == bs.len(),
                        bs == models(series@),
                        total as int == (if series_sum(bs.subrange(0, b as int)) <= u64::MAX {
                            series_sum(bs.subrange(0, b as int))
                        } else {
                            u64::MAX as int
                        }),
                    decreases n - b,
                {
                    let t = saturating_data_total(&series[b]);
                    proof {
                        assert(bs.subrange(0, b + 1 as int) =~= bs.subrange(0, b as int) + seq![
                            bs[b as int],
                        ]);
                        lemma_series_sum_concat(bs.subrange(0, b as int), seq![bs[b as int]]);
                        assert(series_sum(seq![bs[b as int]]) == sum_counts(bs[b as int].data)
                            + series_sum(seq![bs[b as int]].drop_first()));
                        assert(seq![bs[b as int]].drop_first() =~= Seq::<BucketModel>::empty());
                        lemma_sum_nonneg(bs[b as int].data);
                        lemma_series_sum_nonneg(bs.subrange(0, b as int));
                        assert(bs[b as int].data == series@[b as int].data@);
                    }
                    if u64::MAX - total < t {
                        total = u64::MAX;
                    } else {
                        total = total + t;
                    }
                    b = b + 1;
                }
                proof {
                    assert(bs.subrange(0, n as int) =~= bs);
                }
                total
            },
        }
    }

    /// Dispatch one decoded wire message: an update mutates this
    /// counter's cascade and answers nothing; a read leaves the store
    /// unchanged and answers one summary state.
    pub fn dispatch(&mut self, msg: CounterMessage, server_epoch_minutes: u64) -> (r: Option<
        CounterState,
    >)
        requires
            old(self).wf(),
            server_epoch_minutes >= old(self).stamp(),
            msg matches CounterMessage::Update(m) ==> forall|j: int|
                0 <= j < m.state@.len() ==> (#[trigger] m.state@[j]).epoch_minutes
                    <= server_epoch_minutes,
            msg matches CounterMessage::Update(m) ==> (if old(self)@.contains_key(m.counter@) {
                series_sum(old(self)@[m.counter@])
            } else {
                0
            }) + sum_counts(m.state@) <= u64::MAX,
        ensures
            final(self).wf(),
            msg matches CounterMessage::Read(name) ==> {
                &&& *final(self) == *old(self)
                &&& r matches Some(reply) && reply.epoch_minutes == server_epoch_minutes
                    && reply.count == (if old(self)@.contains_key(name@) {
                    clipped_sum(old(self)@[name@][0].data)
                } else {
                    0
                })
            },
            msg matches CounterMessage::Update(m) ==> {
                &&& r is None
                &&& final(self).stamp() == server_epoch_minutes
                &&& final(self)@ == old(self)@.insert(
                    m.counter@,
                    series_update(
                        if old(self)@.contains_key(m.counter@) {
                            old(self)@[m.counter@]
                        } else {
                            standard_series()
                        },
                        m.state@,
                        server_epoch_minutes,
                    ),
                )
            },
    {
        match msg {
            CounterMessage::Read(counter) => {
                let reply = self.read_counter(&counter, server_epoch_minutes);
                Some(reply)
            },
            CounterMessage::Update(m) => {
                self.apply_update(m.counter, m.state, server_epoch_minutes);
                None
            },
        }
    }
}

} // verus!
