//! The client-side counter aggregator: per-counter running totals
//! bucketed by wall-clock minute, and the decision when to publish.
//!
//! An increment is published when it crosses a minute boundary (the
//! prior minute's final total travels with the new minute's first
//! state) or when the minute's running total reaches a power of two.

use vstd::prelude::*;

use crate::assoc::{
    distinct_keys, keyed, lemma_keyed_at, lemma_keyed_contains, lemma_keyed_push,
    lemma_keyed_update,
};
use crate::counter_types::{get_epoc_minutes, CounterState, CounterUpdateMessage};
use crate::logger::Publisher;

verus! {

/// Whether `n` is a power of two.
pub open spec fn is_pow2(n: nat) -> bool
    decreases n,
{
    if n == 0 {
        false
    } else if n == 1 {
        true
    } else {
        n % 2 == 0 && is_pow2(n / 2)
    }
}

/// Decide whether a count is a power of two.
pub fn is_power_of_two(n: u64) -> (r: bool)
    ensures
        r == is_pow2(n as nat),
    decreases n,
{
    if n == 0 {
        false
    } else if n == 1 {
        true
    } else if n % 2 == 1 {
        false
    } else {
        is_power_of_two(n / 2)
    }
}

/// Whether this increment lands in a later minute than the one the
/// aggregator last accumulated for the name.
pub open spec fn rolled_over(m: Map<Seq<char>, CounterState>, name: Seq<char>, now: u64) -> bool {
    m.contains_key(name) && m[name].epoch_minutes != now
}

/// The running total after this increment: one more within the same
/// minute, else a fresh count of one.
pub open spec fn updated_count(m: Map<Seq<char>, CounterState>, name: Seq<char>, now: u64) -> int {
    if m.contains_key(name) && m[name].epoch_minutes == now {
        m[name].count + 1
    } else {
        1
    }
}

/// The entry the aggregator holds for the name after this increment.
pub open spec fn updated_entry(
    m: Map<Seq<char>, CounterState>,
    name: Seq<char>,
    now: u64,
) -> CounterState {
    CounterState { epoch_minutes: now, count: updated_count(m, name, now) as u64 }
}

/// The pairs a run of entries denotes, names viewed as their
/// character sequences.
pub open spec fn name_pairs(entries: Seq<(String, CounterState)>) -> Seq<(Seq<char>, CounterState)> {
    Seq::new(entries.len(), |i: int| (entries[i].0@, entries[i].1))
}

/// The per-counter running state, plus the updates decided but not yet
/// taken away for transport.
pub struct CounterPublishState {
    counters: Vec<(String, CounterState)>,
    outbox: Vec<CounterUpdateMessage>,
    handled_log: Ghost<Seq<String>>,
}

impl View for CounterPublishState {
    type V = Map<Seq<char>, CounterState>;

    closed spec fn view(&self) -> Map<Seq<char>, CounterState> {
        keyed(name_pairs(self.counters@))
    }
}

impl CounterPublishState {
    pub closed spec fn pairs(self) -> Seq<(Seq<char>, CounterState)> {
        name_pairs(self.counters@)
    }

    #[verifier::type_invariant]
    spec fn distinct_names(self) -> bool {
        distinct_keys(name_pairs(self.counters@))
    }

    /// The updates decided so far and not yet taken for transport.
    pub closed spec fn pending(self) -> Seq<CounterUpdateMessage> {
        self.outbox@
    }

    /// A fresh aggregator: no counter seen, nothing to transport.
    pub fn new() -> (r: CounterPublishState)
        ensures
            r@ == Map::<Seq<char>, CounterState>::empty(),
            r.pending() == Seq::<CounterUpdateMessage>::empty(),
            r.handled() == Seq::<String>::empty(),
    {
        CounterPublishState {
            counters: Vec::new(),
            outbox: Vec::new(),
            handled_log: Ghost(Seq::empty()),
        }
    }

    /// The position of the pair that carries this counter's name.
    fn find_index(&self, counter: &String) -> (r: Option<usize>)
        ensures
            match r {
                Some(i) => i < self.counters@.len() && self.pairs()[i as int].0 == counter@,
                None => forall|k: int|
                    0 <= k < self.counters@.len() ==> (#[trigger] self.pairs()[k]).0 != counter@,
            },
    {
        let n = self.counters.len();
        let mut idx: usize = 0;
        while idx < n
            invariant
                idx <= n,
                n == self.counters@.len(),
                forall|k: int| 0 <= k < idx ==> (#[trigger] self.pairs()[k]).0 != counter@,
            decreases n - idx,
        {
            if self.counters[idx].0 == *counter {
                proof {
                    assert(self.pairs()[idx as int].0 == counter@);
                }
                return Some(idx);
            }
            idx = idx + 1;
        }
        None
    }

    /// Count one increment for the name at the given minute, and
    /// decide the update to publish: the increment is published
    /// exactly when it crossed a minute boundary or when the minute's
    /// new total is a power of two. On a boundary crossing, the prior
    /// minute's final state travels in front of the new one.
    pub fn record(&mut self, counter: String, epoch_minutes: u64) -> (emit: Option<
        CounterUpdateMessage,
    >)
        requires
            old(self)@.contains_key(counter@) && old(self)@[counter@].epoch_minutes
                == epoch_minutes ==> old(self)@[counter@].count < u64::MAX,
        ensures
            final(self)@ == old(self)@.insert(
                counter@,
                updated_entry(old(self)@, counter@, epoch_minutes),
            ),
            emit is Some <==> rolled_over(old(self)@, counter@, epoch_minutes) || is_pow2(
                updated_count(old(self)@, counter@, epoch_minutes) as nat,
            ),
            emit matches Some(msg) ==> msg.counter@ == counter@ && msg.state@ == (
            if rolled_over(old(self)@, counter@, epoch_minutes) {
                seq![
                    old(self)@[counter@],
                    updated_entry(old(self)@, counter@, epoch_minutes),
                ]
            } else {
                seq![updated_entry(old(self)@, counter@, epoch_minutes)]
            }),
            final(self).pending() == old(self).pending(),
            final(self).handled() == old(self).handled(),
    {
        proof {
            use_type_invariant(&*self);
        }
        let ghost oldpairs = self.pairs();
        let found = self.find_index(&counter);
        let mut entries: Vec<(String, CounterState)> = Vec::new();
        core::mem::swap(&mut entries, &mut self.counters);
        let emit: Option<CounterUpdateMessage>;
        match found {
            Some(idx) => {
                proof {
                    lemma_keyed_at(oldpairs, idx as int);
                }
                let entry = entries[idx].1;
                if entry.epoch_minutes == epoch_minutes {
                    let cur = CounterState { epoch_minutes, count: entry.count + 1 };
                    let pair = entries.remove(idx);
                    entries.insert(idx, (pair.0, cur));
                    proof {
                        assert(name_pairs(entries@) =~= oldpairs.update(
                            idx as int,
                            (counter@, cur),
                        ));
                        lemma_keyed_update(oldpairs, idx as int, cur);
                        assert(cur == updated_entry(old(self)@, counter@, epoch_minutes));
                    }
                    if is_power_of_two(cur.count) {
                        let mut state: Vec<CounterState> = Vec::with_capacity(1);
                        state.push(cur);
                        proof {
                            assert(state@ =~= seq![cur]);
                        }
                        emit = Some(CounterUpdateMessage { counter, state });
                    } else {
                        emit = None;
                    }
                } else {
                    // minute roll-over: the prior state is superseded
                    // and carried with the new minute's first count
                    let prev = entry;
                    let cur = CounterState { epoch_minutes, count: 1 };
                    let pair = entries.remove(idx);
                    entries.insert(idx, (pair.0, cur));
                    proof {
                        assert(name_pairs(entries@) =~= oldpairs.update(
                            idx as int,
                            (counter@, cur),
                        ));
                        lemma_keyed_update(oldpairs, idx as int, cur);
                        assert(cur == updated_entry(old(self)@, counter@, epoch_minutes));
                        assert(is_pow2(1));
                    }
                    let mut state: Vec<CounterState> = Vec::with_capacity(2);
                    state.push(prev);
                    state.push(cur);
                    proof {
                        assert(state@ =~= seq![prev, cur]);
                    }
                    emit = Some(CounterUpdateMessage { counter, state });
                }
            },
            None => {
                proof {
                    lemma_keyed_contains(oldpairs, counter@);
                }
                let cur = CounterState { epoch_minutes, count: 1 };
                entries.push((counter.clone(), cur));
                proof {
                    assert(name_pairs(entries@) =~= oldpairs.push((counter@, cur)));
                    lemma_keyed_push(oldpairs, counter@, cur);
                    assert(cur == updated_entry(old(self)@, counter@, epoch_minutes));
                    assert(is_pow2(1));
                    assert forall|i: int, j: int|
                        0 <= i < j < name_pairs(entries@).len() implies (#[trigger] name_pairs(
                        entries@,
                    )[i]).0 != (#[trigger] name_pairs(entries@)[j]).0 by {
                        assert(name_pairs(entries@)[i] == oldpairs.push((counter@, cur))[i]);
                        assert(name_pairs(entries@)[j] == oldpairs.push((counter@, cur))[j]);
                        if j < name_pairs(entries@).len() - 1 {
                            assert(oldpairs[i].0 != oldpairs[j].0);
                        }
                    }
                }
                let mut state: Vec<CounterState> = Vec::with_capacity(1);
                state.push(cur);
                proof {
                    assert(state@ =~= seq![cur]);
                }
                emit = Some(CounterUpdateMessage { counter, state });
            },
        }
        core::mem::swap(&mut entries, &mut self.counters);
        emit
    }

    /// Take away the updates decided so far, in the order they were
    /// decided; the transport sends each as one framed message.
    pub fn take_outbox(&mut self) -> (r: Vec<CounterUpdateMessage>)
        ensures
            r@ == old(self).pending(),
            final(self).pending() == Seq::<CounterUpdateMessage>::empty(),
            final(self)@ == old(self)@,
            final(self).handled() == old(self).handled(),
    {
        proof {
            use_type_invariant(&*self);
        }
        let mut taken: Vec<CounterUpdateMessage> = Vec::new();
        core::mem::swap(&mut self.outbox, &mut taken);
        taken
    }
}

/// What one trait-path `send` does, at whatever minute `m` the clock
/// read: if the name's running total is saturated within that minute,
/// everything is left as it stands; otherwise the increment is counted
/// exactly as `record` counts it, and the decided update — the prior
/// minute's tail and the current state on a roll-over, the current
/// state alone on a power of two — is appended to the outbox, or the
/// outbox is left as it stands when the rule decides no emission.
pub open spec fn send_outcome(
    pre: CounterPublishState,
    post: CounterPublishState,
    counter: String,
    m: u64,
) -> bool {
    let m0 = pre@;
    if m0.contains_key(counter@) && m0[counter@].epoch_minutes == m && m0[counter@].count
        == u64::MAX {
        post@ == m0 && post.pending() == pre.pending()
    } else {
        &&& post@ == m0.insert(counter@, updated_entry(m0, counter@, m))
        &&& if rolled_over(m0, counter@, m) || is_pow2(updated_count(m0, counter@, m) as nat) {
            &&& post.pending().len() == pre.pending().len() + 1
            &&& post.pending().drop_last() == pre.pending()
            &&& post.pending().last().counter@ == counter@
            &&& post.pending().last().state@ == (if rolled_over(m0, counter@, m) {
                seq![m0[counter@], updated_entry(m0, counter@, m)]
            } else {
                seq![updated_entry(m0, counter@, m)]
            })
        } else {
            post.pending() == pre.pending()
        }
    }
}

impl Publisher<String> for CounterPublishState {
    closed spec fn handled(&self) -> Seq<String> {
        self.handled_log@
    }

    fn new() -> (r: CounterPublishState)
        ensures
            r@ == Map::<Seq<char>, CounterState>::empty(),
            r.pending() == Seq::<CounterUpdateMessage>::empty(),
    {
        CounterPublishState {
            counters: Vec::new(),
            outbox: Vec::new(),
            handled_log: Ghost(Seq::empty()),
        }
    }

    /// Count the increment at the current minute and queue whatever
    /// update the publish rule decides. An entry whose running total
    /// cannot grow any further is left as it stands: accounting is
    /// best-effort, and a failure never stops the worker.
    fn send(&mut self, counter: String) -> (r: Result<(), ()>)
        ensures
            r is Ok,
            exists|m: u64| send_outcome(*old(self), *final(self), counter, m),
    {
        proof {
            use_type_invariant(&*self);
        }
        let epoch_minutes = get_epoc_minutes();
        let safe = match self.find_index(&counter) {
            Some(idx) => {
                proof {
                    lemma_keyed_at(self.pairs(), idx as int);
                }
                let entry = self.counters[idx].1;
                !(entry.epoch_minutes == epoch_minutes && entry.count == u64::MAX)
            },
            None => {
                proof {
                    lemma_keyed_contains(self.pairs(), counter@);
                }
                true
            },
        };
        if safe {
            let emit = self.record(counter.clone(), epoch_minutes);
            if let Some(msg) = emit {
                proof {
                    use_type_invariant(&*self);
                }
                let ghost outbox_before = self.outbox@;
                let mut out: Vec<CounterUpdateMessage> = Vec::new();
                core::mem::swap(&mut out, &mut self.outbox);
                out.push(msg);
                proof {
                    use_type_invariant(&*self);
                }
                core::mem::swap(&mut out, &mut self.outbox);
                proof {
                    assert(self.outbox@.drop_last() =~= outbox_before);
                }
            }
        }
        proof {
            use_type_invariant(&*self);
        }
        self.handled_log = Ghost(self.handled_log@.push(counter));
        proof {
            assert(send_outcome(*old(self), *self, counter, epoch_minutes));
        }
        Ok(())
    }
}

} // verus!
