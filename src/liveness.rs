//! Last-write-wins resolution of key liveness, and a scan state that keeps
//! the liveness store in memory, keyed by the 32-bit hash of each key.

use std::collections::HashMap;
use vstd::prelude::*;
use crate::fnv32::{fnv_hash, hash_bytes};
use crate::metric::{
    lemma_sum_totals_nonneg, supersedes, LivenessEntry, Metrics, MetricsView, ObservationView,
    PartitionMetrics, RecordObservation,
};

verus! {

broadcast use vstd::std_specs::hash::group_hash_axioms;

/// What the store holds for a key after seeing `entries` in arrival order,
/// starting from `stored`.
pub open spec fn resolve_all(stored: Option<LivenessEntry>, entries: Seq<LivenessEntry>) -> Option<
    LivenessEntry,
>
    decreases entries.len(),
{
    if entries.len() == 0 {
        stored
    } else {
        let before = resolve_all(stored, entries.drop_last());
        if supersedes(before, entries.last()) {
            Some(entries.last())
        } else {
            before
        }
    }
}

/// Observations of one key are resolved by offset, not by arrival: whatever
/// their arrival order, when their offsets are distinct the entry that
/// remains is the one with the largest offset.
pub proof fn lemma_last_write_wins(entries: Seq<LivenessEntry>)
    requires
        entries.len() > 0,
        forall|i: int, j: int|
            0 <= i < entries.len() && 0 <= j < entries.len() && i != j ==> entries[i].offset
                != entries[j].offset,
    ensures
        exists|k: int|
            0 <= k < entries.len() && resolve_all(None, entries) == Some(entries[k]) && forall|
                j: int,
            |
                0 <= j < entries.len() ==> #[trigger] entries[j].offset <= entries[k].offset,
    decreases entries.len(),
{
    let n = entries.len();
    if n == 1 {
        assert(resolve_all(None, entries.drop_last()) == None::<LivenessEntry>);
        assert(resolve_all(None, entries) == Some(entries[0]));
    } else {
        let init = entries.drop_last();
        assert forall|i: int, j: int|
            0 <= i < init.len() && 0 <= j < init.len() && i != j implies init[i].offset
            != init[j].offset by {
            assert(init[i] == entries[i] && init[j] == entries[j]);
        }
        lemma_last_write_wins(init);
        let k = choose|k: int|
            0 <= k < init.len() && resolve_all(None, init) == Some(init[k]) && forall|j: int|
                0 <= j < init.len() ==> #[trigger] init[j].offset <= init[k].offset;
        assert(init[k] == entries[k]);
        assert forall|j: int| 0 <= j < n - 1 implies #[trigger] entries[j].offset
            <= entries[k].offset by {
            assert(init[j] == entries[j]);
        }
        if entries[k].offset < entries.last().offset {
            assert(resolve_all(None, entries) == Some(entries[n - 1]));
        } else {
            assert(entries[k].offset != entries[n - 1].offset);
            assert(resolve_all(None, entries) == Some(entries[k]));
        }
    }
}

/// Metrics together with an in-memory liveness store mapping the hash of
/// each key to its latest entry.
pub struct ScanState {
    pub metrics: Metrics,
    pub store: HashMap<u32, LivenessEntry>,
}

/// The mathematical content of a [`ScanState`].
pub struct ScanView {
    pub metrics: MetricsView,
    pub store: Map<u32, LivenessEntry>,
}

/// What the store holds for the key of `o`, when liveness is tracked and
/// the record has a key.
pub open spec fn stored_for(s: ScanView, o: ObservationView) -> Option<LivenessEntry> {
    match o.key {
        Some(k) => if s.metrics.liveness && s.store.contains_key(fnv_hash(k)) {
            Some(s.store[fnv_hash(k)])
        } else {
            None
        },
        None => None,
    }
}

/// The scan state after one record.
pub open spec fn step(s: ScanView, o: ObservationView) -> ScanView {
    let stored = stored_for(s, o);
    ScanView {
        metrics: s.metrics.fold(o, stored),
        store: match o.key {
            Some(k) => if s.metrics.liveness && supersedes(stored, o.entry()) {
                s.store.insert(fnv_hash(k), o.entry())
            } else {
                s.store
            },
            None => s.store,
        },
    }
}

/// The scan state after the records of `obs`, in order.
pub open spec fn scan(s: ScanView, obs: Seq<ObservationView>) -> ScanView
    decreases obs.len(),
{
    if obs.len() == 0 {
        s
    } else {
        step(scan(s, obs.drop_last()), obs.last())
    }
}

/// A bounded scan is deterministic: the same records, from the same state,
/// give the same metrics and the same store, however often it is run.
pub proof fn lemma_scan_deterministic(
    s1: ScanView,
    s2: ScanView,
    obs1: Seq<ObservationView>,
    obs2: Seq<ObservationView>,
)
    requires
        s1 == s2,
        obs1 == obs2,
    ensures
        scan(s1, obs1) == scan(s2, obs2),
{
}

/// The hashed keys whose stored entry is a live value in partition `p`.
pub open spec fn alive_keys(store: Map<u32, LivenessEntry>, p: int) -> Set<u32> {
    store.dom().filter(|h: u32| !store[h].tombstone && store[h].partition as int == p)
}

/// The store and the liveness counters agree: every stored entry names a
/// partition of the topic, and each partition's `alive` counter is the
/// number of keys whose stored entry is a live value there.
pub open spec fn store_agrees(s: ScanView) -> bool {
    &&& s.store.dom().finite()
    &&& forall|h: u32|
        s.store.contains_key(h) ==> 0 <= #[trigger] s.store[h].partition < s.metrics.partitions.len()
    &&& forall|p: int|
        0 <= p < s.metrics.partitions.len() ==> #[trigger] s.metrics.partitions[p].alive
            == alive_keys(s.store, p).len()
}

proof fn lemma_alive_keys_insert(store: Map<u32, LivenessEntry>, h: u32, e: LivenessEntry, p: int)
    requires
        store.dom().finite(),
    ensures
        alive_keys(store, p).finite(),
        alive_keys(store.insert(h, e), p) == (if !e.tombstone && e.partition as int == p {
            alive_keys(store, p).remove(h).insert(h)
        } else {
            alive_keys(store, p).remove(h)
        }),
{
    store.dom().lemma_len_filter(|k: u32| !store[k].tombstone && store[k].partition as int == p);
    let after = alive_keys(store.insert(h, e), p);
    let base = alive_keys(store, p).remove(h);
    if !e.tombstone && e.partition as int == p {
        assert(after =~= base.insert(h));
    } else {
        assert(after =~= base);
    }
}

proof fn lemma_step_keeps_store_agreement(s: ScanView, o: ObservationView)
    requires
        s.metrics.wf(),
        s.metrics.can_fold(o),
        store_agrees(s),
    ensures
        store_agrees(step(s, o)),
{
    let n = s.metrics.partitions.len();
    let t = step(s, o);
    let stored = stored_for(s, o);
    let pp = o.partition;
    let c = s.metrics.partitions[pp].count(o);
    let counted = MetricsView { partitions: s.metrics.partitions.update(pp, c), ..s.metrics };
    if s.metrics.liveness && o.key is Some {
        let h = fnv_hash(o.key->Some_0);
        let parts = counted.partitions;
        if let Some(st) = stored {
            if !st.tombstone {
                let q = st.partition as int;
                lemma_alive_keys_insert(s.store, h, o.entry(), q);
                assert(alive_keys(s.store, q).contains(h));
                assert(parts[q].alive == s.metrics.partitions[q].alive);
                assert(parts[q].alive > 0);
            }
        }
        assert forall|p: int| 0 <= p < n implies #[trigger] t.metrics.partitions[p].alive
            == alive_keys(t.store, p).len() by {
            assert(parts[p].alive == s.metrics.partitions[p].alive);
            lemma_alive_keys_insert(s.store, h, o.entry(), p);
            let old_set = alive_keys(s.store, p);
            assert(old_set.contains(h) <==> (stored matches Some(st) && !st.tombstone
                && st.partition as int == p));
            if supersedes(stored, o.entry()) {
                assert(t.store == s.store.insert(h, o.entry()));
                let demoted = match stored {
                    Some(st) => if !st.tombstone && 0 <= st.partition < parts.len()
                        && parts[st.partition as int].alive > 0 {
                        let q = parts[st.partition as int];
                        parts.update(
                            st.partition as int,
                            PartitionMetrics {
                                alive: (q.alive - 1) as u64,
                                overwritten: (q.overwritten + 1) as u64,
                                ..q
                            },
                        )
                    } else {
                        parts
                    },
                    None => parts,
                };
                assert(counted.track(o, stored) == (if o.is_tombstone() {
                    demoted
                } else {
                    demoted.update(pp, PartitionMetrics { alive: (demoted[pp].alive + 1) as u64, ..demoted[pp] })
                }));
                assert(demoted[p].alive == parts[p].alive - (if old_set.contains(h) {
                    1int
                } else {
                    0
                }));
                assert(!old_set.remove(h).contains(h));
                assert(old_set.remove(h).finite());
                assert(old_set.len() == old_set.remove(h).len() + (if old_set.contains(h) {
                    1int
                } else {
                    0
                }));
                assert(old_set.remove(h).insert(h).len() == old_set.remove(h).len() + 1);
                assert(t.metrics.partitions == counted.track(o, stored));
                if !o.is_tombstone() && pp == p {
                    assert(o.entry().partition as int == p);
                    lemma_sum_totals_nonneg(s.metrics.partitions);
                    assert(s.metrics.partitions[p].wf(s.metrics.liveness));
                    assert(t.metrics.partitions[p].alive == demoted[p].alive + 1);
                    assert(alive_keys(t.store, p) == old_set.remove(h).insert(h));
                } else {
                    assert(t.metrics.partitions[p].alive == demoted[p].alive);
                    assert(alive_keys(t.store, p) == old_set.remove(h));
                }
            } else {
                assert(t.store == s.store);
                assert(t.metrics.partitions == counted.track(o, stored));
                assert(t.metrics.partitions[p].alive == parts[p].alive);
            }
        }
        assert forall|k: u32| t.store.contains_key(k) implies 0 <= #[trigger] t.store[k].partition
            < n by {
            if k != h {
                assert(s.store.contains_key(k));
            }
        }
    } else {
        assert forall|p: int| 0 <= p < n implies #[trigger] t.metrics.partitions[p].alive
            == alive_keys(t.store, p).len() by {
            assert(s.metrics.partitions[p].alive == t.metrics.partitions[p].alive);
        }
    }
}

impl View for ScanState {
    type V = ScanView;

    open spec fn view(&self) -> ScanView {
        ScanView { metrics: self.metrics@, store: self.store@ }
    }
}

impl ScanState {
    pub open spec fn wf(&self) -> bool {
        self.metrics.wf() && store_agrees(self@)
    }

    /// A fresh scan over partitions `0 .. n`, with an empty store.
    pub fn new(n: usize, liveness: bool) -> (s: ScanState)
        requires
            n <= i32::MAX,
        ensures
            s.wf(),
            s@.metrics.partitions.len() == n,
            s@.metrics.liveness == liveness,
            s@.metrics.overall_count == 0,
            s@.store == Map::<u32, LivenessEntry>::empty(),
    {
        let s = ScanState { metrics: Metrics::new(n, liveness), store: HashMap::new() };
        assert forall|p: int| 0 <= p < n implies #[trigger] s@.metrics.partitions[p].alive
            == alive_keys(s@.store, p).len() by {
            assert(alive_keys(s@.store, p) =~= Set::<u32>::empty());
        }
        s
    }

    /// Folds one record into the metrics and, for a keyed record while
    /// liveness is tracked, into the store.
    pub fn observe(&mut self, obs: &RecordObservation)
        requires
            old(self).wf(),
            old(self)@.metrics.can_fold(obs@),
        ensures
            final(self).wf(),
            final(self)@ == step(old(self)@, obs@),
    {
        proof {
            lemma_step_keeps_store_agreement(self@, obs@);
        }
        match &obs.key {
            Some(k) => {
                if self.metrics.liveness {
                    let h: u32 = hash_bytes(k.as_slice());
                    let stored: Option<LivenessEntry> = match self.store.get(&h) {
                        Some(e) => Some(*e),
                        None => None,
                    };
                    let write = self.metrics.fold(obs, stored);
                    match write {
                        Some(e) => {
                            self.store.insert(h, e);
                        },
                        None => {},
                    }
                } else {
                    self.metrics.fold(obs, None);
                }
            },
            None => {
                self.metrics.fold(obs, None);
            },
        }
    }
}

} // verus!
