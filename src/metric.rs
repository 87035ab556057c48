//! Per-partition and topic-wide statistics, folded one record at a time,
//! with optional last-write-wins key liveness counters.

use vstd::prelude::*;

verus! {

/// What the liveness store holds for one hashed key: where the key was
/// last seen and whether that occurrence deleted it.
#[derive(Clone, Copy, Debug, PartialEq, Eq, Structural)]
pub struct LivenessEntry {
    pub offset: i64,
    pub partition: i32,
    pub tombstone: bool,
}

/// One record consumed from the log. A missing value marks a tombstone.
pub struct RecordObservation {
    pub partition: i32,
    pub offset: i64,
    pub timestamp: i64,
    pub key: Option<Vec<u8>>,
    pub value: Option<Vec<u8>>,
}

/// The mathematical content of a [`RecordObservation`].
pub struct ObservationView {
    pub partition: int,
    pub offset: i64,
    pub timestamp: i64,
    pub key: Option<Seq<u8>>,
    pub value: Option<Seq<u8>>,
}

pub open spec fn opt_len(b: Option<Seq<u8>>) -> nat {
    match b {
        Some(s) => s.len(),
        None => 0,
    }
}

impl ObservationView {
    pub open spec fn key_len(self) -> nat {
        opt_len(self.key)
    }

    pub open spec fn value_len(self) -> nat {
        opt_len(self.value)
    }

    /// Bytes of key and value together.
    pub open spec fn size(self) -> nat {
        self.key_len() + self.value_len()
    }

    pub open spec fn is_tombstone(self) -> bool {
        self.value is None
    }

    /// The liveness entry that this record would leave for its key.
    pub open spec fn entry(self) -> LivenessEntry {
        LivenessEntry {
            offset: self.offset,
            partition: self.partition as i32,
            tombstone: self.is_tombstone(),
        }
    }
}

impl View for RecordObservation {
    type V = ObservationView;

    open spec fn view(&self) -> ObservationView {
        ObservationView {
            partition: self.partition as int,
            offset: self.offset,
            timestamp: self.timestamp,
            key: match self.key {
                Some(k) => Some(k@),
                None => None,
            },
            value: match self.value {
                Some(v) => Some(v@),
                None => None,
            },
        }
    }
}

/// Whether `incoming` replaces what the store holds for its key: it does
/// when nothing is stored or the stored occurrence has a smaller offset.
pub open spec fn supersedes(stored: Option<LivenessEntry>, incoming: LivenessEntry) -> bool {
    match stored {
        None => true,
        Some(s) => s.offset < incoming.offset,
    }
}

/// The entry to write for a key after seeing `incoming`, or `None` when the
/// stored entry stays.
pub fn resolve_entry(stored: Option<LivenessEntry>, incoming: LivenessEntry) -> (r: Option<
    LivenessEntry,
>)
    ensures
        r == (if supersedes(stored, incoming) {
            Some(incoming)
        } else {
            None
        }),
{
    match stored {
        None => Some(incoming),
        Some(s) => {
            if s.offset < incoming.offset {
                Some(incoming)
            } else {
                None
            }
        },
    }
}

/// The counters of one partition. None of them ever decreases but `alive`,
/// which drops when a newer occurrence of a key supersedes a live value.
#[derive(Clone, Copy, Debug, PartialEq, Eq, Structural)]
pub struct PartitionMetrics {
    pub total: u64,
    pub tombstones: u64,
    pub key_null: u64,
    pub key_non_null: u64,
    pub key_size_sum: u64,
    pub value_size_sum: u64,
    /// Keys whose latest occurrence is a value in this partition.
    pub alive: u64,
    /// Values in this partition that a later occurrence of their key superseded.
    pub overwritten: u64,
    /// Values in this partition whose key is absent: they take no part in liveness.
    pub unkeyed_values: u64,
}

pub open spec fn zero_partition() -> PartitionMetrics {
    PartitionMetrics {
        total: 0,
        tombstones: 0,
        key_null: 0,
        key_non_null: 0,
        key_size_sum: 0,
        value_size_sum: 0,
        alive: 0,
        overwritten: 0,
        unkeyed_values: 0,
    }
}

impl PartitionMetrics {
    pub fn new() -> (pm: PartitionMetrics)
        ensures
            pm == zero_partition(),
    {
        PartitionMetrics {
            total: 0,
            tombstones: 0,
            key_null: 0,
            key_non_null: 0,
            key_size_sum: 0,
            value_size_sum: 0,
            alive: 0,
            overwritten: 0,
            unkeyed_values: 0,
        }
    }

    /// The counters agree with one another; with liveness tracking every
    /// record is exactly one of alive, tombstone, overwritten or unkeyed value.
    pub open spec fn wf(self, liveness: bool) -> bool {
        &&& self.key_null + self.key_non_null == self.total
        &&& self.unkeyed_values <= self.key_null
        &&& self.alive + self.tombstones + self.overwritten + self.unkeyed_values <= self.total
        &&& liveness ==> self.total == self.alive + self.tombstones + self.overwritten
            + self.unkeyed_values
        &&& !liveness ==> self.alive == 0 && self.overwritten == 0
    }

    /// The counters after the base accounting of one record of this partition.
    pub open spec fn count(self, o: ObservationView) -> PartitionMetrics {
        PartitionMetrics {
            total: (self.total + 1) as u64,
            tombstones: (self.tombstones + if o.is_tombstone() { 1int } else { 0 }) as u64,
            key_null: (self.key_null + if o.key is None { 1int } else { 0 }) as u64,
            key_non_null: (self.key_non_null + if o.key is Some { 1int } else { 0 }) as u64,
            key_size_sum: (self.key_size_sum + o.key_len()) as u64,
            value_size_sum: (self.value_size_sum + o.value_len()) as u64,
            alive: self.alive,
            overwritten: self.overwritten,
            unkeyed_values: (self.unkeyed_values + if o.key is None && o.value is Some {
                1int
            } else {
                0
            }) as u64,
        }
    }
}

/// The sum of the `total` counters of a sequence of partitions.
pub open spec fn sum_totals(s: Seq<PartitionMetrics>) -> int
    decreases s.len(),
{
    if s.len() == 0 {
        0
    } else {
        sum_totals(s.drop_last()) + s.last().total
    }
}

proof fn lemma_sum_totals_update(s: Seq<PartitionMetrics>, i: int, v: PartitionMetrics)
    requires
        0 <= i < s.len(),
    ensures
        sum_totals(s.update(i, v)) == sum_totals(s) - s[i].total + v.total,
    decreases s.len(),
{
    if i == s.len() - 1 {
        assert(s.update(i, v).drop_last() =~= s.drop_last());
    } else {
        lemma_sum_totals_update(s.drop_last(), i, v);
        assert(s.update(i, v).drop_last() =~= s.drop_last().update(i, v));
    }
}

pub(crate) proof fn lemma_sum_totals_nonneg(s: Seq<PartitionMetrics>)
    ensures
        sum_totals(s) >= 0,
        forall|i: int| 0 <= i < s.len() ==> s[i].total <= sum_totals(s),
    decreases s.len(),
{
    if s.len() > 0 {
        lemma_sum_totals_nonneg(s.drop_last());
        assert forall|i: int| 0 <= i < s.len() implies s[i].total <= sum_totals(s) by {
            if i < s.len() - 1 {
                assert(s[i] == s.drop_last()[i]);
            }
        }
    }
}

proof fn lemma_sum_totals_zero(n: nat)
    ensures
        sum_totals(Seq::new(n, |i: int| zero_partition())) == 0,
    decreases n,
{
    if n > 0 {
        lemma_sum_totals_zero((n - 1) as nat);
        assert(Seq::new(n, |i: int| zero_partition()).drop_last() =~= Seq::new(
            (n - 1) as nat,
            |i: int| zero_partition(),
        ));
    }
}

/// Topic-wide statistics: one [`PartitionMetrics`] per partition id
/// `0 .. partitions.len()`, plus scalars over all records.
pub struct Metrics {
    pub partitions: Vec<PartitionMetrics>,
    /// Whether key liveness is tracked; fixed when the metrics are made.
    pub liveness: bool,
    pub overall_count: u64,
    pub overall_size: u64,
    pub earliest: Option<i64>,
    pub latest: Option<i64>,
    pub smallest: Option<u64>,
    pub largest: u64,
}

/// The mathematical content of [`Metrics`].
pub struct MetricsView {
    pub partitions: Seq<PartitionMetrics>,
    pub liveness: bool,
    pub overall_count: u64,
    pub overall_size: u64,
    pub earliest: Option<i64>,
    pub latest: Option<i64>,
    pub smallest: Option<u64>,
    pub largest: u64,
}

impl View for Metrics {
    type V = MetricsView;

    open spec fn view(&self) -> MetricsView {
        MetricsView {
            partitions: self.partitions@,
            liveness: self.liveness,
            overall_count: self.overall_count,
            overall_size: self.overall_size,
            earliest: self.earliest,
            latest: self.latest,
            smallest: self.smallest,
            largest: self.largest,
        }
    }
}

pub open spec fn opt_min(a: Option<i64>, b: i64) -> Option<i64> {
    match a {
        Some(x) => Some(if x <= b { x } else { b }),
        None => Some(b),
    }
}

pub open spec fn opt_max(a: Option<i64>, b: i64) -> Option<i64> {
    match a {
        Some(x) => Some(if x >= b { x } else { b }),
        None => Some(b),
    }
}

impl MetricsView {
    /// The counters of partition `p`; all zero for an id outside the topic.
    pub open spec fn part(self, p: int) -> PartitionMetrics {
        if 0 <= p < self.partitions.len() {
            self.partitions[p]
        } else {
            zero_partition()
        }
    }

    pub open spec fn wf(self) -> bool {
        &&& forall|i: int|
            0 <= i < self.partitions.len() ==> #[trigger] self.partitions[i].wf(self.liveness)
        &&& self.overall_count == sum_totals(self.partitions)
        &&& self.partitions.len() <= i32::MAX
        &&& (self.overall_count == 0 <==> self.earliest is None)
        &&& (self.earliest is None <==> self.latest is None)
        &&& (self.earliest is None <==> self.smallest is None)
        &&& self.overall_count == 0 ==> self.overall_size == 0 && self.largest == 0
        &&& forall|i: int|
            0 <= i < self.partitions.len() ==> #[trigger] self.partitions[i].key_size_sum
                + self.partitions[i].value_size_sum <= self.overall_size
    }

    /// The liveness counters after a keyed record arrives while the store
    /// holds `stored` for its key: a superseded live value moves from alive
    /// to overwritten, and the new record is alive if it wins and is a value,
    /// overwritten if it loses and is a value.
    pub open spec fn track(self, o: ObservationView, stored: Option<LivenessEntry>) -> Seq<
        PartitionMetrics,
    > {
        let p = o.partition;
        let parts = self.partitions;
        if supersedes(stored, o.entry()) {
            let demoted = match stored {
                Some(s) => if !s.tombstone && 0 <= s.partition < parts.len()
                    && parts[s.partition as int].alive > 0 {
                    let q = parts[s.partition as int];
                    parts.update(
                        s.partition as int,
                        PartitionMetrics {
                            alive: (q.alive - 1) as u64,
                            overwritten: (q.overwritten + 1) as u64,
                            ..q
                        },
                    )
                } else {
                    parts
                },
                None => parts,
            };
            if o.is_tombstone() {
                demoted
            } else {
                demoted.update(p, PartitionMetrics { alive: (demoted[p].alive + 1) as u64, ..demoted[p] })
            }
        } else if o.is_tombstone() {
            parts
        } else {
            parts.update(p, PartitionMetrics { overwritten: (parts[p].overwritten + 1) as u64, ..parts[p] })
        }
    }

    /// The metrics after folding in one record, `stored` being what the
    /// liveness store held for its key beforehand.
    pub open spec fn fold(self, o: ObservationView, stored: Option<LivenessEntry>) -> MetricsView {
        let counted = MetricsView {
            partitions: self.partitions.update(o.partition, self.partitions[o.partition].count(o)),
            ..self
        };
        MetricsView {
            partitions: if self.liveness && o.key is Some {
                counted.track(o, stored)
            } else {
                counted.partitions
            },
            liveness: self.liveness,
            overall_count: (self.overall_count + 1) as u64,
            overall_size: (self.overall_size + o.size()) as u64,
            earliest: opt_min(self.earliest, o.timestamp),
            latest: opt_max(self.latest, o.timestamp),
            smallest: match self.smallest {
                Some(x) => Some(if x <= o.size() { x } else { o.size() as u64 }),
                None => Some(o.size() as u64),
            },
            largest: if self.largest >= o.size() { self.largest } else { o.size() as u64 },
        }
    }

    /// Folding `o` into these metrics overflows no counter.
    pub open spec fn can_fold(self, o: ObservationView) -> bool {
        &&& 0 <= o.partition < self.partitions.len()
        &&& self.overall_count < u64::MAX
        &&& self.overall_size + o.size() <= u64::MAX
        &&& self.partitions[o.partition].key_size_sum + o.key_len() <= u64::MAX
        &&& self.partitions[o.partition].value_size_sum + o.value_len() <= u64::MAX
    }
}

proof fn lemma_track_keeps_totals(m: MetricsView, o: ObservationView, stored: Option<LivenessEntry>)
    requires
        0 <= o.partition < m.partitions.len(),
    ensures
        m.track(o, stored).len() == m.partitions.len(),
        forall|i: int|
            0 <= i < m.partitions.len() ==> (#[trigger] m.track(o, stored)[i]).total
                == m.partitions[i].total,
        sum_totals(m.track(o, stored)) == sum_totals(m.partitions),
{
    let p = o.partition;
    let parts = m.partitions;
    if supersedes(stored, o.entry()) {
        let demoted = match stored {
            Some(s) => if !s.tombstone && 0 <= s.partition < parts.len()
                && parts[s.partition as int].alive > 0 {
                let q = parts[s.partition as int];
                let v = PartitionMetrics {
                    alive: (q.alive - 1) as u64,
                    overwritten: (q.overwritten + 1) as u64,
                    ..q
                };
                lemma_sum_totals_update(parts, s.partition as int, v);
                parts.update(s.partition as int, v)
            } else {
                parts
            },
            None => parts,
        };
        if !o.is_tombstone() {
            lemma_sum_totals_update(
                demoted,
                p,
                PartitionMetrics { alive: (demoted[p].alive + 1) as u64, ..demoted[p] },
            );
        }
    } else if !o.is_tombstone() {
        lemma_sum_totals_update(
            parts,
            p,
            PartitionMetrics { overwritten: (parts[p].overwritten + 1) as u64, ..parts[p] },
        );
    }
}

proof fn lemma_fold_wf(m: MetricsView, o: ObservationView, stored: Option<LivenessEntry>)
    requires
        m.wf(),
        m.can_fold(o),
    ensures
        m.fold(o, stored).wf(),
        m.fold(o, stored).partitions.len() == m.partitions.len(),
        m.fold(o, stored).liveness == m.liveness,
{
    let p = o.partition;
    lemma_sum_totals_nonneg(m.partitions);
    assert(m.partitions[p].wf(m.liveness));
    let c = m.partitions[p].count(o);
    let counted = MetricsView { partitions: m.partitions.update(p, c), ..m };
    lemma_sum_totals_update(m.partitions, p, c);
    assert forall|i: int|
        0 <= i < counted.partitions.len() && !(m.liveness && o.key is Some)
            implies #[trigger] counted.partitions[i].wf(m.liveness) by {
        if i != p {
            assert(counted.partitions[i] == m.partitions[i]);
        }
    }
    let f = m.fold(o, stored);
    if m.liveness && o.key is Some {
        lemma_track_keeps_totals(counted, o, stored);
        let parts = counted.partitions;
        assert forall|i: int| 0 <= i < f.partitions.len() implies #[trigger] f.partitions[i].wf(
            m.liveness,
        ) by {
            assert(m.partitions[i].wf(m.liveness));
            if i != p {
                assert(parts[i] == m.partitions[i]);
            } else {
                assert(parts[i] == c);
            }
            if supersedes(stored, o.entry()) {
                let demoted = match stored {
                    Some(s) => if !s.tombstone && 0 <= s.partition < parts.len()
                        && parts[s.partition as int].alive > 0 {
                        let q = parts[s.partition as int];
                        parts.update(
                            s.partition as int,
                            PartitionMetrics {
                                alive: (q.alive - 1) as u64,
                                overwritten: (q.overwritten + 1) as u64,
                                ..q
                            },
                        )
                    } else {
                        parts
                    },
                    None => parts,
                };
                assert(i != p ==> demoted[i].wf(m.liveness));
            }
        }
    }
}

impl Metrics {
    pub open spec fn wf(&self) -> bool {
        self@.wf()
    }

    /// Empty metrics for partitions `0 .. n`, tracking key liveness if asked.
    pub fn new(n: usize, liveness: bool) -> (m: Metrics)
        requires
            n <= i32::MAX,
        ensures
            m.wf(),
            m@.partitions == Seq::new(n as nat, |i: int| zero_partition()),
            m@.liveness == liveness,
            m@.overall_count == 0,
            m@.overall_size == 0,
            m@.earliest is None,
            m@.latest is None,
            m@.smallest is None,
            m@.largest == 0,
    {
        let mut partitions: Vec<PartitionMetrics> = Vec::new();
        let mut i: usize = 0;
        while i < n
            invariant
                i <= n,
                partitions@ == Seq::new(i as nat, |j: int| zero_partition()),
            decreases n - i,
        {
            partitions.push(PartitionMetrics::new());
            i = i + 1;
            assert(partitions@ =~= Seq::new(i as nat, |j: int| zero_partition()));
        }
        proof {
            lemma_sum_totals_zero(n as nat);
        }
        Metrics {
            partitions,
            liveness,
            overall_count: 0,
            overall_size: 0,
            earliest: None,
            latest: None,
            smallest: None,
            largest: 0,
        }
    }

    /// Folds one record into its partition's counters and the topic-wide
    /// scalars. `stored` is what the liveness store holds for the record's
    /// key (`None` when it holds nothing). The result is the entry to write
    /// back for that key, if any: there is one only when liveness is
    /// tracked, the record has a key and it supersedes `stored`.
    pub fn fold(&mut self, obs: &RecordObservation, stored: Option<LivenessEntry>) -> (write:
        Option<LivenessEntry>)
        requires
            old(self).wf(),
            old(self)@.can_fold(obs@),
        ensures
            final(self).wf(),
            final(self)@ == old(self)@.fold(obs@, stored),
            write == (if old(self).liveness && obs.key is Some && supersedes(
                stored,
                obs@.entry(),
            ) {
                Some(obs@.entry())
            } else {
                None
            }),
    {
        proof {
            lemma_fold_wf(self@, obs@, stored);
            lemma_sum_totals_nonneg(self@.partitions);
            assert(self@.partitions[obs@.partition].wf(self.liveness));
        }
        let ghost m0 = self@;
        let p: usize = obs.partition as usize;
        let key_len: usize = match &obs.key {
            Some(k) => k.len(),
            None => 0,
        };
        let value_len: usize = match &obs.value {
            Some(v) => v.len(),
            None => 0,
        };
        let size: u64 = key_len as u64 + value_len as u64;
        let tombstone: bool = obs.value.is_none();
        let keyed: bool = obs.key.is_some();
        let mut pm: PartitionMetrics = self.partitions[p];
        pm.total = pm.total + 1;
        if tombstone {
            pm.tombstones = pm.tombstones + 1;
        }
        if keyed {
            pm.key_non_null = pm.key_non_null + 1;
        } else {
            pm.key_null = pm.key_null + 1;
            if !tombstone {
                pm.unkeyed_values = pm.unkeyed_values + 1;
            }
        }
        pm.key_size_sum = pm.key_size_sum + key_len as u64;
        pm.value_size_sum = pm.value_size_sum + value_len as u64;
        self.partitions.set(p, pm);
        assert(self.partitions@ == m0.partitions.update(p as int, m0.partitions[p as int].count(obs@)));
        let ghost counted = MetricsView { partitions: self.partitions@, ..m0 };
        let mut write: Option<LivenessEntry> = None;
        if self.liveness && keyed {
            let incoming = LivenessEntry {
                offset: obs.offset,
                partition: obs.partition,
                tombstone,
            };
            write = resolve_entry(stored, incoming);
            if write.is_some() {
                match stored {
                    Some(s) => {
                        if !s.tombstone && 0 <= s.partition && (s.partition as usize)
                            < self.partitions.len() {
                            let q: usize = s.partition as usize;
                            let mut qm: PartitionMetrics = self.partitions[q];
                            if qm.alive > 0 {
                                assert(m0.partitions[q as int].wf(m0.liveness));
                                assert(qm.overwritten <= m0.partitions[q as int].total);
                                qm.alive = qm.alive - 1;
                                qm.overwritten = qm.overwritten + 1;
                                self.partitions.set(q, qm);
                            }
                        }
                    },
                    None => {},
                }
                if !tombstone {
                    let mut pm2: PartitionMetrics = self.partitions[p];
                    assert(pm2.alive <= m0.partitions[p as int].total);
                    pm2.alive = pm2.alive + 1;
                    self.partitions.set(p, pm2);
                }
            } else if !tombstone {
                let mut pm2: PartitionMetrics = self.partitions[p];
                pm2.overwritten = pm2.overwritten + 1;
                self.partitions.set(p, pm2);
            }
            assert(self.partitions@ =~= counted.track(obs@, stored));
        }
        self.overall_count = self.overall_count + 1;
        self.overall_size = self.overall_size + size;
        self.earliest = match self.earliest {
            Some(x) => Some(if x <= obs.timestamp { x } else { obs.timestamp }),
            None => Some(obs.timestamp),
        };
        self.latest = match self.latest {
            Some(x) => Some(if x >= obs.timestamp { x } else { obs.timestamp }),
            None => Some(obs.timestamp),
        };
        self.smallest = match self.smallest {
            Some(x) => Some(if x <= size { x } else { size }),
            None => Some(size),
        };
        if self.largest < size {
            self.largest = size;
        }
        write
    }
}

/// `sum / count` rounded down, and zero when nothing was counted.
pub open spec fn avg(sum: int, count: int) -> int {
    if count > 0 {
        sum / count
    } else {
        0
    }
}

/// Ten-thousandths of the records of a partition that are not the live
/// value of their key: `10000 * (total - alive) / total`, zero when empty.
pub open spec fn dirty_ratio_of(pm: PartitionMetrics) -> int {
    if pm.total > 0 {
        10000 * (pm.total - pm.alive) / (pm.total as int)
    } else {
        0
    }
}

fn average(sum: u64, count: u64) -> (r: u64)
    ensures
        r == avg(sum as int, count as int),
{
    if count > 0 {
        sum / count
    } else {
        0
    }
}

impl Metrics {
    fn part(&self, partition: i32) -> (r: PartitionMetrics)
        ensures
            r == self@.part(partition as int),
    {
        if 0 <= partition && (partition as usize) < self.partitions.len() {
            self.partitions[partition as usize]
        } else {
            PartitionMetrics::new()
        }
    }

    /// Records folded in so far, over all partitions.
    pub fn overall_count(&self) -> (r: u64)
        ensures
            r == self@.overall_count,
    {
        self.overall_count
    }

    /// Key and value bytes of every record folded in so far.
    pub fn overall_size(&self) -> (r: u64)
        ensures
            r == self@.overall_size,
    {
        self.overall_size
    }

    /// The smallest record timestamp seen, `None` before the first record.
    pub fn earliest_message(&self) -> (r: Option<i64>)
        ensures
            r == self@.earliest,
    {
        self.earliest
    }

    /// The largest record timestamp seen, `None` before the first record.
    pub fn latest_message(&self) -> (r: Option<i64>)
        ensures
            r == self@.latest,
    {
        self.latest
    }

    /// The size of the largest record seen, zero before the first record.
    pub fn largest_message(&self) -> (r: u64)
        ensures
            r == self@.largest,
    {
        self.largest
    }

    /// The size of the smallest record seen, zero before the first record.
    pub fn smallest_message(&self) -> (r: u64)
        ensures
            r == match self@.smallest {
                Some(x) => x,
                None => 0,
            },
    {
        match self.smallest {
            Some(x) => x,
            None => 0,
        }
    }

    pub fn total(&self, partition: i32) -> (r: u64)
        ensures
            r == self@.part(partition as int).total,
    {
        self.part(partition).total
    }

    /// Keys whose latest occurrence is a value in `partition`; `None` when
    /// liveness is not tracked, since the count is then undefined.
    pub fn alive(&self, partition: i32) -> (r: Option<u64>)
        ensures
            r == (if self@.liveness {
                Some(self@.part(partition as int).alive)
            } else {
                None
            }),
    {
        if self.liveness {
            Some(self.part(partition).alive)
        } else {
            None
        }
    }

    /// Values in `partition` superseded by a later occurrence of their key;
    /// `None` when liveness is not tracked.
    pub fn overwritten(&self, partition: i32) -> (r: Option<u64>)
        ensures
            r == (if self@.liveness {
                Some(self@.part(partition as int).overwritten)
            } else {
                None
            }),
    {
        if self.liveness {
            Some(self.part(partition).overwritten)
        } else {
            None
        }
    }

    pub fn tombstones(&self, partition: i32) -> (r: u64)
        ensures
            r == self@.part(partition as int).tombstones,
    {
        self.part(partition).tombstones
    }

    pub fn key_null(&self, partition: i32) -> (r: u64)
        ensures
            r == self@.part(partition as int).key_null,
    {
        self.part(partition).key_null
    }

    pub fn key_non_null(&self, partition: i32) -> (r: u64)
        ensures
            r == self@.part(partition as int).key_non_null,
    {
        self.part(partition).key_non_null
    }

    pub fn key_size_sum(&self, partition: i32) -> (r: u64)
        ensures
            r == self@.part(partition as int).key_size_sum,
    {
        self.part(partition).key_size_sum
    }

    pub fn value_size_sum(&self, partition: i32) -> (r: u64)
        ensures
            r == self@.part(partition as int).value_size_sum,
    {
        self.part(partition).value_size_sum
    }

    /// Key and value bytes of the records of `partition`.
    pub fn size_sum(&self, partition: i32) -> (r: u64)
        requires
            self.wf(),
        ensures
            r == self@.part(partition as int).key_size_sum + self@.part(
                partition as int,
            ).value_size_sum,
    {
        let pm = self.part(partition);
        proof {
            if 0 <= partition < self@.partitions.len() {
                assert(self@.partitions[partition as int].key_size_sum
                    + self@.partitions[partition as int].value_size_sum <= self@.overall_size);
            }
        }
        pm.key_size_sum + pm.value_size_sum
    }

    pub fn key_size_avg(&self, partition: i32) -> (r: u64)
        ensures
            r == avg(
                self@.part(partition as int).key_size_sum as int,
                self@.part(partition as int).total as int,
            ),
    {
        let pm = self.part(partition);
        average(pm.key_size_sum, pm.total)
    }

    pub fn value_size_avg(&self, partition: i32) -> (r: u64)
        ensures
            r == avg(
                self@.part(partition as int).value_size_sum as int,
                self@.part(partition as int).total as int,
            ),
    {
        let pm = self.part(partition);
        average(pm.value_size_sum, pm.total)
    }

    pub fn message_size_avg(&self, partition: i32) -> (r: u64)
        requires
            self.wf(),
        ensures
            r == avg(
                self@.part(partition as int).key_size_sum + self@.part(
                    partition as int,
                ).value_size_sum,
                self@.part(partition as int).total as int,
            ),
    {
        let sum = self.size_sum(partition);
        average(sum, self.part(partition).total)
    }

    /// The dirty ratio of `partition` in ten-thousandths; `None` when
    /// liveness is not tracked.
    pub fn dirty_ratio(&self, partition: i32) -> (r: Option<u64>)
        requires
            self.wf(),
        ensures
            r == (if self@.liveness {
                Some(dirty_ratio_of(self@.part(partition as int)) as u64)
            } else {
                None
            }),
            r matches Some(x) ==> x <= 10000,
    {
        if !self.liveness {
            return None;
        }
        let pm = self.part(partition);
        proof {
            if 0 <= partition < self@.partitions.len() {
                assert(self@.partitions[partition as int].wf(self@.liveness));
            }
        }
        if pm.total == 0 {
            return Some(0);
        }
        let dirty: u128 = (pm.total - pm.alive) as u128;
        let scaled: u128 = dirty * 10000;
        let r: u128 = scaled / (pm.total as u128);
        proof {
            assert(dirty * 10000 <= (pm.total as int) * 10000) by (nonlinear_arith)
                requires
                    dirty <= pm.total,
            ;
            assert((scaled as int) / (pm.total as int) <= 10000) by (nonlinear_arith)
                requires
                    (scaled as int) <= (pm.total as int) * 10000,
                    pm.total > 0,
            ;
        }
        Some(r as u64)
    }
}

/// With no records in any partition the topic-wide count is zero and every
/// average of every partition is the zero sentinel.
pub proof fn lemma_empty_topic(m: MetricsView)
    requires
        m.wf(),
        forall|i: int| 0 <= i < m.partitions.len() ==> #[trigger] m.partitions[i].total == 0,
    ensures
        m.overall_count == 0,
        m.overall_size == 0,
        m.earliest is None,
        m.latest is None,
        forall|p: int|
            {
                &&& avg(#[trigger] m.part(p).key_size_sum as int, m.part(p).total as int) == 0
                &&& avg(m.part(p).value_size_sum as int, m.part(p).total as int) == 0
                &&& avg(m.part(p).key_size_sum + m.part(p).value_size_sum, m.part(p).total as int)
                    == 0
                &&& dirty_ratio_of(m.part(p)) == 0
            },
{
    lemma_sum_totals_all_zero(m.partitions);
}

proof fn lemma_sum_totals_all_zero(s: Seq<PartitionMetrics>)
    requires
        forall|i: int| 0 <= i < s.len() ==> #[trigger] s[i].total == 0,
    ensures
        sum_totals(s) == 0,
    decreases s.len(),
{
    if s.len() > 0 {
        let t = s.drop_last();
        assert forall|i: int| 0 <= i < t.len() implies #[trigger] t[i].total == 0 by {
            assert(t[i] == s[i]);
        }
        lemma_sum_totals_all_zero(t);
    }
}

/// With liveness tracked, every record of a partition is exactly one of: a
/// live value, a tombstone, a value superseded later, or a value without a
/// key. So where every value has a key,
/// `total == alive + tombstones + overwritten`.
pub proof fn lemma_total_decomposes(m: MetricsView, p: int)
    requires
        m.wf(),
        m.liveness,
    ensures
        m.part(p).total == m.part(p).alive + m.part(p).tombstones + m.part(p).overwritten
            + m.part(p).unkeyed_values,
        m.part(p).unkeyed_values == 0 ==> m.part(p).total == m.part(p).alive + m.part(
            p,
        ).tombstones + m.part(p).overwritten,
{
    if 0 <= p < m.partitions.len() {
        assert(m.partitions[p].wf(m.liveness));
    }
}

} // verus!
