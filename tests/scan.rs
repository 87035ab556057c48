use topic_analyzer::boundary::{BoundaryError, PartitionBoundary, PartitionCursor, ScanDecision, ScanProgress};
use topic_analyzer::fnv32::{hash_bytes, FnvHasher};
use topic_analyzer::liveness::ScanState;
use topic_analyzer::metric::{resolve_entry, LivenessEntry, Metrics, RecordObservation};
use topic_analyzer::retry::{Backoff, FetchAction};

fn record(partition: i32, offset: i64, key: Option<&[u8]>, value: Option<&[u8]>) -> RecordObservation {
    RecordObservation {
        partition,
        offset,
        timestamp: 1000 + offset,
        key: key.map(|k| k.to_vec()),
        value: value.map(|v| v.to_vec()),
    }
}

#[test]
fn fresh_hasher_holds_offset_basis() {
    assert_eq!(FnvHasher::default().finish(), 0x811c9dc5);
    assert_eq!(FnvHasher::new().finish(), 0x811c9dc5);
    assert_eq!(hash_bytes(b""), 0x811c9dc5);
}

#[test]
fn hasher_known_values() {
    assert_eq!(hash_bytes(b"a"), 0xc9a2e334);
    assert_eq!(hash_bytes(b"ab"), 0x432caf2e);
    assert_eq!(hash_bytes(b"A"), 0xa60f2a94);
    assert_eq!(hash_bytes(b"B"), 0x296503e3);
}

#[test]
fn hasher_split_writes_match_one_write() {
    let mut h = FnvHasher::default();
    h.write(b"a");
    h.write(b"b");
    assert_eq!(h.finish(), hash_bytes(b"ab"));
}

#[test]
fn hasher_is_deterministic() {
    let data: Vec<u8> = (0u8..=255).collect();
    assert_eq!(hash_bytes(&data), hash_bytes(&data));
    let mut a = FnvHasher::default();
    let mut b = FnvHasher::default();
    a.write(&data);
    b.write(&data);
    assert_eq!(a.finish(), b.finish());
}

#[test]
fn empty_topic_reports_zero_sentinels() {
    let m = Metrics::new(3, true);
    assert_eq!(m.overall_count(), 0);
    assert_eq!(m.overall_size(), 0);
    assert_eq!(m.earliest_message(), None);
    assert_eq!(m.latest_message(), None);
    assert_eq!(m.largest_message(), 0);
    assert_eq!(m.smallest_message(), 0);
    for p in 0..3 {
        assert_eq!(m.total(p), 0);
        assert_eq!(m.key_size_avg(p), 0);
        assert_eq!(m.value_size_avg(p), 0);
        assert_eq!(m.message_size_avg(p), 0);
        assert_eq!(m.dirty_ratio(p), Some(0));
        assert_eq!(m.alive(p), Some(0));
    }
}

#[test]
fn alive_is_undefined_without_liveness() {
    let mut s = ScanState::new(1, false);
    s.observe(&record(0, 0, Some(b"k"), Some(b"v")));
    assert_eq!(s.metrics.alive(0), None);
    assert_eq!(s.metrics.overwritten(0), None);
    assert_eq!(s.metrics.dirty_ratio(0), None);
    assert_eq!(s.metrics.total(0), 1);
    assert!(s.store.is_empty());
}

#[test]
fn sizes_and_averages() {
    let mut s = ScanState::new(1, false);
    s.observe(&record(0, 0, Some(b"ab"), Some(b"hello")));
    s.observe(&record(0, 1, Some(b"c"), Some(b"xy")));
    s.observe(&record(0, 2, None, None));
    let m = &s.metrics;
    assert_eq!(m.total(0), 3);
    assert_eq!(m.key_size_sum(0), 3);
    assert_eq!(m.value_size_sum(0), 7);
    assert_eq!(m.size_sum(0), 10);
    assert_eq!(m.key_size_avg(0), 1);
    assert_eq!(m.value_size_avg(0), 2);
    assert_eq!(m.message_size_avg(0), 3);
    assert_eq!(m.overall_size(), 10);
    assert_eq!(m.largest_message(), 7);
    assert_eq!(m.smallest_message(), 0);
    assert_eq!(m.earliest_message(), Some(1000));
    assert_eq!(m.latest_message(), Some(1002));
    assert_eq!(m.tombstones(0), 1);
    assert_eq!(m.key_null(0), 1);
    assert_eq!(m.key_non_null(0), 2);
}

#[test]
fn unknown_partition_reads_as_empty() {
    let m = Metrics::new(2, true);
    assert_eq!(m.total(7), 0);
    assert_eq!(m.total(-1), 0);
    assert_eq!(m.key_size_avg(7), 0);
}

#[test]
fn resolve_keeps_the_larger_offset() {
    let old = LivenessEntry { offset: 9, partition: 0, tombstone: true };
    let newer = LivenessEntry { offset: 12, partition: 1, tombstone: false };
    let older = LivenessEntry { offset: 7, partition: 0, tombstone: false };
    assert_eq!(resolve_entry(None, older), Some(older));
    assert_eq!(resolve_entry(Some(old), newer), Some(newer));
    assert_eq!(resolve_entry(Some(old), older), None);
    assert_eq!(resolve_entry(Some(old), old), None);
}

#[test]
fn last_write_wins_by_offset_not_arrival() {
    let mut s = ScanState::new(1, true);
    s.observe(&record(0, 5, Some(b"k"), Some(b"v5")));
    s.observe(&record(0, 7, Some(b"k"), Some(b"v7")));
    s.observe(&record(0, 9, Some(b"k"), None));
    let e = s.store.get(&hash_bytes(b"k")).copied();
    assert_eq!(e, Some(LivenessEntry { offset: 9, partition: 0, tombstone: true }));
    assert_eq!(s.metrics.alive(0), Some(0));

    let mut t = ScanState::new(1, true);
    t.observe(&record(0, 5, Some(b"k"), Some(b"v5")));
    t.observe(&record(0, 9, Some(b"k"), None));
    t.observe(&record(0, 7, Some(b"k"), Some(b"v7")));
    let e = t.store.get(&hash_bytes(b"k")).copied();
    assert_eq!(e, Some(LivenessEntry { offset: 9, partition: 0, tombstone: true }));
    assert_eq!(t.metrics.alive(0), Some(0));
    assert_eq!(t.metrics.overwritten(0), Some(2));
    assert_eq!(t.metrics.tombstones(0), 1);
}

#[test]
fn two_partitions_with_overwritten_key() {
    let mut s = ScanState::new(2, true);
    s.observe(&record(0, 0, Some(b"A"), Some(b"v1")));
    s.observe(&record(0, 1, Some(b"B"), Some(b"v2")));
    s.observe(&record(0, 2, Some(b"A"), Some(b"v3")));
    let m = &s.metrics;
    assert_eq!(m.total(0), 3);
    assert_eq!(m.total(1), 0);
    assert_eq!(m.overall_count(), 3);
    // A's last value and B's value are live; A's first value was superseded.
    assert_eq!(m.alive(0), Some(2));
    assert_eq!(m.overwritten(0), Some(1));
    assert_eq!(m.dirty_ratio(0), Some(3333));
    assert_eq!(m.alive(1), Some(0));
    assert_eq!(s.store.len(), 2);
}

#[test]
fn null_key_leaves_liveness_alone() {
    let mut s = ScanState::new(1, true);
    s.observe(&record(0, 0, Some(b"A"), Some(b"v1")));
    s.observe(&record(0, 1, None, Some(b"v2")));
    assert_eq!(s.metrics.key_null(0), 1);
    assert_eq!(s.metrics.alive(0), Some(1));
    assert_eq!(s.store.len(), 1);
    s.observe(&record(0, 2, None, None));
    assert_eq!(s.metrics.key_null(0), 2);
    assert_eq!(s.metrics.alive(0), Some(1));
    assert_eq!(s.store.len(), 1);
}

#[test]
fn keyed_records_decompose_into_alive_tombstones_overwritten() {
    let mut s = ScanState::new(2, true);
    s.observe(&record(0, 0, Some(b"x"), Some(b"1")));
    s.observe(&record(1, 3, Some(b"x"), Some(b"2")));
    s.observe(&record(0, 1, Some(b"y"), Some(b"3")));
    s.observe(&record(1, 4, Some(b"y"), None));
    s.observe(&record(0, 2, Some(b"z"), Some(b"4")));
    let m = &s.metrics;
    for p in 0..2 {
        assert_eq!(
            m.total(p),
            m.alive(p).unwrap() + m.tombstones(p) + m.overwritten(p).unwrap()
        );
    }
    assert_eq!(m.alive(0), Some(1));
    assert_eq!(m.overwritten(0), Some(2));
    assert_eq!(m.alive(1), Some(1));
    assert_eq!(m.tombstones(1), 1);
}

#[test]
fn rescanning_gives_identical_metrics() {
    let records = vec![
        record(0, 0, Some(b"a"), Some(b"1")),
        record(1, 0, None, Some(b"22")),
        record(0, 1, Some(b"a"), None),
    ];
    let mut first = ScanState::new(2, true);
    let mut second = ScanState::new(2, true);
    for r in &records {
        first.observe(r);
    }
    for r in &records {
        second.observe(r);
    }
    for p in 0..2 {
        assert_eq!(first.metrics.partitions[p], second.metrics.partitions[p]);
    }
    assert_eq!(first.metrics.overall_count(), second.metrics.overall_count());
    assert_eq!(first.metrics.overall_size(), second.metrics.overall_size());
}

#[test]
fn cursor_stops_at_boundary() {
    let mut c = PartitionCursor::new(PartitionBoundary { earliest: 0, end: 3 });
    assert!(!c.is_done());
    assert_eq!(c.last_consumed(), None);
    assert_eq!(c.decide(0), ScanDecision::Consume);
    assert_eq!(c.decide(0), ScanDecision::Skip);
    assert_eq!(c.decide(1), ScanDecision::Consume);
    assert_eq!(c.decide(2), ScanDecision::Consume);
    assert!(c.is_done());
    assert_eq!(c.last_consumed(), Some(2));
    // written after the boundary was captured
    assert_eq!(c.decide(3), ScanDecision::Skip);
    assert_eq!(c.decide(10), ScanDecision::Skip);
    assert_eq!(c.last_consumed(), Some(2));
}

#[test]
fn cursor_over_empty_partition_is_done_at_once() {
    let c = PartitionCursor::new(PartitionBoundary { earliest: 4, end: 4 });
    assert!(c.is_done());
}

#[test]
fn progress_from_watermarks() {
    let mut p = ScanProgress::from_watermarks(&vec![(0, 2), (5, 5)]).unwrap();
    assert!(!p.all_done());
    assert_eq!(p.decide(1, 5), ScanDecision::Skip);
    assert_eq!(p.decide(0, 0), ScanDecision::Consume);
    assert_eq!(p.decide(2, 0), ScanDecision::Skip);
    assert_eq!(p.decide(0, 1), ScanDecision::Consume);
    assert!(p.all_done());
}

#[test]
fn inverted_watermarks_are_refused() {
    let r = ScanProgress::from_watermarks(&vec![(0, 2), (7, 3), (9, 1)]);
    assert!(matches!(r, Err(BoundaryError::Inverted(1))));
}

#[test]
fn pending_names_unfinished_partitions() {
    let mut p = ScanProgress::from_watermarks(&vec![(0, 3), (2, 2), (10, 12)]).unwrap();
    assert_eq!(p.pending(), vec![(0, None), (2, None)]);
    p.decide(0, 0);
    p.decide(2, 10);
    p.decide(2, 11);
    assert_eq!(p.pending(), vec![(0, Some(0))]);
}

#[test]
fn backoff_doubles_then_fails() {
    let mut b = Backoff::new();
    let mut waits = Vec::new();
    for _ in 0..6 {
        match b.on_failure() {
            FetchAction::Wait(ms) => waits.push(ms),
            FetchAction::Fail => panic!("gave up too early"),
        }
    }
    assert_eq!(waits, vec![100, 200, 400, 800, 1600, 3200]);
    assert_eq!(b.on_failure(), FetchAction::Fail);
    b.on_success();
    assert_eq!(b.on_failure(), FetchAction::Wait(100));
}
