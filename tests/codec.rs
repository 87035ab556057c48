use topic_analyzer::codec::{decode_entry, encode_entry, hash_key};
use topic_analyzer::metric::LivenessEntry;

#[test]
fn entry_layout() {
    let e = LivenessEntry { offset: 258, partition: 1, tombstone: true };
    assert_eq!(encode_entry(&e), vec![0, 0, 0, 0, 0, 0, 1, 2, 0, 0, 0, 1, 1]);
    let n = LivenessEntry { offset: -1, partition: -2, tombstone: false };
    assert_eq!(
        encode_entry(&n),
        vec![255, 255, 255, 255, 255, 255, 255, 255, 255, 255, 255, 254, 0]
    );
}

#[test]
fn entry_round_trip() {
    for e in [
        LivenessEntry { offset: 0, partition: 0, tombstone: false },
        LivenessEntry { offset: i64::MAX, partition: i32::MAX, tombstone: true },
        LivenessEntry { offset: i64::MIN, partition: i32::MIN, tombstone: false },
        LivenessEntry { offset: 0x0102030405060708, partition: 0x0a0b0c0d, tombstone: true },
    ] {
        assert_eq!(decode_entry(&encode_entry(&e)), Some(e));
    }
}

#[test]
fn malformed_entries_are_refused() {
    assert_eq!(decode_entry(&[]), None);
    assert_eq!(decode_entry(&[0; 12]), None);
    assert_eq!(decode_entry(&[0; 14]), None);
    let mut b = vec![0u8; 13];
    b[12] = 2;
    assert_eq!(decode_entry(&b), None);
}

#[test]
fn store_key_is_big_endian_hash() {
    assert_eq!(hash_key(0x01020304), vec![1, 2, 3, 4]);
    assert_eq!(hash_key(0x811c9dc5), vec![0x81, 0x1c, 0x9d, 0xc5]);
}
