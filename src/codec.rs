//! The byte layout of liveness store keys and entries: a key is the 32-bit
//! key hash, big-endian; an entry is the offset (8 bytes, big-endian two's
//! complement), the partition (4 bytes, likewise) and a tombstone flag byte.

use vstd::prelude::*;
use crate::metric::LivenessEntry;

verus! {

/// Bytes in an encoded entry.
pub const ENTRY_LEN: usize = 13;

pub open spec fn be_u32(x: u32) -> Seq<u8> {
    seq![(x >> 24u32) as u8, (x >> 16u32) as u8, (x >> 8u32) as u8, x as u8]
}

pub open spec fn be_u64(x: u64) -> Seq<u8> {
    seq![
        (x >> 56u64) as u8,
        (x >> 48u64) as u8,
        (x >> 40u64) as u8,
        (x >> 32u64) as u8,
        (x >> 24u64) as u8,
        (x >> 16u64) as u8,
        (x >> 8u64) as u8,
        x as u8,
    ]
}

/// The stored form of an entry.
pub open spec fn entry_bytes(e: LivenessEntry) -> Seq<u8> {
    be_u64(e.offset as u64) + be_u32(e.partition as u32) + seq![
        if e.tombstone {
            1u8
        } else {
            0u8
        },
    ]
}

fn u64_from_be(b0: u8, b1: u8, b2: u8, b3: u8, b4: u8, b5: u8, b6: u8, b7: u8) -> (x: u64)
    ensures
        be_u64(x) == seq![b0, b1, b2, b3, b4, b5, b6, b7],
{
    let x: u64 = ((b0 as u64) << 56u64) | ((b1 as u64) << 48u64) | ((b2 as u64) << 40u64) | ((
    b3 as u64) << 32u64) | ((b4 as u64) << 24u64) | ((b5 as u64) << 16u64) | ((b6 as u64)
        << 8u64) | (b7 as u64);
    assert(((x >> 56u64) as u8) == b0 && ((x >> 48u64) as u8) == b1 && ((x >> 40u64) as u8) == b2
        && ((x >> 32u64) as u8) == b3 && ((x >> 24u64) as u8) == b4 && ((x >> 16u64) as u8) == b5
        && ((x >> 8u64) as u8) == b6 && (x as u8) == b7) by (bit_vector)
        requires
            x == ((b0 as u64) << 56u64) | ((b1 as u64) << 48u64) | ((b2 as u64) << 40u64) | ((
            b3 as u64) << 32u64) | ((b4 as u64) << 24u64) | ((b5 as u64) << 16u64) | ((
            b6 as u64) << 8u64) | (b7 as u64),
    ;
    assert(be_u64(x) =~= seq![b0, b1, b2, b3, b4, b5, b6, b7]);
    x
}

fn u32_from_be(b0: u8, b1: u8, b2: u8, b3: u8) -> (x: u32)
    ensures
        be_u32(x) == seq![b0, b1, b2, b3],
{
    let x: u32 = ((b0 as u32) << 24u32) | ((b1 as u32) << 16u32) | ((b2 as u32) << 8u32) | (
    b3 as u32);
    assert(((x >> 24u32) as u8) == b0 && ((x >> 16u32) as u8) == b1 && ((x >> 8u32) as u8) == b2
        && (x as u8) == b3) by (bit_vector)
        requires
            x == ((b0 as u32) << 24u32) | ((b1 as u32) << 16u32) | ((b2 as u32) << 8u32) | (
            b3 as u32),
    ;
    assert(be_u32(x) =~= seq![b0, b1, b2, b3]);
    x
}

/// Two values with the same big-endian bytes are equal.
proof fn lemma_be_u64_injective(x: u64, y: u64)
    requires
        be_u64(x) == be_u64(y),
    ensures
        x == y,
{
    assert(be_u64(x)[0] == be_u64(y)[0] && be_u64(x)[1] == be_u64(y)[1] && be_u64(x)[2] == be_u64(
        y,
    )[2] && be_u64(x)[3] == be_u64(y)[3] && be_u64(x)[4] == be_u64(y)[4] && be_u64(x)[5]
        == be_u64(y)[5] && be_u64(x)[6] == be_u64(y)[6] && be_u64(x)[7] == be_u64(y)[7]);
    assert(x == y) by (bit_vector)
        requires
            (x >> 56u64) as u8 == (y >> 56u64) as u8,
            (x >> 48u64) as u8 == (y >> 48u64) as u8,
            (x >> 40u64) as u8 == (y >> 40u64) as u8,
            (x >> 32u64) as u8 == (y >> 32u64) as u8,
            (x >> 24u64) as u8 == (y >> 24u64) as u8,
            (x >> 16u64) as u8 == (y >> 16u64) as u8,
            (x >> 8u64) as u8 == (y >> 8u64) as u8,
            x as u8 == y as u8,
    ;
}

proof fn lemma_be_u32_injective(x: u32, y: u32)
    requires
        be_u32(x) == be_u32(y),
    ensures
        x == y,
{
    assert(be_u32(x)[0] == be_u32(y)[0] && be_u32(x)[1] == be_u32(y)[1] && be_u32(x)[2] == be_u32(
        y,
    )[2] && be_u32(x)[3] == be_u32(y)[3]);
    assert(x == y) by (bit_vector)
        requires
            (x >> 24u32) as u8 == (y >> 24u32) as u8,
            (x >> 16u32) as u8 == (y >> 16u32) as u8,
            (x >> 8u32) as u8 == (y >> 8u32) as u8,
            x as u8 == y as u8,
    ;
}

/// Distinct entries have distinct stored forms, so decoding what was
/// encoded gives back the entry.
pub proof fn lemma_entry_bytes_injective(a: LivenessEntry, b: LivenessEntry)
    requires
        entry_bytes(a) == entry_bytes(b),
    ensures
        a == b,
{
    let sa = entry_bytes(a);
    let sb = entry_bytes(b);
    assert(sa.subrange(0, 8) =~= be_u64(a.offset as u64));
    assert(sb.subrange(0, 8) =~= be_u64(b.offset as u64));
    assert(sa.subrange(8, 12) =~= be_u32(a.partition as u32));
    assert(sb.subrange(8, 12) =~= be_u32(b.partition as u32));
    lemma_be_u64_injective(a.offset as u64, b.offset as u64);
    lemma_be_u32_injective(a.partition as u32, b.partition as u32);
    let (ao, bo, ap, bp) = (a.offset, b.offset, a.partition, b.partition);
    assert(ao == bo) by (bit_vector)
        requires
            ao as u64 == bo as u64,
    ;
    assert(ap == bp) by (bit_vector)
        requires
            ap as u32 == bp as u32,
    ;
    assert(sa[12] == sb[12]);
}

/// The store key of a key hash.
pub fn hash_key(h: u32) -> (r: Vec<u8>)
    ensures
        r@ == be_u32(h),
{
    let r: Vec<u8> = vec![(h >> 24u32) as u8, (h >> 16u32) as u8, (h >> 8u32) as u8, h as u8];
    assert(r@ =~= be_u32(h));
    r
}

/// The stored form of `e`.
pub fn encode_entry(e: &LivenessEntry) -> (r: Vec<u8>)
    ensures
        r@ == entry_bytes(*e),
        r@.len() == ENTRY_LEN,
{
    let o: u64 = e.offset as u64;
    let p: u32 = e.partition as u32;
    let r: Vec<u8> = vec![
        (o >> 56u64) as u8,
        (o >> 48u64) as u8,
        (o >> 40u64) as u8,
        (o >> 32u64) as u8,
        (o >> 24u64) as u8,
        (o >> 16u64) as u8,
        (o >> 8u64) as u8,
        o as u8,
        (p >> 24u32) as u8,
        (p >> 16u32) as u8,
        (p >> 8u32) as u8,
        p as u8,
        if e.tombstone {
            1u8
        } else {
            0u8
        },
    ];
    assert(r@ =~= entry_bytes(*e));
    r
}

/// The entry whose stored form is `b`; `None` exactly when `b` is the
/// stored form of no entry: of another length, or with a flag byte other
/// than 0 or 1.
pub fn decode_entry(b: &[u8]) -> (r: Option<LivenessEntry>)
    ensures
        r is Some <==> (b@.len() == ENTRY_LEN && b@[12] <= 1),
        r matches Some(e) ==> entry_bytes(e) == b@,
{
    if b.len() != ENTRY_LEN || b[12] > 1 {
        return None;
    }
    let o: u64 = u64_from_be(b[0], b[1], b[2], b[3], b[4], b[5], b[6], b[7]);
    let p: u32 = u32_from_be(b[8], b[9], b[10], b[11]);
    let e = LivenessEntry { offset: o as i64, partition: p as i32, tombstone: b[12] == 1 };
    proof {
        assert((o as i64) as u64 == o) by (bit_vector);
        assert((p as i32) as u32 == p) by (bit_vector);
        assert(entry_bytes(e) =~= b@);
    }
    Some(e)
}

/// Decoding the stored form of an entry gives back that entry.
pub proof fn lemma_decode_encode(e: LivenessEntry, b: Seq<u8>, r: Option<LivenessEntry>)
    requires
        b == entry_bytes(e),
        r is Some <==> (b.len() == ENTRY_LEN && b[12] <= 1),
        r matches Some(d) ==> entry_bytes(d) == b,
    ensures
        r == Some(e),
{
    if let Some(d) = r {
        lemma_entry_bytes_injective(d, e);
    }
}

} // verus!
