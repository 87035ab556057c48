//! The 32-bit Fowler–Noll–Vo hash over byte sequences, with a fixed
//! starting state and no seeding.

use vstd::prelude::*;

verus! {

/// The FNV offset basis: the state of a fresh hasher.
pub const FNV_OFFSET_BASIS: u32 = 0x811c9dc5;

/// The multiplier applied, with wraparound, after each byte is mixed in.
pub const FNV_MULTIPLIER: u32 = 0x811c9dc5;

/// One step of the hash: xor the byte in, then multiply with wraparound.
pub open spec fn fnv_step(state: u32, byte: u8) -> u32 {
    (state ^ (byte as u32)).wrapping_mul(FNV_MULTIPLIER)
}

/// The state reached from `state` after mixing in every byte of `bytes`, in order.
pub open spec fn fnv_fold(state: u32, bytes: Seq<u8>) -> u32
    decreases bytes.len(),
{
    if bytes.len() == 0 {
        state
    } else {
        fnv_step(fnv_fold(state, bytes.drop_last()), bytes.last())
    }
}

/// The hash of a byte sequence written into a fresh hasher.
pub open spec fn fnv_hash(bytes: Seq<u8>) -> u32 {
    fnv_fold(FNV_OFFSET_BASIS, bytes)
}

/// Writing `a` and then `b` reaches the same state as writing `a + b` at once.
pub proof fn lemma_fnv_fold_concat(state: u32, a: Seq<u8>, b: Seq<u8>)
    ensures
        fnv_fold(fnv_fold(state, a), b) == fnv_fold(state, a + b),
    decreases b.len(),
{
    if b.len() == 0 {
        assert(a + b =~= a);
    } else {
        lemma_fnv_fold_concat(state, a, b.drop_last());
        assert((a + b).drop_last() =~= a + b.drop_last());
        assert((a + b).last() == b.last());
    }
}

/// The hash depends on the bytes alone: two hashers fed the same bytes
/// agree, in every process, since nothing seeds the state.
pub proof fn lemma_fnv_deterministic(a: Seq<u8>, b: Seq<u8>)
    requires
        a == b,
    ensures
        fnv_hash(a) == fnv_hash(b),
{
}

/// A Fowler–Noll–Vo hasher with a 32-bit state.
pub struct FnvHasher(pub u32);

impl FnvHasher {
    /// The current state as a mathematical value.
    pub open spec fn state(&self) -> u32 {
        self.0
    }

    /// A fresh hasher, starting at the offset basis.
    pub fn new() -> (h: FnvHasher)
        ensures
            h.state() == FNV_OFFSET_BASIS,
    {
        FnvHasher(FNV_OFFSET_BASIS)
    }

    /// The hash of everything written so far.
    pub fn finish(&self) -> (r: u32)
        ensures
            r == self.state(),
    {
        self.0
    }

    /// Mixes every byte of `bytes` into the state, in order.
    pub fn write(&mut self, bytes: &[u8])
        ensures
            final(self).state() == fnv_fold(old(self).state(), bytes@),
    {
        let mut hash: u32 = self.0;
        let mut i: usize = 0;
        while i < bytes.len()
            invariant
                i <= bytes@.len(),
                hash == fnv_fold(old(self).state(), bytes@.subrange(0, i as int)),
            decreases bytes@.len() - i,
        {
            let byte: u8 = bytes[i];
            let mixed: u32 = hash ^ (byte as u32);
            let next: u32 = mixed.wrapping_mul(FNV_MULTIPLIER);
            proof {
                let prefix = bytes@.subrange(0, i as int + 1);
                assert(prefix.drop_last() =~= bytes@.subrange(0, i as int));
                assert(prefix.last() == byte);
            }
            hash = next;
            i = i + 1;
        }
        assert(bytes@.subrange(0, bytes@.len() as int) =~= bytes@);
        *self = FnvHasher(hash);
    }
}

impl Default for FnvHasher {
    fn default() -> (h: FnvHasher)
        ensures
            h.state() == FNV_OFFSET_BASIS,
    {
        FnvHasher(FNV_OFFSET_BASIS)
    }
}

/// The hash of `bytes` written into a fresh hasher.
pub fn hash_bytes(bytes: &[u8]) -> (r: u32)
    ensures
        r == fnv_hash(bytes@),
{
    let mut h = FnvHasher::new();
    h.write(bytes);
    h.finish()
}

} // verus!
