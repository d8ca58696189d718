//! FNV-1a, 64 bits wide: the hash behind content fingerprints and cache keys.

use vstd::prelude::*;

verus! {

/// Initial state of the hash.
pub const OFFSET_BASIS: u64 = 0xcbf29ce484222325;

/// Multiplier applied after each byte.
pub const PRIME: u64 = 0x100000001b3;

/// One FNV-1a step: fold `byte` into `state`, then multiply modulo 2^64.
pub open spec fn fnv_step(state: u64, byte: u8) -> u64 {
    ((state ^ byte as u64) as int * PRIME as int % 0x1_0000_0000_0000_0000) as u64
}

/// The hash state reached from `state` after reading `bytes` left to right.
pub open spec fn fnv_fold(state: u64, bytes: Seq<u8>) -> u64 {
    bytes.fold_left(state, |s: u64, b: u8| fnv_step(s, b))
}

/// The FNV-1a hash of `bytes`.
pub open spec fn fnv1a_spec(bytes: Seq<u8>) -> u64 {
    fnv_fold(OFFSET_BASIS, bytes)
}

proof fn lemma_fold_push(state: u64, bytes: Seq<u8>, b: u8)
    ensures
        fnv_fold(state, bytes.push(b)) == fnv_step(fnv_fold(state, bytes), b),
{
    assert(bytes.push(b).drop_last() =~= bytes);
}

/// Hashing in pieces is hashing the concatenation.
pub proof fn law_fold_concat(state: u64, a: Seq<u8>, b: Seq<u8>)
    ensures
        fnv_fold(fnv_fold(state, a), b) == fnv_fold(state, a + b),
    decreases b.len(),
{
    if b.len() == 0 {
        assert(a + b =~= a);
    } else {
        let rest = b.drop_last();
        law_fold_concat(state, a, rest);
        assert(rest.push(b.last()) =~= b);
        assert((a + rest).push(b.last()) =~= a + b);
        lemma_fold_push(fnv_fold(state, a), rest, b.last());
        lemma_fold_push(state, a + rest, b.last());
    }
}

/// Streaming FNV-1a state.
pub struct Fnv1a(pub u64);

impl Fnv1a {
    pub fn new() -> (h: Self)
        ensures
            h.0 == OFFSET_BASIS,
    {
        Fnv1a(OFFSET_BASIS)
    }

    /// Fold `bytes` into the state.
    pub fn write(&mut self, bytes: &[u8])
        ensures
            final(self).0 == fnv_fold(old(self).0, bytes@),
    {
        let ghost start = self.0;
        let mut i: usize = 0;
        assert(bytes@.take(0) =~= Seq::<u8>::empty());
        while i < bytes.len()
            invariant
                i <= bytes@.len(),
                self.0 == fnv_fold(start, bytes@.take(i as int)),
            decreases bytes@.len() - i,
        {
            proof {
                lemma_fold_push(start, bytes@.take(i as int), bytes@[i as int]);
                assert(bytes@.take(i as int).push(bytes@[i as int]) =~= bytes@.take(i + 1));
            }
            self.0 = (self.0 ^ bytes[i] as u64).wrapping_mul(PRIME);
            i += 1;
        }
        assert(bytes@.take(i as int) =~= bytes@);
    }

    pub fn finish(&self) -> (digest: u64)
        ensures
            digest == self.0,
    {
        self.0
    }
}

impl Default for Fnv1a {
    fn default() -> (h: Self)
        ensures
            h.0 == OFFSET_BASIS,
    {
        Fnv1a::new()
    }
}

/// One-shot FNV-1a.
pub fn fnv1a(bytes: &[u8]) -> (digest: u64)
    ensures
        digest == fnv1a_spec(bytes@),
{
    let mut h = Fnv1a::new();
    h.write(bytes);
    h.finish()
}

/// FNV-1a over 64 bits: the hash of nothing is the offset basis, and a byte is
/// mixed in by an exclusive or and a multiplication by the prime.
pub proof fn law_fnv1a(bytes: Seq<u8>, b: u8)
    ensures
        fnv1a_spec(Seq::empty()) == 0xcbf2_9ce4_8422_2325,
        fnv1a_spec(bytes.push(b)) == ((fnv1a_spec(bytes) ^ b as u64) as int * 0x100_0000_01b3
            % 0x1_0000_0000_0000_0000) as u64,
{
    lemma_fold_push(OFFSET_BASIS, bytes, b);
}

} // verus!
