//! The `FxHash` mixing function used for fast internal hashing.
use vstd::prelude::*;

verus! {

/// The multiplier of the `FxHash` mixing step.
pub const FX_SEED: u64 = 0x517c_c1b7_2722_0a95;

/// Rotating a 64-bit word left by five bits.
pub open spec fn spec_rotl5(h: u64) -> u64 {
    (h << 5u64) | (h >> 59u64)
}

/// One mixing step: rotate, xor the byte in, multiply (wrapping).
pub open spec fn spec_fx_step(h: u64, byte: u8) -> u64 {
    vstd::wrapping::u64_specs::wrapping_mul(spec_rotl5(h) ^ (byte as u64), FX_SEED)
}

/// The hash state after feeding `bytes` into state `h`, front to back.
pub open spec fn spec_fx_fold(h: u64, bytes: Seq<u8>) -> u64
    decreases bytes.len(),
{
    if bytes.len() == 0 {
        h
    } else {
        spec_fx_fold(spec_fx_step(h, bytes[0]), bytes.drop_first())
    }
}

/// Feeding `a` and then `b` leaves the same state as feeding `a + b`:
/// a hash does not depend on how its input was split into writes.
pub proof fn lemma_fx_fold_concat(h: u64, a: Seq<u8>, b: Seq<u8>)
    ensures
        spec_fx_fold(h, a + b) == spec_fx_fold(spec_fx_fold(h, a), b),
    decreases a.len(),
{
    if a.len() > 0 {
        assert((a + b).drop_first() =~= a.drop_first() + b);
        assert((a + b)[0] == a[0]);
        lemma_fx_fold_concat(spec_fx_step(h, a[0]), a.drop_first(), b);
    } else {
        assert(a + b =~= b);
    }
}

/// A fast, non-cryptographic hasher optimised for small keys.
pub struct FxHasher {
    pub hash: u64,
}

impl FxHasher {
    /// A hasher in its initial state.
    pub fn new() -> (r: Self)
        ensures
            r.hash == 0,
    {
        FxHasher { hash: 0 }
    }

    /// Feed `bytes` into the hash.
    pub fn write(&mut self, bytes: &[u8])
        ensures
            final(self).hash == spec_fx_fold(old(self).hash, bytes@),
    {
        let mut i: usize = 0;
        assert(bytes@.skip(0) =~= bytes@);
        while i < bytes.len()
            invariant
                0 <= i <= bytes@.len(),
                spec_fx_fold(old(self).hash, bytes@) == spec_fx_fold(self.hash, bytes@.skip(i as int)),
            decreases bytes@.len() - i,
        {
            let byte = bytes[i];
            let rot = (self.hash << 5u64) | (self.hash >> 59u64);
            self.hash = (rot ^ (byte as u64)).wrapping_mul(FX_SEED);
            assert(bytes@.skip(i as int).drop_first() =~= bytes@.skip(i + 1));
            i = i + 1;
        }
        assert(bytes@.skip(i as int) =~= Seq::<u8>::empty());
    }

    /// The hash of everything written so far.
    pub fn finish(&self) -> (r: u64)
        ensures
            r == self.hash,
    {
        self.hash
    }
}

} // verus!
