//! Synthetic "perfect" quality strings: every position carries the maximum
//! confidence value, Phred 40, encoded as ASCII 73 (`I`).
use vstd::prelude::*;

verus! {

/// The byte standing for maximum per-base confidence.
pub const PERFECT_QUALITY_BYTE: u8 = 73;

/// A quality string of length `n` whose every byte is the perfect-quality
/// sentinel.
pub open spec fn synth_quality(n: nat) -> Seq<u8> {
    Seq::new(n, |i: int| 73u8)
}

/// Build a perfect-quality string of exactly the requested length; length
/// zero yields the empty string.
pub fn perfect_quality(length: usize) -> (q: Vec<u8>)
    ensures
        q@ == synth_quality(length as nat),
        q@.len() == length,
{
    let mut q: Vec<u8> = Vec::new();
    let mut i: usize = 0;
    while i < length
        invariant
            i <= length,
            q@ =~= synth_quality(i as nat),
        decreases length - i,
    {
        q.push(PERFECT_QUALITY_BYTE);
        proof {
            assert(q@ =~= synth_quality(i as nat + 1));
        }
        i += 1;
    }
    proof {
        assert(q@ =~= synth_quality(length as nat));
    }
    q
}

} // verus!
