//! The integer core of the loudness classifier.
//!
//! Loudness of a frame is the root-mean-square amplitude of its samples,
//! taken to decibels. The square-summing over decoded samples is exact
//! integer work and is done here; only the final decibel conversion and
//! threshold comparison need real arithmetic and stay with the caller.
//! A frame of zero energy must classify as not noisy no matter the
//! threshold, so no non-finite loudness value can arise.

use vstd::prelude::*;

verus! {

/// The signed 16-bit little-endian sample at pair `i` of `bytes`.
pub open spec fn s16_at(bytes: Seq<u8>, i: int) -> int {
    let u = bytes[2 * i] + 256 * bytes[2 * i + 1];
    if u >= 32768 {
        u - 65536
    } else {
        u
    }
}

/// How many whole samples the byte run holds.
pub open spec fn sample_count(bytes: Seq<u8>) -> int {
    bytes.len() as int / 2
}

/// Sum of squared samples over the first `n` pairs of `bytes`.
pub open spec fn energy_prefix(bytes: Seq<u8>, n: int) -> int
    decreases n,
{
    if n <= 0 {
        0
    } else {
        energy_prefix(bytes, n - 1) + s16_at(bytes, n - 1) * s16_at(bytes, n - 1)
    }
}

/// The frame's energy: the sum of its squared samples.
pub open spec fn energy_of(bytes: Seq<u8>) -> int {
    energy_prefix(bytes, sample_count(bytes))
}

/// Decode the signed 16-bit little-endian samples of a frame and sum
/// their squares; returns the energy and the sample count. A trailing
/// odd byte is ignored.
pub fn frame_energy_s16(bytes: &Vec<u8>) -> (r: (u128, usize))
    ensures
        r.0 as int == energy_of(bytes@),
        r.1 as int == sample_count(bytes@),
{
    let n = bytes.len() / 2;
    let mut acc: u128 = 0;
    let mut i: usize = 0;
    while i < n
        invariant
            i <= n,
            n as int == sample_count(bytes@),
            n <= bytes.len(),
            acc as int == energy_prefix(bytes@, i as int),
            acc as int <= (i as int) * 0x4000_0000,
        decreases n - i,
    {
        let lo = bytes[2 * i];
        let hi = bytes[2 * i + 1];
        let u: u32 = lo as u32 + 256 * (hi as u32);
        let v: i64 = if u >= 32768 {
            u as i64 - 65536
        } else {
            u as i64
        };
        proof {
            assert(v as int == s16_at(bytes@, i as int));
            assert(0 <= (v as int) * (v as int) <= 0x4000_0000) by (nonlinear_arith)
                requires
                    -32768 <= (v as int) <= 32767,
            ;
        }
        let sq: u128 = ((v * v) as u64) as u128;
        acc = acc + sq;
        i += 1;
    }
    (acc, n)
}

/// A frame whose bytes are all zero has zero energy, so it classifies as
/// not noisy whatever the threshold.
pub proof fn lemma_zero_frame_energy(bytes: Seq<u8>)
    requires
        forall|i: int| #![trigger bytes[i]] 0 <= i < bytes.len() ==> bytes[i] == 0,
    ensures
        energy_of(bytes) == 0,
{
    lemma_zero_energy_prefix(bytes, sample_count(bytes));
}

proof fn lemma_zero_energy_prefix(bytes: Seq<u8>, n: int)
    requires
        forall|i: int| #![trigger bytes[i]] 0 <= i < bytes.len() ==> bytes[i] == 0,
        2 * n <= bytes.len(),
    ensures
        energy_prefix(bytes, n) == 0,
    decreases n,
{
    if n > 0 {
        lemma_zero_energy_prefix(bytes, n - 1);
        assert(bytes[2 * (n - 1)] == 0);
        assert(bytes[2 * (n - 1) + 1] == 0);
        assert(s16_at(bytes, n - 1) == 0);
        assert(energy_prefix(bytes, n) == energy_prefix(bytes, n - 1) + s16_at(bytes, n - 1)
            * s16_at(bytes, n - 1));
    }
}

} // verus!
