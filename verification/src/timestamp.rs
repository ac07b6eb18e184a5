//! Exact rational conversions between stream timestamps and whole seconds.
//!
//! A stream's time base is a rational `num / den`: a timestamp of `t`
//! units lies at `t * num / den` seconds. Conversions floor to whole
//! seconds and clamp into the second counter's range, so no non-finite or
//! wrapped value can arise.

use vstd::prelude::*;

verus! {

/// The whole second a timestamp falls in: `pts * num / den` floored,
/// clamped to the `u32` range (timestamps at or before zero clamp to 0).
pub open spec fn sec_of_ts(pts: int, num: int, den: int) -> int {
    if pts <= 0 {
        0
    } else if pts * num / den > u32::MAX {
        u32::MAX as int
    } else {
        pts * num / den
    }
}

/// The whole second a frame ends in: its start timestamp (clamped at
/// zero, as for `sec_of_ts`) converted to seconds plus its duration
/// `samples / rate`, floored exactly over the common denominator, clamped
/// to the `u32` range.
pub open spec fn frame_end_sec(pts: int, num: int, den: int, samples: int, rate: int) -> int {
    let p = if pts <= 0 {
        0
    } else {
        pts
    };
    let top = p * num * rate + samples * den;
    let bottom = den * rate;
    if top / bottom > u32::MAX {
        u32::MAX as int
    } else {
        top / bottom
    }
}

/// The timestamp unit `sec` seconds falls in: `sec * den / num` floored.
/// For a time base coarser than one second this unit can begin *before*
/// `sec`; a bound that must lie at or after `sec` takes `ts_of_sec_ceil`.
pub open spec fn ts_of_sec(sec: int, num: int, den: int) -> int {
    sec * den / num
}

/// The first timestamp unit at or after `sec` seconds: `sec * den / num`
/// rounded up.
pub open spec fn ts_of_sec_ceil(sec: int, num: int, den: int) -> int {
    (sec * den + num - 1) / num
}

/// Convert a stream timestamp to its whole second.
pub fn ts_to_sec(pts: i64, num: u32, den: u32) -> (r: u32)
    requires
        num >= 1,
        den >= 1,
    ensures
        r as int == sec_of_ts(pts as int, num as int, den as int),
{
    if pts <= 0 {
        return 0;
    }
    proof {
        assert((pts as int) * (num as int) < 0x1_0000_0000_0000_0000_0000_0000)
            by (nonlinear_arith)
            requires
                0 <= (pts as int) < 0x8000_0000_0000_0000,
                0 <= (num as int) < 0x1_0000_0000,
        ;
    }
    let v: u128 = (pts as u128) * (num as u128) / (den as u128);
    if v > u32::MAX as u128 {
        u32::MAX
    } else {
        v as u32
    }
}

/// Convert a frame's start timestamp and sample count to the whole second
/// the frame ends in.
pub fn frame_end_to_sec(pts: i64, num: u32, den: u32, samples: u32, rate: u32) -> (r: u32)
    requires
        num >= 1,
        den >= 1,
        rate >= 1,
    ensures
        r as int == frame_end_sec(pts as int, num as int, den as int, samples as int, rate as int),
{
    let p: u64 = if pts <= 0 {
        0
    } else {
        pts as u64
    };
    proof {
        assert(0 <= (p as int) * (num as int) < 0x8000_0000_0000_0000_0000_0000)
            by (nonlinear_arith)
            requires
                0 <= (p as int) < 0x8000_0000_0000_0000,
                0 <= (num as int) < 0x1_0000_0000,
        ;
        assert(0 <= (p as int) * (num as int) * (rate as int)
            < 0x8000_0000_0000_0000_0000_0000_0000_0000) by (nonlinear_arith)
            requires
                0 <= (p as int) * (num as int) < 0x8000_0000_0000_0000_0000_0000,
                0 <= (rate as int) < 0x1_0000_0000,
        ;
        assert(0 <= (samples as int) * (den as int) < 0x1_0000_0000_0000_0000)
            by (nonlinear_arith)
            requires
                0 <= (samples as int) < 0x1_0000_0000,
                0 <= (den as int) < 0x1_0000_0000,
        ;
        assert(1 <= (den as int) * (rate as int) < 0x1_0000_0000_0000_0000)
            by (nonlinear_arith)
            requires
                1 <= (den as int) < 0x1_0000_0000,
                1 <= (rate as int) < 0x1_0000_0000,
        ;
    }
    let top: u128 = (p as u128) * (num as u128) * (rate as u128) + (samples as u128) * (den
        as u128);
    let bottom: u128 = (den as u128) * (rate as u128);
    let v: u128 = top / bottom;
    if v > u32::MAX as u128 {
        u32::MAX
    } else {
        v as u32
    }
}

/// Convert a whole second to the stream timestamp unit it falls in
/// (floored; used for an upper bound).
pub fn sec_to_ts(sec: u32, num: u32, den: u32) -> (r: i64)
    requires
        num >= 1,
        den >= 1,
        ts_of_sec(sec as int, num as int, den as int) <= i64::MAX,
    ensures
        r as int == ts_of_sec(sec as int, num as int, den as int),
{
    proof {
        assert((sec as int) * (den as int) < 0x1_0000_0000_0000_0000) by (nonlinear_arith)
            requires
                0 <= (sec as int) < 0x1_0000_0000,
                0 <= (den as int) < 0x1_0000_0000,
        ;
    }
    let v: u128 = (sec as u128) * (den as u128) / (num as u128);
    v as i64
}

/// Convert a whole second to the first stream timestamp unit at or after
/// it (rounded up; used for a lower bound such as an interval start).
pub fn sec_to_ts_ceil(sec: u32, num: u32, den: u32) -> (r: i64)
    requires
        num >= 1,
        den >= 1,
        ts_of_sec_ceil(sec as int, num as int, den as int) <= i64::MAX,
    ensures
        r as int == ts_of_sec_ceil(sec as int, num as int, den as int),
{
    proof {
        assert((sec as int) * (den as int) < 0x1_0000_0000_0000_0000) by (nonlinear_arith)
            requires
                0 <= (sec as int) < 0x1_0000_0000,
                0 <= (den as int) < 0x1_0000_0000,
        ;
    }
    let v: u128 = ((sec as u128) * (den as u128) + (num as u128) - 1) / (num as u128);
    v as i64
}

/// Any timestamp at or after the rounded-up bound for `sec` converts
/// back to a whole second at or after `sec`: a keyframe found at or past
/// `ts_of_sec_ceil(sec)` never lies before the requested start.
pub proof fn lemma_ceil_ts_at_or_after(sec: int, num: int, den: int, pts: int)
    requires
        1 <= num,
        1 <= den,
        0 <= sec <= u32::MAX,
        pts >= ts_of_sec_ceil(sec, num, den),
    ensures
        sec_of_ts(pts, num, den) >= sec,
{
    if sec == 0 {
    } else {
        let c = (sec * den + num - 1) / num;
        vstd::arithmetic::div_mod::lemma_fundamental_div_mod(sec * den + num - 1, num);
        assert(sec * den + num - 1 == num * c + (sec * den + num - 1) % num);
        vstd::arithmetic::div_mod::lemma_mod_bound(sec * den + num - 1, num);
        assert(c * num >= sec * den);
        assert(sec * den >= den) by (nonlinear_arith)
            requires
                sec >= 1,
                den >= 1,
        ;
        assert(c >= 1) by (nonlinear_arith)
            requires
                c * num >= sec * den,
                sec * den >= den,
                den >= 1,
                num >= 1,
        ;
        assert(pts > 0);
        vstd::arithmetic::mul::lemma_mul_inequality(c, pts, num);
        assert(pts * num >= sec * den);
        vstd::arithmetic::div_mod::lemma_div_is_ordered(sec * den, pts * num, den);
        vstd::arithmetic::div_mod::lemma_div_multiples_vanish(sec, den);
        assert(den * sec == sec * den) by (nonlinear_arith);
        assert(sec * den / den == sec);
        assert(pts * num / den >= sec);
    }
}

} // verus!
