//! Calibrated temperature conversion for 12-bit raw sensor readings.
//!
//! The sensor's published transfer characteristic is inverted by the
//! closed-form curve `-1538.88 + 144.092 * sqrt(143.217 - 0.01388 * raw)`
//! (degrees Celsius). It is computed here exactly, in fixed point:
//! temperatures are centidegrees, and the radicand is scaled by `10^10`
//! so that its integer square root carries five fractional decimal digits
//! of the real square root.

use vstd::prelude::*;
use vstd::arithmetic::div_mod::lemma_div_is_ordered;
use vstd::arithmetic::div_mod::lemma_hoist_over_denominator;

verus! {

/// One past the largest raw value of the 12-bit ADC domain.
pub const RAW_LIMIT: u16 = 4096;

/// True when `s` is the integer square root of `n`.
pub open spec fn is_isqrt(n: int, s: int) -> bool {
    &&& 0 <= s
    &&& s * s <= n
    &&& n < (s + 1) * (s + 1)
}

/// The integer square root of a non-negative `n`.
pub open spec fn spec_isqrt(n: int) -> int {
    choose|s: int| is_isqrt(n, s)
}

/// Every non-negative integer has an integer square root.
pub proof fn lemma_isqrt_exists(n: int)
    requires
        0 <= n,
    ensures
        is_isqrt(n, spec_isqrt(n)),
    decreases n,
{
    if n == 0 {
        assert(is_isqrt(0, 0));
    } else {
        lemma_isqrt_exists(n - 1);
        let s = spec_isqrt(n - 1);
        if n < (s + 1) * (s + 1) {
            assert(is_isqrt(n, s));
        } else {
            assert(is_isqrt(n, s + 1)) by (nonlinear_arith)
                requires
                    is_isqrt(n - 1, s),
                    n >= (s + 1) * (s + 1),
            ;
        }
    }
}

/// The integer square root is unique.
pub proof fn lemma_isqrt_unique(n: int, s: int)
    requires
        is_isqrt(n, s),
    ensures
        s == spec_isqrt(n),
{
    let t = spec_isqrt(n);
    assert(is_isqrt(n, t));
    assert(s == t) by (nonlinear_arith)
        requires
            is_isqrt(n, s),
            is_isqrt(n, t),
    ;
}

/// Integer square root by bisection.
pub fn isqrt(n: u64) -> (s: u64)
    ensures
        is_isqrt(n as int, s as int),
{
    if n == 0 {
        return 0;
    }
    let mut lo: u64 = 0;
    let mut hi: u64 = 4_294_967_296;
    proof {
        assert((hi as int) * (hi as int) > n as int) by (nonlinear_arith)
            requires
                hi == 4_294_967_296u64,
                n <= 0xFFFF_FFFF_FFFF_FFFFu64,
        ;
    }
    while lo + 1 < hi
        invariant
            lo < hi <= 4_294_967_296,
            (lo as int) * (lo as int) <= n as int,
            (n as int) < (hi as int) * (hi as int),
        decreases hi - lo,
    {
        let mid = lo + (hi - lo) / 2;
        proof {
            assert((mid as int) * (mid as int) <= 0xFFFF_FFFF_FFFF_FFFF) by (nonlinear_arith)
                requires
                    mid <= 4_294_967_295u64,
            ;
        }
        if mid * mid <= n {
            lo = mid;
        } else {
            hi = mid;
        }
    }
    lo
}

/// Radicand of the calibration curve for raw value `x`, scaled by `10^10`.
pub open spec fn radicand_scaled(x: u16) -> int {
    1_432_170_000_000 - 138_800_000 * (x as int)
}

/// The calibrated temperature for raw value `x`, in centidegrees Celsius.
pub open spec fn convert_spec(x: u16) -> int
    recommends
        x < RAW_LIMIT,
{
    144_092 * spec_isqrt(radicand_scaled(x)) / 1_000_000 - 153_888
}

/// Converts one 12-bit raw ADC reading to centidegrees Celsius along the
/// sensor's calibration curve.
pub fn convert_temperature(adc_value: u16) -> (t: i32)
    requires
        adc_value < RAW_LIMIT,
    ensures
        t as int == convert_spec(adc_value),
{
    let n: u64 = 1_432_170_000_000 - 138_800_000 * (adc_value as u64);
    let s: u64 = isqrt(n);
    proof {
        lemma_isqrt_unique(n as int, s as int);
        assert(s <= 1_200_000) by (nonlinear_arith)
            requires
                (s as int) * (s as int) <= n as int,
                n <= 1_432_170_000_000u64,
        ;
    }
    let p: u64 = 144_092 * s;
    let q: u64 = p / 1_000_000;
    proof {
        lemma_div_is_ordered(p as int, 172_910_400_000, 1_000_000);
    }
    let t: i64 = (q as i64) - 153_888;
    t as i32
}

/// One raw-value step strictly lowers the temperature: the scaled square
/// root falls by at least 57, so the centidegree value falls by at least 8.
proof fn lemma_conversion_step(x: u16)
    requires
        x + 1 < RAW_LIMIT,
    ensures
        convert_spec((x + 1) as u16) < convert_spec(x),
{
    let n1 = radicand_scaled(x);
    let n2 = radicand_scaled((x + 1) as u16);
    assert(n2 == n1 - 138_800_000);
    assert(n2 >= 863_784_000_000);
    lemma_isqrt_exists(n1);
    lemma_isqrt_exists(n2);
    let s1 = spec_isqrt(n1);
    let s2 = spec_isqrt(n2);
    assert(s2 <= 1_200_000) by (nonlinear_arith)
        requires
            is_isqrt(n2, s2),
            n2 <= 1_432_170_000_000,
    ;
    assert((s2 + 57) * (s2 + 57) <= n1) by (nonlinear_arith)
        requires
            is_isqrt(n2, s2),
            s2 <= 1_200_000,
            n1 == n2 + 138_800_000,
    ;
    assert(s1 >= s2 + 57) by (nonlinear_arith)
        requires
            is_isqrt(n1, s1),
            (s2 + 57) * (s2 + 57) <= n1,
            s2 >= 0,
    ;
    assert(144_092 * s1 >= 144_092 * s2 + 8_000_000) by (nonlinear_arith)
        requires
            s1 >= s2 + 57,
    ;
    lemma_div_is_ordered(144_092 * s2 + 8_000_000, 144_092 * s1, 1_000_000);
    lemma_hoist_over_denominator(144_092 * s2, 8, 1_000_000nat);
}

/// Law: the conversion is strictly decreasing over the whole 12-bit raw
/// domain — a larger raw reading always means a strictly lower
/// temperature.
pub proof fn lemma_conversion_strictly_decreasing(x1: u16, x2: u16)
    requires
        x1 < x2,
        x2 < RAW_LIMIT,
    ensures
        convert_spec(x2) < convert_spec(x1),
    decreases x2 - x1,
{
    lemma_conversion_step(x1);
    if x1 + 1 < x2 {
        lemma_conversion_strictly_decreasing((x1 + 1) as u16, x2);
    }
}

} // verus!
