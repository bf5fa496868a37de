//! Fixed-point arithmetic for the scalar quantities of the store.
//!
//! A scalar holds the real value multiplied by [`ONE`], so `700_000`
//! stands for 0.7.  Rates (decay factors, conductances) are kept in
//! `[0, ONE]`; levels (activations, spike intensities) are kept in
//! `[0, MAX_LEVEL]`.  These bounds make every product below fit in 64
//! bits.

use vstd::prelude::*;

verus! {

/// The fixed-point representation of 1.0.
pub const ONE: u64 = 1_000_000;

/// The largest level the store accepts: 1000.0 in real terms.
pub const MAX_LEVEL: u64 = 1_000_000_000;

/// The product of two scalars, rescaled: `(a * b) / ONE`.
pub open spec fn fx_mul(a: int, b: int) -> int {
    (a * b) / (ONE as int)
}

/// Multiplies a level by a rate in `[0, ONE]`.  The result never
/// exceeds the level, so repeated decay keeps a level in range.
pub fn mul_rate(level: u64, rate: u64) -> (r: u64)
    requires
        level <= MAX_LEVEL,
        rate <= ONE,
    ensures
        r == fx_mul(level as int, rate as int),
        r <= level,
{
    proof {
        assert(level * rate <= MAX_LEVEL * ONE) by (nonlinear_arith)
            requires level <= MAX_LEVEL && rate <= ONE,
        ;
        assert(level * rate / (ONE as int) <= level) by (nonlinear_arith)
            requires rate <= ONE,
        ;
    }
    let p: u64 = level * rate;
    p / ONE
}

/// Multiplying by a rate in `[0, ONE]` never grows a non-negative
/// scalar.
pub proof fn lemma_fx_mul_le(a: int, b: int)
    requires
        0 <= a,
        0 <= b <= ONE as int,
    ensures
        0 <= fx_mul(a, b) <= a,
{
    assert(0 <= (a * b) / (ONE as int) <= a) by (nonlinear_arith)
        requires
            0 <= a && 0 <= b <= ONE as int,
    ;
}

/// Adds with a ceiling of `u64::MAX`; counters use this so that they
/// never wrap.
pub open spec fn sat_add(a: int, b: int) -> int {
    if a + b <= u64::MAX { a + b } else { u64::MAX as int }
}

/// Saturating addition on `u64`.
pub fn sat_add64(a: u64, b: u64) -> (r: u64)
    ensures
        r == sat_add(a as int, b as int),
{
    if a <= u64::MAX - b {
        a + b
    } else {
        u64::MAX
    }
}

/// Subtracts with a floor of zero.
pub open spec fn sat_sub(a: int, b: int) -> int {
    if a >= b { a - b } else { 0 }
}

/// Saturating subtraction on `u64`.
pub fn sat_sub64(a: u64, b: u64) -> (r: u64)
    ensures
        r == sat_sub(a as int, b as int),
{
    if a >= b {
        a - b
    } else {
        0
    }
}

/// The distance between two levels.
pub open spec fn dist(a: int, b: int) -> int {
    if a >= b { a - b } else { b - a }
}

/// `|a - b|` on levels.
pub fn dist64(a: u64, b: u64) -> (r: u64)
    ensures
        r == dist(a as int, b as int),
{
    if a >= b {
        a - b
    } else {
        b - a
    }
}

/// The smaller of two scalars.
pub open spec fn min_int(a: int, b: int) -> int {
    if a <= b { a } else { b }
}

/// The larger of two scalars.
pub open spec fn max_int(a: int, b: int) -> int {
    if a >= b { a } else { b }
}

/// `min` on `u64`.
pub fn min64(a: u64, b: u64) -> (r: u64)
    ensures
        r == min_int(a as int, b as int),
{
    if a <= b { a } else { b }
}

} // verus!
