//! Fixed-point arithmetic helpers shared by the engine components.
//!
//! Money amounts and prices are integers in units of one millionth of the
//! account currency; proportional rates are integers in parts per million;
//! portfolio weights are scaled by `SCALE` as well.

use vstd::prelude::*;

verus! {

/// Scale of money, prices, rates and weights: one unit equals `1 / SCALE`.
pub const SCALE: u64 = 1_000_000;

/// Clamp an unbounded integer into the `i128` range.
pub open spec fn clamp_i128(x: int) -> int {
    if x > i128::MAX {
        i128::MAX as int
    } else if x < i128::MIN {
        i128::MIN as int
    } else {
        x
    }
}

/// Clamp an unbounded integer into the `i64` range.
pub open spec fn clamp_i64(x: int) -> int {
    if x > i64::MAX {
        i64::MAX as int
    } else if x < i64::MIN {
        i64::MIN as int
    } else {
        x
    }
}

/// Saturating addition on `i128`.
pub fn sat_add_i128(a: i128, b: i128) -> (r: i128)
    ensures
        r == clamp_i128(a + b),
{
    if b >= 0 {
        if a > i128::MAX - b {
            i128::MAX
        } else {
            a + b
        }
    } else {
        if a < i128::MIN - b {
            i128::MIN
        } else {
            a + b
        }
    }
}

/// Saturate an `i128` into the `i64` range.
pub fn sat_to_i64(x: i128) -> (r: i64)
    ensures
        r == clamp_i64(x as int),
{
    if x > i64::MAX as i128 {
        i64::MAX
    } else if x < i64::MIN as i128 {
        i64::MIN
    } else {
        x as i64
    }
}

/// Clamp an unbounded integer into the `u128` range (values are never negative
/// where this is used).
pub open spec fn clamp_u128(x: int) -> int {
    if x > u128::MAX {
        u128::MAX as int
    } else {
        x
    }
}

/// Product of two 64-bit values; always fits in `u128`.
pub fn mul_u64(a: u64, b: u64) -> (r: u128)
    ensures
        r == a * b,
{
    proof {
        assert((a as int) * (b as int) <= (u64::MAX as int) * (u64::MAX as int))
            by (nonlinear_arith)
            requires a <= u64::MAX && b <= u64::MAX;
        assert((u64::MAX as int) * (u64::MAX as int) < u128::MAX as int) by (nonlinear_arith);
    }
    (a as u128) * (b as u128)
}

/// Saturating addition on `u128`.
pub fn sat_add_u128(a: u128, b: u128) -> (r: u128)
    ensures
        r == clamp_u128(a + b),
{
    if a > u128::MAX - b {
        u128::MAX
    } else {
        a + b
    }
}

/// Saturating multiplication on `u128`.
pub fn sat_mul_u128(a: u128, b: u128) -> (r: u128)
    ensures
        r == clamp_u128(a * b),
{
    if a == 0 {
        0
    } else if b > u128::MAX / a {
        proof {
            vstd::arithmetic::div_mod::lemma_fundamental_div_mod(u128::MAX as int, a as int);
            assert((a as int) * (b as int) > u128::MAX as int) by (nonlinear_arith)
                requires
                    a > 0,
                    (b as int) >= (u128::MAX as int) / (a as int) + 1,
                    (u128::MAX as int) == (a as int) * ((u128::MAX as int) / (a as int))
                        + (u128::MAX as int) % (a as int),
                    ((u128::MAX as int) % (a as int)) < (a as int),
            ;
        }
        u128::MAX
    } else {
        proof {
            vstd::arithmetic::div_mod::lemma_fundamental_div_mod(u128::MAX as int, a as int);
            assert((a as int) * (b as int) <= u128::MAX as int) by (nonlinear_arith)
                requires
                    a > 0,
                    (b as int) <= (u128::MAX as int) / (a as int),
                    (u128::MAX as int) == (a as int) * ((u128::MAX as int) / (a as int))
                        + (u128::MAX as int) % (a as int),
                    ((u128::MAX as int) % (a as int)) >= 0,
            ;
        }
        a * b
    }
}

/// Saturate a `u128` into the `i128` range.
pub fn sat_u128_to_i128(x: u128) -> (r: i128)
    ensures
        r == clamp_i128(x as int),
{
    if x > i128::MAX as u128 {
        i128::MAX
    } else {
        x as i128
    }
}

/// Clamp an unbounded integer symmetrically into `[-i128::MAX, i128::MAX]`.
pub open spec fn sym_clamp_i128(x: int) -> int {
    if x > i128::MAX {
        i128::MAX as int
    } else if x < -(i128::MAX as int) {
        -(i128::MAX as int)
    } else {
        x
    }
}

/// Symmetrically saturating addition on `i128`.
pub fn sym_add_i128(a: i128, b: i128) -> (r: i128)
    ensures
        r == sym_clamp_i128(a + b),
{
    let v = sat_add_i128(a, b);
    if v == i128::MIN {
        -i128::MAX
    } else {
        v
    }
}

/// Symmetrically saturating subtraction on `i128`.
pub fn sym_sub_i128(a: i128, b: i128) -> (r: i128)
    ensures
        r == sym_clamp_i128(a - b),
{
    if b == i128::MIN {
        if a >= 0 {
            i128::MAX
        } else {
            (a + i128::MAX) + 1
        }
    } else {
        sym_add_i128(a, -b)
    }
}

/// Floor division of a signed value by a positive divisor; agrees with
/// spec-level (Euclidean) division.  The numerator is kept away from
/// `i128::MIN` so that its negation is representable.
pub fn div_floor_i128(a: i128, b: i128) -> (r: i128)
    requires
        b > 0,
        a > i128::MIN,
    ensures
        r == a as int / b as int,
{
    if a >= 0 {
        a / b
    } else {
        let m: i128 = -a;
        let q: i128 = m / b;
        let rem: i128 = m % b;
        proof {
            vstd::arithmetic::div_mod::lemma_fundamental_div_mod(m as int, b as int);
            assert(q == m as int / b as int);
            assert(rem == m as int % b as int);
            assert(m as int == b as int * (q as int) + rem as int);
            assert(a as int == (-(q as int)) * (b as int) + (-(rem as int)))
                by (nonlinear_arith)
                requires m as int == b as int * (q as int) + rem as int && a as int == -(m as int);
        }
        if rem == 0 {
            proof {
                vstd::arithmetic::div_mod::lemma_fundamental_div_mod_converse(
                    a as int, b as int, -(q as int), 0);
            }
            -q
        } else {
            proof {
                assert(a as int == (-(q as int) - 1) * (b as int) + (b as int - rem as int))
                    by (nonlinear_arith)
                    requires a as int == (-(q as int)) * (b as int) + (-(rem as int));
                vstd::arithmetic::div_mod::lemma_fundamental_div_mod_converse(
                    a as int, b as int, -(q as int) - 1, b - rem);
            }
            -q - 1
        }
    }
}

/// Saturating accumulation of non-negative terms can be re-associated.
pub proof fn lemma_clamp_add_assoc(a: int, b: int, c: int)
    requires
        a >= 0,
        b >= 0,
        c >= 0,
    ensures
        clamp_u128(a + clamp_u128(b + c)) == clamp_u128(clamp_u128(a + b) + c),
{
}

} // verus!
