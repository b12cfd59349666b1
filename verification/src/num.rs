//! Small arithmetic helpers shared by the book, the reconciler and the
//! backtest ledger.

use vstd::prelude::*;

verus! {

/// Clamp a mathematical integer into the `u128` range from above.
pub open spec fn sat128(x: int) -> int {
    if x > u128::MAX {
        u128::MAX as int
    } else {
        x
    }
}

/// Saturating addition on `u128`: the exact sum when it fits, `u128::MAX`
/// otherwise.
pub fn sat_add_u128(a: u128, b: u128) -> (r: u128)
    ensures
        r == sat128(a + b),
{
    if a > u128::MAX - b {
        u128::MAX
    } else {
        a + b
    }
}

/// Saturation absorbs an inner saturation: adding to an already clamped
/// value clamps exactly where the true sum would.
pub proof fn lemma_sat_add_collapses(a: int, b: int)
    requires
        a >= 0,
        b >= 0,
    ensures
        sat128(a + sat128(b)) == sat128(a + b),
{
}

/// The product of a `u128` and a `u64`, clamped at `u128::MAX`.
pub fn sat_mul_u128_u64(a: u128, b: u64) -> (r: u128)
    ensures
        r == sat128(a * b),
{
    if b == 0 {
        assert(a * 0 == 0) by (nonlinear_arith);
        0
    } else if a > u128::MAX / (b as u128) {
        proof {
            let bb = b as int;
            let q = u128::MAX as int / bb;
            assert(q * bb + u128::MAX as int % bb == u128::MAX as int) by {
                vstd::arithmetic::div_mod::lemma_fundamental_div_mod(u128::MAX as int, bb);
            }
            assert(a >= q + 1);
            assert(a * bb >= (q + 1) * bb) by (nonlinear_arith)
                requires
                    a >= q + 1,
                    bb > 0,
            ;
            assert((q + 1) * bb == q * bb + bb) by (nonlinear_arith);
            assert(u128::MAX as int % bb < bb) by {
                vstd::arithmetic::div_mod::lemma_mod_bound(u128::MAX as int, bb);
            }
        }
        u128::MAX
    } else {
        proof {
            let bb = b as int;
            let q = u128::MAX as int / bb;
            assert(q * bb <= u128::MAX as int) by {
                vstd::arithmetic::div_mod::lemma_fundamental_div_mod(u128::MAX as int, bb);
                vstd::arithmetic::div_mod::lemma_mod_bound(u128::MAX as int, bb);
            }
            assert(a * bb <= q * bb) by (nonlinear_arith)
                requires
                    0 <= a <= q,
                    bb > 0,
            ;
        }
        a * (b as u128)
    }
}

/// Clamp a mathematical integer into the `i128` range.
pub open spec fn sat_i128(x: int) -> int {
    if x > i128::MAX {
        i128::MAX as int
    } else if x < i128::MIN {
        i128::MIN as int
    } else {
        x
    }
}

/// The difference of two `u128` values, clamped into `i128`.
pub fn sat_diff_i128(a: u128, b: u128) -> (r: i128)
    ensures
        r == sat_i128(a - b),
{
    if a >= b {
        let d = a - b;
        if d > i128::MAX as u128 {
            i128::MAX
        } else {
            d as i128
        }
    } else {
        let d = b - a;
        if d > i128::MAX as u128 {
            i128::MIN
        } else {
            -(d as i128)
        }
    }
}

/// The larger of two timestamps.
pub fn max_i64(a: i64, b: i64) -> (r: i64)
    ensures
        r == if a >= b { a } else { b },
{
    if a >= b {
        a
    } else {
        b
    }
}

/// The product of two `u64` values, computed exactly in `u128`.
pub fn mul_u64(a: u64, b: u64) -> (r: u128)
    ensures
        r == a * b,
{
    proof {
        lemma_u64_mul_fits(a as int, b as int);
    }
    (a as u128) * (b as u128)
}

/// The product of two values below `2^64` fits in a `u128`.
proof fn lemma_u64_mul_fits(a: int, b: int)
    requires
        0 <= a <= u64::MAX,
        0 <= b <= u64::MAX,
    ensures
        a * b <= u128::MAX,
{
    assert(a * b <= u64::MAX * u64::MAX) by (nonlinear_arith)
        requires
            0 <= a <= u64::MAX,
            0 <= b <= u64::MAX,
    ;
}

} // verus!
