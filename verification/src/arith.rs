//! Integer division as the machine does it.

use vstd::prelude::*;

verus! {

/// Quotient rounded towards zero.
pub open spec fn quot(a: int, b: int) -> int {
    if a >= 0 {
        a / b
    } else {
        -((-a) / b)
    }
}

/// Quotient rounded towards zero.
pub fn div_toward_zero(a: i64, b: i64) -> (r: i64)
    requires
        b > 0,
        a > i64::MIN,
    ensures
        r == quot(a as int, b as int),
        -vstd::math::abs(a as int) <= r <= vstd::math::abs(a as int),
        a >= 0 ==> 0 <= r <= a,
        a <= 0 ==> a <= r <= 0,
{
    if a >= 0 {
        proof {
            lemma_quotient_small(a as int, b as int);
        }
        a / b
    } else {
        proof {
            lemma_quotient_small(-a, b as int);
        }
        -((-a) / b)
    }
}

/// A quotient of non-negative numbers does not exceed the dividend.
pub proof fn lemma_quotient_small(a: int, b: int)
    requires
        a >= 0,
        b > 0,
    ensures
        0 <= a / b <= a,
{
    assert(0 <= a / b <= a) by (nonlinear_arith)
        requires
            a >= 0,
            b > 0,
    ;
}

/// The value kept within the given range.
pub open spec fn clamped(v: int, lo: int, hi: int) -> int {
    if v < lo {
        lo
    } else if v > hi {
        hi
    } else {
        v
    }
}

/// The value kept within the given range.
pub fn clamp(v: i64, lo: i32, hi: i32) -> (r: i32)
    requires
        lo <= hi,
    ensures
        r == clamped(v as int, lo as int, hi as int),
        lo <= r <= hi,
{
    if v < lo as i64 {
        lo
    } else if v > hi as i64 {
        hi
    } else {
        v as i32
    }
}

} // verus!
