//! Quotients rounded to the nearest integer.

use vstd::prelude::*;

verus! {

/// Quotient of two integers, rounded to the nearest, halves away from zero.
pub open spec fn rounded_quotient(a: int, b: int) -> int {
    if a >= 0 {
        (2 * a + b) / (2 * b)
    } else {
        -((-2 * a + b) / (2 * b))
    }
}

/// Rounding by the remainder is rounding to the nearest.
proof fn lemma_rounding(a: int, b: int)
    requires
        a >= 0,
        b > 0,
    ensures
        (2 * a + b) / (2 * b) == a / b + if 2 * (a % b) >= b {
            1int
        } else {
            0int
        },
{
    let q = a / b;
    let r = a % b;
    vstd::arithmetic::div_mod::lemma_fundamental_div_mod(a, b);
    if 2 * r >= b {
        assert(2 * a + b == (q + 1) * (2 * b) + (2 * r - b)) by (nonlinear_arith)
            requires
                a == b * q + r,
        ;
        vstd::arithmetic::div_mod::lemma_fundamental_div_mod_converse(
            2 * a + b,
            2 * b,
            q + 1,
            2 * r - b,
        );
    } else {
        assert(2 * a + b == q * (2 * b) + (2 * r + b)) by (nonlinear_arith)
            requires
                a == b * q + r,
        ;
        vstd::arithmetic::div_mod::lemma_fundamental_div_mod_converse(
            2 * a + b,
            2 * b,
            q,
            2 * r + b,
        );
    }
}

/// A rounded quotient is at most half the divisor away from the dividend.
pub proof fn lemma_rounding_error(a: int, b: int)
    requires
        b > 0,
    ensures
        -b <= 2 * (b * rounded_quotient(a, b) - a) <= b,
{
    let size = if a >= 0 {
        a
    } else {
        -a
    };
    let x = 2 * size + b;
    let d = 2 * b;
    let q = x / d;
    let r = x % d;
    vstd::arithmetic::div_mod::lemma_fundamental_div_mod(x, d);
    vstd::arithmetic::div_mod::lemma_mod_bound(x, d);
    assert(2 * (b * q) == x - r) by (nonlinear_arith)
        requires
            x == d * q + r,
            d == 2 * b,
    ;
    assert(b * (-q) == -(b * q)) by (nonlinear_arith);
}

/// Rounding is to the nearest, halves away from zero: no integer is nearer to the
/// quotient, and one that is as near is smaller in size.
pub proof fn law_rounding_is_to_the_nearest(a: int, b: int, other: int)
    requires
        b > 0,
    ensures
        ({
            let q = rounded_quotient(a, b);
            let error = 2 * (b * q - a);
            &&& -b <= error <= b
            &&& error == b ==> a > 0
            &&& error == -b ==> a < 0
            &&& -b < 2 * (b * other - a) < b ==> other == q
        }),
{
    lemma_rounding_error(a, b);
    let q = rounded_quotient(a, b);
    let size = if a >= 0 {
        a
    } else {
        -a
    };
    let x = 2 * size + b;
    let d = 2 * b;
    let r = x % d;
    vstd::arithmetic::div_mod::lemma_fundamental_div_mod(x, d);
    vstd::arithmetic::div_mod::lemma_mod_bound(x, d);
    let h = x / d;
    assert(2 * (b * h) == x - r) by (nonlinear_arith)
        requires
            x == d * h + r,
            d == 2 * b,
    ;
    assert(b * (-h) == -(b * h)) by (nonlinear_arith);
    if a == 0 {
        vstd::arithmetic::div_mod::lemma_small_mod(b as nat, d as nat);
    }
    if -b < 2 * (b * other - a) < b {
        assert(other == q) by (nonlinear_arith)
            requires
                -b <= 2 * (b * q - a) <= b,
                -b < 2 * (b * other - a) < b,
                b > 0,
        ;
    }
}

/// An integer that is less than half the divisor away from a multiple of it gives
/// the multiple.
pub proof fn lemma_rounding_recovers(n: int, b: int, error: int)
    requires
        b > 0,
        -b < 2 * error < b,
    ensures
        rounded_quotient(n * b + error, b) == n,
{
    let a = n * b + error;
    let q = rounded_quotient(a, b);
    lemma_rounding_error(a, b);
    assert(q == n) by (nonlinear_arith)
        requires
            -b <= 2 * (b * q - a) <= b,
            a == n * b + error,
            -b < 2 * error < b,
            b > 0,
    ;
}

/// The quotient of two integers, rounded to the nearest.
pub fn round_quotient(a: i128, b: i128) -> (q: i128)
    requires
        a > i128::MIN,
        b > 0,
    ensures
        q == rounded_quotient(a as int, b as int),
        -b <= 2 * (b * q - a) <= b,
        2 * (b * q - a) == b ==> a > 0,
        2 * (b * q - a) == -b ==> a < 0,
{
    proof {
        law_rounding_is_to_the_nearest(a as int, b as int, 0);
    }
    let size: u128 = if a >= 0 {
        a as u128
    } else {
        (-a) as u128
    };
    let divisor: u128 = b as u128;
    let quotient: u128 = size / divisor;
    let remainder: u128 = size % divisor;
    proof {
        lemma_rounding(size as int, b as int);
        let q = quotient as int;
        let r = remainder as int;
        let s = size as int;
        let d = divisor as int;
        vstd::arithmetic::div_mod::lemma_fundamental_div_mod(s, d);
        assert(q <= s) by (nonlinear_arith)
            requires
                s == d * q + r,
                d >= 1,
                q >= 0,
                r >= 0,
        ;
        assert(2 * r >= d ==> q + 1 <= s) by (nonlinear_arith)
            requires
                s == d * q + r,
                0 <= r < d,
                q >= 0,
        ;
    }
    let rounded: u128 = if remainder >= divisor - remainder {
        quotient + 1
    } else {
        quotient
    };
    if a >= 0 {
        rounded as i128
    } else {
        -(rounded as i128)
    }
}

} // verus!
