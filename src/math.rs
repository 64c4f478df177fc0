use vstd::prelude::*;
use vstd::arithmetic::div_mod::lemma_fundamental_div_mod_converse;

verus! {

/// Floor of the real quotient `a / b`, for any nonzero `b`.
pub open spec fn floor_div(a: int, b: int) -> int {
    if b > 0 {
        a / b
    } else {
        (-a) / (-b)
    }
}

/// What is left of `a` after taking away `b * floor_div(a, b)`.
pub open spec fn floor_mod(a: int, b: int) -> int {
    a - b * floor_div(a, b)
}

/// Euclidean quotient and remainder, and the quotient's range for 64-bit operands.
proof fn lemma_euclid(a: int, b: int)
    requires
        b != 0,
        i64::MIN <= a <= i64::MAX,
        i64::MIN <= b <= i64::MAX,
        !(a == i64::MIN && b == -1),
    ensures
        a == b * (a / b) + a % b,
        b > 0 ==> 0 <= a % b < b,
        b < 0 ==> 0 <= a % b < -b,
        i64::MIN <= a / b <= i64::MAX,
{
    vstd::arithmetic::div_mod::lemma_fundamental_div_mod(a, b);
    let q = a / b;
    let r = a % b;
    assert(b > 0 ==> 0 <= r < b) by (nonlinear_arith)
        requires
            r == a % b,
            b != 0,
    ;
    assert(b < 0 ==> 0 <= r < -b) by (nonlinear_arith)
        requires
            r == a % b,
            b != 0,
    ;
    assert(i64::MIN <= q <= i64::MAX) by (nonlinear_arith)
        requires
            a == b * q + r,
            b > 0 ==> 0 <= r < b,
            b < 0 ==> 0 <= r < -b,
            b != 0,
            i64::MIN <= a <= i64::MAX,
            i64::MIN <= b <= i64::MAX,
            !(a == i64::MIN && b == -1),
    ;
}

/// `floor_div` in terms of the Euclidean quotient, for a negative divisor.
proof fn lemma_floor_div_negative(a: int, b: int)
    requires
        b < 0,
        a == b * (a / b) + a % b,
        0 <= a % b < -b,
    ensures
        a % b == 0 ==> floor_div(a, b) == a / b,
        a % b != 0 ==> floor_div(a, b) == a / b - 1,
{
    let q = a / b;
    let r = a % b;
    if r == 0 {
        assert(-a == q * (-b) + 0) by (nonlinear_arith)
            requires
                a == b * q + r,
                r == 0,
        ;
        lemma_fundamental_div_mod_converse(-a, -b, q, 0);
    } else {
        assert(-a == (q - 1) * (-b) + (-b - r)) by (nonlinear_arith)
            requires
                a == b * q + r,
        ;
        lemma_fundamental_div_mod_converse(-a, -b, q - 1, -b - r);
    }
}

/// Greatest integer not above `a / b`.
pub fn div_floor(a: i64, b: i64) -> (r: i64)
    requires
        b != 0,
        !(a == i64::MIN && b == -1),
    ensures
        r == floor_div(a as int, b as int),
{
    proof {
        lemma_euclid(a as int, b as int);
    }
    let q = a.checked_div_euclid(b).unwrap();
    if b > 0 {
        q
    } else {
        let rem = a.checked_rem_euclid(b).unwrap();
        proof {
            lemma_floor_div_negative(a as int, b as int);
            if rem != 0 {
                assert(a / b > i64::MIN) by (nonlinear_arith)
                    requires
                        a == b * (a / b) + rem,
                        0 < rem < -b,
                        i64::MIN <= a <= i64::MAX,
                ;
            }
        }
        if rem == 0 {
            q
        } else {
            q - 1
        }
    }
}

/// Remainder that goes with `div_floor`: in `[0, b)` for positive `b`.
pub fn mod_floor(a: i64, b: i64) -> (r: i64)
    requires
        b != 0,
        !(a == i64::MIN && b == -1),
    ensures
        r == floor_mod(a as int, b as int),
        b > 0 ==> 0 <= r < b,
        b < 0 ==> b < r <= 0,
{
    proof {
        lemma_euclid(a as int, b as int);
    }
    let rem = a.checked_rem_euclid(b).unwrap();
    proof {
        if b < 0 {
            lemma_floor_div_negative(a as int, b as int);
        }
        let q = floor_div(a as int, b as int);
        assert(floor_mod(a as int, b as int) == a - b * q);
        assert(b > 0 || rem == 0 ==> a - b * q == rem) by (nonlinear_arith)
            requires
                a == b * (a / b) + rem,
                b > 0 ==> q == a / b,
                b < 0 && rem == 0 ==> q == a / b,
        ;
        assert(b < 0 && rem != 0 ==> a - b * q == rem + b) by (nonlinear_arith)
            requires
                a == b * (a / b) + rem,
                b < 0 && rem != 0 ==> q == a / b - 1,
        ;
    }
    if b > 0 || rem == 0 {
        rem
    } else {
        rem + b
    }
}

} // verus!
