//! Floor division and remainder on `i64`, the integer primitives the
//! calendar arithmetic is built on.

use vstd::prelude::*;

verus! {

/// Division rounding toward negative infinity (`i64::div_euclid` for a
/// positive divisor).
pub fn floor_div(a: i64, b: i64) -> (r: i64)
    requires
        b > 0,
    ensures
        r == a / b,
{
    if a >= 0 {
        a / b
    } else {
        let na = (-(a + 1)) as i64;
        let q = na / b;
        proof {
            let qq = na as int / b as int;
            let rr = na as int % b as int;
            assert(na as int == qq * b + rr) by {
                vstd::arithmetic::div_mod::lemma_fundamental_div_mod(na as int, b as int);
            }
            assert(a as int == (-qq - 1) * b + (b - 1 - rr)) by (nonlinear_arith)
                requires
                    na as int == qq * b + rr,
                    na == -(a + 1),
            ;
            vstd::arithmetic::div_mod::lemma_fundamental_div_mod_converse(
                a as int,
                b as int,
                -qq - 1,
                b - 1 - rr,
            );
        }
        -q - 1
    }
}

/// The non-negative remainder (`i64::rem_euclid` for a positive divisor).
pub fn floor_mod(a: i64, b: i64) -> (r: i64)
    requires
        b > 0,
    ensures
        r == a % b,
        0 <= r < b,
{
    if a >= 0 {
        a % b
    } else {
        let na = (-(a + 1)) as i64;
        let m = na % b;
        proof {
            let qq = na as int / b as int;
            let rr = na as int % b as int;
            assert(na as int == qq * b + rr) by {
                vstd::arithmetic::div_mod::lemma_fundamental_div_mod(na as int, b as int);
            }
            assert(a as int == (-qq - 1) * b + (b - 1 - rr)) by (nonlinear_arith)
                requires
                    na as int == qq * b + rr,
                    na == -(a + 1),
            ;
            vstd::arithmetic::div_mod::lemma_fundamental_div_mod_converse(
                a as int,
                b as int,
                -qq - 1,
                b - 1 - rr,
            );
        }
        b - 1 - m
    }
}

/// Division truncating toward zero, as Rust's `/` on signed integers.
pub open spec fn trunc_div(a: int, b: int) -> int {
    if a >= 0 {
        a / b
    } else {
        -((-a) / b)
    }
}

} // verus!
