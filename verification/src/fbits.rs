//! IEEE 754 doubles as bit patterns.
//!
//! The library orders and copies doubles but never computes with them. It holds
//! each one as its bit pattern, and orders patterns as the numbers are ordered.

use vstd::arithmetic::power2::{
    lemma_pow2_pos, lemma_pow2_strictly_increases, lemma_pow2_unfold, pow2,
};
use vstd::prelude::*;

verus! {

/// The largest finite double.
pub const MAX_BITS: u64 = 0x7FEF_FFFF_FFFF_FFFF;

/// The smallest finite double.
pub const MIN_BITS: u64 = 0xFFEF_FFFF_FFFF_FFFF;

/// Positive infinity.
pub const INFINITY_BITS: u64 = 0x7FF0_0000_0000_0000;

/// Negative infinity.
pub const NEG_INFINITY_BITS: u64 = 0xFFF0_0000_0000_0000;

/// The sign bit.
pub const SIGN_BIT: u64 = 0x8000_0000_0000_0000;

/// The pattern without its sign bit.
pub open spec fn magnitude(b: u64) -> int {
    if b >= SIGN_BIT {
        b - SIGN_BIT
    } else {
        b as int
    }
}

/// Whether the pattern is a NaN.
pub open spec fn is_nan(b: u64) -> bool {
    magnitude(b) > INFINITY_BITS
}

/// The place of a number among the numbers; both zeros have the place 0.
pub open spec fn rank(b: u64) -> int {
    if b >= SIGN_BIT {
        -magnitude(b)
    } else {
        magnitude(b)
    }
}

/// `a < b` as doubles: false where either is a NaN.
pub open spec fn num_lt(a: u64, b: u64) -> bool {
    !is_nan(a) && !is_nan(b) && rank(a) < rank(b)
}

/// `a == b` as doubles: false where either is a NaN.
pub open spec fn num_eq(a: u64, b: u64) -> bool {
    !is_nan(a) && !is_nan(b) && rank(a) == rank(b)
}

fn nan(b: u64) -> (r: bool)
    ensures
        r == is_nan(b),
{
    if b >= SIGN_BIT {
        b - SIGN_BIT > INFINITY_BITS
    } else {
        b > INFINITY_BITS
    }
}

/// Whether `a < b` as doubles.
pub fn less(a: u64, b: u64) -> (r: bool)
    ensures
        r == num_lt(a, b),
{
    if nan(a) || nan(b) {
        false
    } else if a >= SIGN_BIT {
        if b >= SIGN_BIT {
            a > b
        } else {
            a > SIGN_BIT || b > 0
        }
    } else {
        b < SIGN_BIT && a < b
    }
}

/// Whether `a == b` as doubles.
pub fn equal(a: u64, b: u64) -> (r: bool)
    ensures
        r == num_eq(a, b),
{
    if nan(a) || nan(b) {
        false
    } else {
        a == b || (a == 0 && b == SIGN_BIT) || (a == SIGN_BIT && b == 0)
    }
}

/// The smaller of two numbers; the first where neither is smaller.
pub open spec fn num_min(a: u64, b: u64) -> u64 {
    if num_lt(b, a) {
        b
    } else {
        a
    }
}

/// The larger of two numbers; the first where neither is larger.
pub open spec fn num_max(a: u64, b: u64) -> u64 {
    if num_lt(a, b) {
        b
    } else {
        a
    }
}

/// The smaller of two numbers.
pub fn smaller(a: u64, b: u64) -> (r: u64)
    ensures
        r == num_min(a, b),
{
    if less(b, a) {
        b
    } else {
        a
    }
}

/// The larger of two numbers.
pub fn larger(a: u64, b: u64) -> (r: u64)
    ensures
        r == num_max(a, b),
{
    if less(a, b) {
        b
    } else {
        a
    }
}

// What the patterns mean.
/// The exponent field of a pattern: eleven bits below the sign.
pub open spec fn exponent(b: u64) -> nat {
    ((b as nat) / 0x10_0000_0000_0000) % 2048
}

/// The fraction field of a pattern: the low 52 bits.
pub open spec fn fraction(b: u64) -> nat {
    (b as nat) % 0x10_0000_0000_0000
}

/// The value that IEEE 754 gives a pattern, without its sign, in units of
/// `2^-1074`: the fraction alone where the exponent is zero, else the fraction
/// with its hidden bit, times two for each step of the exponent. Infinity is
/// given the value that would follow the largest number.
pub open spec fn unsigned_value(b: u64) -> nat {
    if exponent(b) == 0 {
        fraction(b)
    } else {
        (0x10_0000_0000_0000 + fraction(b)) * pow2((exponent(b) - 1) as nat)
    }
}

/// The value of a pattern in units of `2^-1074`.
pub open spec fn value(b: u64) -> int {
    if b >= 0x8000_0000_0000_0000 {
        -(unsigned_value(b) as int)
    } else {
        unsigned_value(b) as int
    }
}

/// A pattern below `b` in magnitude has the smaller value.
proof fn lemma_values_ascend(a: u64, b: u64)
    requires
        magnitude(a) < magnitude(b),
    ensures
        unsigned_value(a) < unsigned_value(b),
{
    let (ea, eb) = (exponent(a), exponent(b));
    let (fa, fb) = (fraction(a), fraction(b));
    lemma_fields(a);
    lemma_fields(b);
    assert(ea < eb || (ea == eb && fa < fb));
    if ea == eb {
        if ea > 0 {
            let p = pow2((ea - 1) as nat);
            lemma_pow2_pos((ea - 1) as nat);
            assert((0x10_0000_0000_0000 + fa) * p < (0x10_0000_0000_0000 + fb) * p)
                by (nonlinear_arith)
                requires
                    fa < fb,
                    p > 0,
            ;
        }
    } else {
        let q = pow2((eb - 1) as nat);
        lemma_pow2_pos((eb - 1) as nat);
        assert((0x10_0000_0000_0000 + fb) * q >= 0x10_0000_0000_0000 * q) by (nonlinear_arith)
            requires
                q > 0,
                fb >= 0,
        ;
        if ea > 0 {
            let p = pow2((ea - 1) as nat);
            lemma_pow2_pos((ea - 1) as nat);
            lemma_pow2_unfold(ea);
            if ea < eb - 1 {
                lemma_pow2_strictly_increases(ea, (eb - 1) as nat);
            }
            assert(2 * p <= q);
            assert((0x10_0000_0000_0000 + fa) * p < 0x10_0000_0000_0000 * q) by (nonlinear_arith)
                requires
                    fa < 0x10_0000_0000_0000,
                    p > 0,
                    2 * p <= q,
            ;
        }
    }
}

/// A pattern is made of its sign and its two fields.
proof fn lemma_fields(b: u64)
    ensures
        magnitude(b) == exponent(b) * 0x10_0000_0000_0000 + fraction(b),
        exponent(b) < 2048,
        fraction(b) < 0x10_0000_0000_0000,
{
}

/// Patterns are ordered as the numbers that IEEE 754 gives them: a pattern ranks
/// below another exactly where its number is smaller, and both zeros are equal. A
/// pattern is no number exactly where its exponent is all ones and its fraction
/// is not zero.
pub proof fn law_order_of_patterns(a: u64, b: u64)
    ensures
        is_nan(a) <==> exponent(a) == 2047 && fraction(a) != 0,
        num_lt(a, b) <==> !is_nan(a) && !is_nan(b) && value(a) < value(b),
        num_eq(a, b) <==> !is_nan(a) && !is_nan(b) && value(a) == value(b),
        rank(a) < rank(b) <==> value(a) < value(b),
        rank(a) == rank(b) <==> value(a) == value(b),
{
    lemma_fields(a);
    lemma_fields(b);
    if magnitude(a) < magnitude(b) {
        lemma_values_ascend(a, b);
    } else if magnitude(b) < magnitude(a) {
        lemma_values_ascend(b, a);
    } else {
        assert(exponent(a) == exponent(b) && fraction(a) == fraction(b));
    }
    if magnitude(a) > 0 {
        lemma_values_ascend(0, a);
    } else {
        assert(exponent(a) == 0 && fraction(a) == 0);
    }
    if magnitude(b) > 0 {
        lemma_values_ascend(0, b);
    } else {
        assert(exponent(b) == 0 && fraction(b) == 0);
    }
}

/// The smaller of two is one of them and not larger than either; the larger is
/// one of them and not smaller than either. What is no number never replaces the
/// first.
pub proof fn law_smaller_and_larger(a: u64, b: u64)
    ensures
        num_min(a, b) == a || num_min(a, b) == b,
        num_max(a, b) == a || num_max(a, b) == b,
        !is_nan(a) && !is_nan(b) ==> value(num_min(a, b)) <= value(a) && value(num_min(a, b))
            <= value(b),
        !is_nan(a) && !is_nan(b) ==> value(num_max(a, b)) >= value(a) && value(num_max(a, b))
            >= value(b),
        is_nan(a) || is_nan(b) ==> num_min(a, b) == a && num_max(a, b) == a,
{
    law_order_of_patterns(a, b);
    law_order_of_patterns(b, a);
}

} // verus!
