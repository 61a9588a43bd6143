//! The order of single-precision numbers, by their bit patterns.
use vstd::prelude::*;
use vstd::arithmetic::power2::pow2;

verus! {

/// Whether a bit pattern stands for no number.
pub open spec fn is_nan(bits: u32) -> bool {
    bits % 0x8000_0000 > 0x7F80_0000
}

/// A whole number for every number, in the same order; both zeros get the same.
pub open spec fn float_key(bits: u32) -> int {
    if bits < 0x8000_0000 {
        bits as int
    } else {
        0x8000_0000 - bits
    }
}

/// Whether one number is less than another; never, where one of them is no number.
pub open spec fn float_less(a: u32, b: u32) -> bool {
    !is_nan(a) && !is_nan(b) && float_key(a) < float_key(b)
}

/// Whether one number is at most another; never, where one of them is no number.
pub open spec fn float_at_most(a: u32, b: u32) -> bool {
    !is_nan(a) && !is_nan(b) && float_key(a) <= float_key(b)
}

/// Whether a bit pattern stands for a number, and not for an infinity.
pub open spec fn is_finite(bits: u32) -> bool {
    bits % 0x8000_0000 < 0x7F80_0000
}

pub fn key_of(bits: u32) -> (r: i64)
    ensures
        r == float_key(bits),
{
    if bits < 0x8000_0000 {
        bits as i64
    } else {
        0x8000_0000 - bits as i64
    }
}

pub fn less(a: u32, b: u32) -> (r: bool)
    ensures
        r == float_less(a, b),
{
    a % 0x8000_0000 <= 0x7F80_0000 && b % 0x8000_0000 <= 0x7F80_0000 && key_of(a) < key_of(b)
}

pub fn at_most(a: u32, b: u32) -> (r: bool)
    ensures
        r == float_at_most(a, b),
{
    a % 0x8000_0000 <= 0x7F80_0000 && b % 0x8000_0000 <= 0x7F80_0000 && key_of(a) <= key_of(b)
}

// ---- numbers ----
/// How large a number is, in units of the smallest one above zero: eight bits of exponent, then 23 of the
/// fraction, before which a one stands unless the exponent is zero.
pub open spec fn magnitude(pattern: int) -> int {
    let exponent = pattern / 0x80_0000;
    let fraction = pattern % 0x80_0000;
    if exponent == 0 {
        fraction
    } else {
        (0x80_0000 + fraction) * pow2((exponent - 1) as nat)
    }
}

/// The number that a bit pattern stands for, in units of the smallest one above zero; the first bit is the
/// sign. Infinities come out above and below all numbers.
pub open spec fn number(bits: u32) -> int {
    if bits < 0x8000_0000 {
        magnitude(bits as int)
    } else {
        -magnitude(bits - 0x8000_0000)
    }
}

proof fn lemma_magnitude_steps(pattern: int)
    requires
        0 <= pattern,
    ensures
        magnitude(pattern) < magnitude(pattern + 1),
{
    let (e, f) = (pattern / 0x80_0000, pattern % 0x80_0000);
    if e >= 1 {
        vstd::arithmetic::power2::lemma_pow2_pos((e - 1) as nat);
    }
    if f < 0x7F_FFFF {
        assert((pattern + 1) / 0x80_0000 == e && (pattern + 1) % 0x80_0000 == f + 1);
        if e >= 1 {
            let p = pow2((e - 1) as nat);
            assert((0x80_0000 + f) * p < (0x80_0000 + (f + 1)) * p) by (nonlinear_arith)
                requires
                    p > 0,
            ;
        }
    } else {
        assert((pattern + 1) / 0x80_0000 == e + 1 && (pattern + 1) % 0x80_0000 == 0);
        if e == 0 {
            vstd::arithmetic::power2::lemma2_to64();
        } else {
            let p = pow2((e - 1) as nat);
            vstd::arithmetic::power2::lemma_pow2_unfold(e as nat);
            assert((0x80_0000 + f) * p < (0x80_0000 + 0) * (2 * p)) by (nonlinear_arith)
                requires
                    p > 0,
                    f == 0x7F_FFFF,
            ;
        }
    }
}

proof fn lemma_magnitudes_ascend(a: int, b: int)
    requires
        0 <= a < b,
    ensures
        magnitude(a) < magnitude(b),
    decreases b - a,
{
    lemma_magnitude_steps(b - 1);
    if a < b - 1 {
        lemma_magnitudes_ascend(a, b - 1);
    }
}

/// Patterns compare as the numbers that they stand for. No number is one whose exponent is all ones and
/// whose fraction is not zero; it compares with nothing.
pub proof fn law_patterns_compare_as_numbers(a: u32, b: u32)
    ensures
        is_nan(a) <==> a / 0x80_0000 % 0x100 == 0xFF && a % 0x80_0000 != 0,
        is_finite(a) <==> a / 0x80_0000 % 0x100 != 0xFF,
        !is_nan(a) && !is_nan(b) ==> (float_less(a, b) <==> number(a) < number(b)),
        !is_nan(a) && !is_nan(b) ==> (float_at_most(a, b) <==> number(a) <= number(b)),
        is_nan(a) || is_nan(b) ==> !float_less(a, b) && !float_at_most(a, b),
        float_key(a) < float_key(b) <==> number(a) < number(b),
{
    let (x, y) = (a as int % 0x8000_0000, b as int % 0x8000_0000);
    if x < y {
        lemma_magnitudes_ascend(x, y);
    }
    if y < x {
        lemma_magnitudes_ascend(y, x);
    }
    if 0 < x {
        lemma_magnitudes_ascend(0, x);
    }
    if 0 < y {
        lemma_magnitudes_ascend(0, y);
    }
    assert(magnitude(0) == 0);
}

/// The pattern of a whole power of two times a small odd number, from its parts.
pub proof fn lemma_number_parts(bits: u32, exponent: nat, fraction: int)
    requires
        bits == exponent * 0x80_0000 + fraction,
        1 <= exponent < 0x100,
        0 <= fraction < 0x80_0000,
    ensures
        number(bits) == (0x80_0000 + fraction) * pow2((exponent - 1) as nat),
{
    assert(bits as int / 0x80_0000 == exponent);
    assert(bits as int % 0x80_0000 == fraction);
}

} // verus!
