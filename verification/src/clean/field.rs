//! Arithmetic in the field of 256 elements.
//!
//! An element is a byte read as a polynomial over the field of two elements. Sums are exclusive ors;
//! products are taken modulo a polynomial of degree 8, given by its low byte.
use vstd::prelude::*;

verus! {

/// The low byte of the polynomial `x^8 + x^4 + x^3 + x^2 + 1`, used by QR codes.
pub const QR_POLYNOMIAL: u8 = 0x1D;

/// The low byte of the polynomial `x^8 + x^5 + x^3 + x^2 + 1`, used by DataMatrix.
pub const DATA_MATRIX_POLYNOMIAL: u8 = 0x2D;

/// The polynomials that make a field in which `x` generates every element but zero.
pub open spec fn is_field(p: u8) -> bool {
    p == QR_POLYNOMIAL || p == DATA_MATRIX_POLYNOMIAL
}

/// The product with `x`.
pub open spec fn xtime(p: u8, a: u8) -> u8 {
    if a >= 0x80u8 {
        (a << 1u8) ^ p
    } else {
        a << 1u8
    }
}

/// `x` when bit `i` of `b` is set, else zero.
pub open spec fn pick(b: u8, i: u8, x: u8) -> u8 {
    if (b >> i) & 1u8 == 1u8 {
        x
    } else {
        0u8
    }
}

/// The sum of those of eight elements that the bits of `b` pick.
#[verifier::opaque]
pub open spec fn combine(
    b: u8,
    a0: u8,
    a1: u8,
    a2: u8,
    a3: u8,
    a4: u8,
    a5: u8,
    a6: u8,
    a7: u8,
) -> u8 {
    pick(b, 0, a0) ^ pick(b, 1, a1) ^ pick(b, 2, a2) ^ pick(b, 3, a3) ^ pick(b, 4, a4) ^ pick(
        b,
        5,
        a5,
    ) ^ pick(b, 6, a6) ^ pick(b, 7, a7)
}

/// The product: the sum of `a`, `a x`, `a x^2` and so on, as far as `b` holds these powers.
pub open spec fn gmul(p: u8, a: u8, b: u8) -> u8 {
    let a1 = xtime(p, a);
    let a2 = xtime(p, a1);
    let a3 = xtime(p, a2);
    let a4 = xtime(p, a3);
    let a5 = xtime(p, a4);
    let a6 = xtime(p, a5);
    let a7 = xtime(p, a6);
    combine(b, a, a1, a2, a3, a4, a5, a6, a7)
}

proof fn bits_of_sum(
    b: u8,
    c: u8,
    a0: u8,
    a1: u8,
    a2: u8,
    a3: u8,
    a4: u8,
    a5: u8,
    a6: u8,
    a7: u8,
)
    by (bit_vector)
    ensures
        combine(b ^ c, a0, a1, a2, a3, a4, a5, a6, a7) == combine(
            b,
            a0,
            a1,
            a2,
            a3,
            a4,
            a5,
            a6,
            a7,
        ) ^ combine(c, a0, a1, a2, a3, a4, a5, a6, a7),
{
}

proof fn bits_of_summands(
    b: u8,
    a0: u8,
    a1: u8,
    a2: u8,
    a3: u8,
    a4: u8,
    a5: u8,
    a6: u8,
    a7: u8,
    c0: u8,
    c1: u8,
    c2: u8,
    c3: u8,
    c4: u8,
    c5: u8,
    c6: u8,
    c7: u8,
)
    by (bit_vector)
    ensures
        combine(b, a0 ^ c0, a1 ^ c1, a2 ^ c2, a3 ^ c3, a4 ^ c4, a5 ^ c5, a6 ^ c6, a7 ^ c7)
            == combine(b, a0, a1, a2, a3, a4, a5, a6, a7) ^ combine(
            b,
            c0,
            c1,
            c2,
            c3,
            c4,
            c5,
            c6,
            c7,
        ),
{
}

proof fn bits_of_xtime(p: u8, a: u8, b: u8)
    by (bit_vector)
    ensures
        xtime(p, a ^ b) == xtime(p, a) ^ xtime(p, b),
        xtime(p, 0) == 0,
        p & 1 == 1 && a != 0 ==> xtime(p, a) != 0,
{
}

proof fn bits_of_xor(a: u8, b: u8, c: u8)
    by (bit_vector)
    ensures
        a ^ b == b ^ a,
        (a ^ b) ^ c == a ^ (b ^ c),
        a ^ 0 == a,
        0 ^ a == a,
        a ^ a == 0,
        a ^ b == 0 ==> a == b,
        (a ^ b) ^ b == a,
{
}

proof fn bits_of_identity(a: u8)
    by (bit_vector)
    ensures
        combine(a, 1, 2, 4, 8, 16, 32, 64, 128) == a,
        combine(0, a, a, a, a, a, a, a, a) == 0,
        combine(a, 0, 0, 0, 0, 0, 0, 0, 0) == 0,
        0x1Du8 & 1 == 1,
        0x2Du8 & 1 == 1,
        xtime(0x1D, 1) == 2,
        xtime(0x1D, 2) == 4,
        xtime(0x1D, 4) == 8,
        xtime(0x1D, 8) == 16,
        xtime(0x1D, 16) == 32,
        xtime(0x1D, 32) == 64,
        xtime(0x1D, 64) == 128,
        xtime(0x2D, 1) == 2,
        xtime(0x2D, 2) == 4,
        xtime(0x2D, 4) == 8,
        xtime(0x2D, 8) == 16,
        xtime(0x2D, 16) == 32,
        xtime(0x2D, 32) == 64,
        xtime(0x2D, 64) == 128,
{
}

/// The sum of two elements.
pub open spec fn gadd(a: u8, b: u8) -> u8 {
    a ^ b
}

/// The laws of sums.
pub proof fn lemma_add(a: u8, b: u8, c: u8)
    ensures
        gadd(a, b) == gadd(b, a),
        gadd(gadd(a, b), c) == gadd(a, gadd(b, c)),
        gadd(a, 0) == a,
        gadd(0, a) == a,
        gadd(a, a) == 0,
        gadd(a, b) == 0 ==> a == b,
        gadd(gadd(a, b), b) == a,
{
    bits_of_xor(a, b, c);
}

/// Four elements can be summed in pairs either way.
pub proof fn lemma_add_four(a: u8, b: u8, c: u8, d: u8)
    ensures
        gadd(gadd(a, b), gadd(c, d)) == gadd(gadd(a, c), gadd(b, d)),
{
    lemma_add(a, b, gadd(c, d));
    lemma_add(b, c, d);
    lemma_add(c, b, d);
    lemma_add(a, c, gadd(b, d));
}

/// Products distribute over sums in the second factor.
pub proof fn lemma_mul_add(p: u8, a: u8, b: u8, c: u8)
    ensures
        gmul(p, a, gadd(b, c)) == gadd(gmul(p, a, b), gmul(p, a, c)),
{
    let a1 = xtime(p, a);
    let a2 = xtime(p, a1);
    let a3 = xtime(p, a2);
    let a4 = xtime(p, a3);
    let a5 = xtime(p, a4);
    let a6 = xtime(p, a5);
    let a7 = xtime(p, a6);
    bits_of_sum(b, c, a, a1, a2, a3, a4, a5, a6, a7);
}

/// Products distribute over sums in the first factor.
pub proof fn lemma_add_mul(p: u8, a: u8, c: u8, b: u8)
    ensures
        gmul(p, gadd(a, c), b) == gadd(gmul(p, a, b), gmul(p, c, b)),
{
    let a1 = xtime(p, a);
    let a2 = xtime(p, a1);
    let a3 = xtime(p, a2);
    let a4 = xtime(p, a3);
    let a5 = xtime(p, a4);
    let a6 = xtime(p, a5);
    let a7 = xtime(p, a6);
    let c1 = xtime(p, c);
    let c2 = xtime(p, c1);
    let c3 = xtime(p, c2);
    let c4 = xtime(p, c3);
    let c5 = xtime(p, c4);
    let c6 = xtime(p, c5);
    let c7 = xtime(p, c6);
    bits_of_xtime(p, a, c);
    bits_of_xtime(p, a1, c1);
    bits_of_xtime(p, a2, c2);
    bits_of_xtime(p, a3, c3);
    bits_of_xtime(p, a4, c4);
    bits_of_xtime(p, a5, c5);
    bits_of_xtime(p, a6, c6);
    bits_of_summands(b, a, a1, a2, a3, a4, a5, a6, a7, c, c1, c2, c3, c4, c5, c6, c7);
}

/// Zero times anything is zero.
pub proof fn lemma_mul_zero(p: u8, a: u8)
    ensures
        gmul(p, a, 0) == 0,
        gmul(p, 0, a) == 0,
{
    lemma_mul_add(p, a, 0, 0);
    lemma_add_mul(p, 0, 0, a);
    lemma_add(0, 0, 0);
    lemma_add(gmul(p, a, 0), gmul(p, a, 0), 0);
    lemma_add(gmul(p, 0, a), gmul(p, 0, a), 0);
}

/// `x` can be drawn out of the first factor.
pub proof fn lemma_xtime_mul(p: u8, a: u8, b: u8)
    ensures
        gmul(p, xtime(p, a), b) == xtime(p, gmul(p, a, b)),
{
    reveal(combine);
    let a1 = xtime(p, a);
    let a2 = xtime(p, a1);
    let a3 = xtime(p, a2);
    let a4 = xtime(p, a3);
    let a5 = xtime(p, a4);
    let a6 = xtime(p, a5);
    let a7 = xtime(p, a6);
    let t0 = pick(b, 0, a);
    let t1 = pick(b, 1, a1);
    let t2 = pick(b, 2, a2);
    let t3 = pick(b, 3, a3);
    let t4 = pick(b, 4, a4);
    let t5 = pick(b, 5, a5);
    let t6 = pick(b, 6, a6);
    let t7 = pick(b, 7, a7);
    bits_of_xtime(p, t0, t1);
    bits_of_xtime(p, t0 ^ t1, t2);
    bits_of_xtime(p, t0 ^ t1 ^ t2, t3);
    bits_of_xtime(p, t0 ^ t1 ^ t2 ^ t3, t4);
    bits_of_xtime(p, t0 ^ t1 ^ t2 ^ t3 ^ t4, t5);
    bits_of_xtime(p, t0 ^ t1 ^ t2 ^ t3 ^ t4 ^ t5, t6);
    bits_of_xtime(p, t0 ^ t1 ^ t2 ^ t3 ^ t4 ^ t5 ^ t6, t7);
}

/// A product whose second factor is a combination is the combination of the products.
proof fn lemma_mul_combine(p: u8, a: u8, b: u8, c0: u8, c1: u8, c2: u8, c3: u8, c4: u8, c5: u8, c6: u8, c7: u8)
    ensures
        gmul(p, a, combine(b, c0, c1, c2, c3, c4, c5, c6, c7)) == combine(
            b,
            gmul(p, a, c0),
            gmul(p, a, c1),
            gmul(p, a, c2),
            gmul(p, a, c3),
            gmul(p, a, c4),
            gmul(p, a, c5),
            gmul(p, a, c6),
            gmul(p, a, c7),
        ),
{
    reveal(combine);
    let t0 = pick(b, 0, c0);
    let t1 = pick(b, 1, c1);
    let t2 = pick(b, 2, c2);
    let t3 = pick(b, 3, c3);
    let t4 = pick(b, 4, c4);
    let t5 = pick(b, 5, c5);
    let t6 = pick(b, 6, c6);
    let t7 = pick(b, 7, c7);
    lemma_mul_zero(p, a);
    lemma_mul_add(p, a, t0, t1);
    lemma_mul_add(p, a, t0 ^ t1, t2);
    lemma_mul_add(p, a, t0 ^ t1 ^ t2, t3);
    lemma_mul_add(p, a, t0 ^ t1 ^ t2 ^ t3, t4);
    lemma_mul_add(p, a, t0 ^ t1 ^ t2 ^ t3 ^ t4, t5);
    lemma_mul_add(p, a, t0 ^ t1 ^ t2 ^ t3 ^ t4 ^ t5, t6);
    lemma_mul_add(p, a, t0 ^ t1 ^ t2 ^ t3 ^ t4 ^ t5 ^ t6, t7);
}

/// A product whose first factor is a combination is the combination of the products.
proof fn lemma_combine_mul(p: u8, a: u8, b: u8, c0: u8, c1: u8, c2: u8, c3: u8, c4: u8, c5: u8, c6: u8, c7: u8)
    ensures
        gmul(p, combine(b, c0, c1, c2, c3, c4, c5, c6, c7), a) == combine(
            b,
            gmul(p, c0, a),
            gmul(p, c1, a),
            gmul(p, c2, a),
            gmul(p, c3, a),
            gmul(p, c4, a),
            gmul(p, c5, a),
            gmul(p, c6, a),
            gmul(p, c7, a),
        ),
{
    reveal(combine);
    let t0 = pick(b, 0, c0);
    let t1 = pick(b, 1, c1);
    let t2 = pick(b, 2, c2);
    let t3 = pick(b, 3, c3);
    let t4 = pick(b, 4, c4);
    let t5 = pick(b, 5, c5);
    let t6 = pick(b, 6, c6);
    let t7 = pick(b, 7, c7);
    lemma_mul_zero(p, a);
    lemma_add_mul(p, t0, t1, a);
    lemma_add_mul(p, t0 ^ t1, t2, a);
    lemma_add_mul(p, t0 ^ t1 ^ t2, t3, a);
    lemma_add_mul(p, t0 ^ t1 ^ t2 ^ t3, t4, a);
    lemma_add_mul(p, t0 ^ t1 ^ t2 ^ t3 ^ t4, t5, a);
    lemma_add_mul(p, t0 ^ t1 ^ t2 ^ t3 ^ t4 ^ t5, t6, a);
    lemma_add_mul(p, t0 ^ t1 ^ t2 ^ t3 ^ t4 ^ t5 ^ t6, t7, a);
}

/// One times anything is that.
pub proof fn lemma_mul_one(p: u8, a: u8)
    requires
        is_field(p),
    ensures
        gmul(p, 1, a) == a,
        gmul(p, a, 1) == a,
{
    bits_of_identity(a);
    assert(gmul(p, 1, a) == combine(a, 1, 2, 4, 8, 16, 32, 64, 128));
    lemma_mul_commutes(p, a, 1);
}

/// The order of the factors does not matter.
pub proof fn lemma_mul_commutes(p: u8, a: u8, b: u8)
    requires
        is_field(p),
    ensures
        gmul(p, a, b) == gmul(p, b, a),
{
    bits_of_identity(a);
    bits_of_identity(b);
    assert(gmul(p, 1, b) == combine(b, 1, 2, 4, 8, 16, 32, 64, 128));
    lemma_combine_mul(p, b, a, 1, 2, 4, 8, 16, 32, 64, 128);
    lemma_xtime_mul(p, 1, b);
    lemma_xtime_mul(p, 2, b);
    lemma_xtime_mul(p, 4, b);
    lemma_xtime_mul(p, 8, b);
    lemma_xtime_mul(p, 16, b);
    lemma_xtime_mul(p, 32, b);
    lemma_xtime_mul(p, 64, b);
}

/// The grouping of the factors does not matter.
pub proof fn lemma_mul_associates(p: u8, a: u8, b: u8, c: u8)
    requires
        is_field(p),
    ensures
        gmul(p, gmul(p, a, b), c) == gmul(p, a, gmul(p, b, c)),
{
    let b1 = xtime(p, b);
    let b2 = xtime(p, b1);
    let b3 = xtime(p, b2);
    let b4 = xtime(p, b3);
    let b5 = xtime(p, b4);
    let b6 = xtime(p, b5);
    let b7 = xtime(p, b6);
    lemma_mul_combine(p, a, c, b, b1, b2, b3, b4, b5, b6, b7);
    lemma_mul_xtime(p, a, b);
    lemma_mul_xtime(p, a, b1);
    lemma_mul_xtime(p, a, b2);
    lemma_mul_xtime(p, a, b3);
    lemma_mul_xtime(p, a, b4);
    lemma_mul_xtime(p, a, b5);
    lemma_mul_xtime(p, a, b6);
}

/// `x` can be drawn out of the second factor.
proof fn lemma_mul_xtime(p: u8, a: u8, b: u8)
    requires
        is_field(p),
    ensures
        gmul(p, a, xtime(p, b)) == xtime(p, gmul(p, a, b)),
{
    lemma_mul_commutes(p, a, xtime(p, b));
    lemma_xtime_mul(p, b, a);
    lemma_mul_commutes(p, a, b);
}

/// The powers of `x`.
pub open spec fn gexp(p: u8, n: nat) -> u8
    decreases n,
{
    if n == 0 {
        1
    } else {
        xtime(p, gexp(p, (n - 1) as nat))
    }
}

/// `e` times the element whose products with the powers of `x` are given, when `on`; else `e`.
#[verifier::opaque]
spec fn gated(
    on: bool,
    e: u8,
    k0: u8,
    k1: u8,
    k2: u8,
    k3: u8,
    k4: u8,
    k5: u8,
    k6: u8,
    k7: u8,
) -> u8 {
    if on {
        combine(e, k0, k1, k2, k3, k4, k5, k6, k7)
    } else {
        e
    }
}

/// A power of `x` in the QR field, by repeated squaring.
spec fn squared_qr(i: u8) -> u8 {
    let e1 = gated((i >> 0u8) & 1u8 == 1u8, 1u8, 0x02, 0x04, 0x08, 0x10, 0x20, 0x40, 0x80, 0x1D);
    let e2 = gated((i >> 1u8) & 1u8 == 1u8, e1, 0x04, 0x08, 0x10, 0x20, 0x40, 0x80, 0x1D, 0x3A);
    let e3 = gated((i >> 2u8) & 1u8 == 1u8, e2, 0x10, 0x20, 0x40, 0x80, 0x1D, 0x3A, 0x74, 0xE8);
    let e4 = gated((i >> 3u8) & 1u8 == 1u8, e3, 0x1D, 0x3A, 0x74, 0xE8, 0xCD, 0x87, 0x13, 0x26);
    let e5 = gated((i >> 4u8) & 1u8 == 1u8, e4, 0x4C, 0x98, 0x2D, 0x5A, 0xB4, 0x75, 0xEA, 0xC9);
    let e6 = gated((i >> 5u8) & 1u8 == 1u8, e5, 0x9D, 0x27, 0x4E, 0x9C, 0x25, 0x4A, 0x94, 0x35);
    let e7 = gated((i >> 6u8) & 1u8 == 1u8, e6, 0x5F, 0xBE, 0x61, 0xC2, 0x99, 0x2F, 0x5E, 0xBC);
    let e8 = gated((i >> 7u8) & 1u8 == 1u8, e7, 0x85, 0x17, 0x2E, 0x5C, 0xB8, 0x6D, 0xDA, 0xA9);
    e8
}

/// A power of `x` in the DataMatrix field, by repeated squaring.
spec fn squared_data_matrix(i: u8) -> u8 {
    let e1 = gated((i >> 0u8) & 1u8 == 1u8, 1u8, 0x02, 0x04, 0x08, 0x10, 0x20, 0x40, 0x80, 0x2D);
    let e2 = gated((i >> 1u8) & 1u8 == 1u8, e1, 0x04, 0x08, 0x10, 0x20, 0x40, 0x80, 0x2D, 0x5A);
    let e3 = gated((i >> 2u8) & 1u8 == 1u8, e2, 0x10, 0x20, 0x40, 0x80, 0x2D, 0x5A, 0xB4, 0x45);
    let e4 = gated((i >> 3u8) & 1u8 == 1u8, e3, 0x2D, 0x5A, 0xB4, 0x45, 0x8A, 0x39, 0x72, 0xE4);
    let e5 = gated((i >> 4u8) & 1u8 == 1u8, e4, 0xE5, 0xE7, 0xE3, 0xEB, 0xFB, 0xDB, 0x9B, 0x1B);
    let e6 = gated((i >> 5u8) & 1u8 == 1u8, e5, 0x5D, 0xBA, 0x59, 0xB2, 0x49, 0x92, 0x09, 0x12);
    let e7 = gated((i >> 6u8) & 1u8 == 1u8, e6, 0xF6, 0xC1, 0xAF, 0x73, 0xE6, 0xE1, 0xEF, 0xF3);
    let e8 = gated((i >> 7u8) & 1u8 == 1u8, e7, 0x75, 0xEA, 0xF9, 0xDF, 0x93, 0x0B, 0x16, 0x2C);
    e8
}

#[verifier::rlimit(100)]
proof fn bits_of_squared_qr(i: u8, k: u8, e1: u8, e2: u8, e3: u8, e4: u8, e5: u8, e6: u8, e7: u8, e8: u8, f1: u8, f2: u8, f3: u8, f4: u8, f5: u8, f6: u8, f7: u8, f8: u8)
    by (bit_vector)
    requires
        i < 255,
        k == i + 1,
        e1 == gated((i >> 0u8) & 1u8 == 1u8, 1u8, 0x02, 0x04, 0x08, 0x10, 0x20, 0x40, 0x80, 0x1D),
        e2 == gated((i >> 1u8) & 1u8 == 1u8, e1, 0x04, 0x08, 0x10, 0x20, 0x40, 0x80, 0x1D, 0x3A),
        e3 == gated((i >> 2u8) & 1u8 == 1u8, e2, 0x10, 0x20, 0x40, 0x80, 0x1D, 0x3A, 0x74, 0xE8),
        e4 == gated((i >> 3u8) & 1u8 == 1u8, e3, 0x1D, 0x3A, 0x74, 0xE8, 0xCD, 0x87, 0x13, 0x26),
        e5 == gated((i >> 4u8) & 1u8 == 1u8, e4, 0x4C, 0x98, 0x2D, 0x5A, 0xB4, 0x75, 0xEA, 0xC9),
        e6 == gated((i >> 5u8) & 1u8 == 1u8, e5, 0x9D, 0x27, 0x4E, 0x9C, 0x25, 0x4A, 0x94, 0x35),
        e7 == gated((i >> 6u8) & 1u8 == 1u8, e6, 0x5F, 0xBE, 0x61, 0xC2, 0x99, 0x2F, 0x5E, 0xBC),
        e8 == gated((i >> 7u8) & 1u8 == 1u8, e7, 0x85, 0x17, 0x2E, 0x5C, 0xB8, 0x6D, 0xDA, 0xA9),
        f1 == gated((k >> 0u8) & 1u8 == 1u8, 1u8, 0x02, 0x04, 0x08, 0x10, 0x20, 0x40, 0x80, 0x1D),
        f2 == gated((k >> 1u8) & 1u8 == 1u8, f1, 0x04, 0x08, 0x10, 0x20, 0x40, 0x80, 0x1D, 0x3A),
        f3 == gated((k >> 2u8) & 1u8 == 1u8, f2, 0x10, 0x20, 0x40, 0x80, 0x1D, 0x3A, 0x74, 0xE8),
        f4 == gated((k >> 3u8) & 1u8 == 1u8, f3, 0x1D, 0x3A, 0x74, 0xE8, 0xCD, 0x87, 0x13, 0x26),
        f5 == gated((k >> 4u8) & 1u8 == 1u8, f4, 0x4C, 0x98, 0x2D, 0x5A, 0xB4, 0x75, 0xEA, 0xC9),
        f6 == gated((k >> 5u8) & 1u8 == 1u8, f5, 0x9D, 0x27, 0x4E, 0x9C, 0x25, 0x4A, 0x94, 0x35),
        f7 == gated((k >> 6u8) & 1u8 == 1u8, f6, 0x5F, 0xBE, 0x61, 0xC2, 0x99, 0x2F, 0x5E, 0xBC),
        f8 == gated((k >> 7u8) & 1u8 == 1u8, f7, 0x85, 0x17, 0x2E, 0x5C, 0xB8, 0x6D, 0xDA, 0xA9),
    ensures
        f8 == xtime(0x1D, e8),
        0 < i ==> e8 != 1,
        i == 0 ==> e8 == 1,
        k == 255 ==> f8 == 1,
{
}

proof fn lemma_squared_qr(i: u8)
    requires
        i < 255,
    ensures
        squared_qr((i + 1) as u8) == xtime(0x1D, squared_qr(i)),
        0 < i ==> squared_qr(i) != 1,
        i == 0 ==> squared_qr(i) == 1,
        i == 254 ==> squared_qr((i + 1) as u8) == 1,
{
    let k = (i + 1) as u8;
    let e1 = gated((i >> 0u8) & 1u8 == 1u8, 1u8, 0x02, 0x04, 0x08, 0x10, 0x20, 0x40, 0x80, 0x1D);
    let e2 = gated((i >> 1u8) & 1u8 == 1u8, e1, 0x04, 0x08, 0x10, 0x20, 0x40, 0x80, 0x1D, 0x3A);
    let e3 = gated((i >> 2u8) & 1u8 == 1u8, e2, 0x10, 0x20, 0x40, 0x80, 0x1D, 0x3A, 0x74, 0xE8);
    let e4 = gated((i >> 3u8) & 1u8 == 1u8, e3, 0x1D, 0x3A, 0x74, 0xE8, 0xCD, 0x87, 0x13, 0x26);
    let e5 = gated((i >> 4u8) & 1u8 == 1u8, e4, 0x4C, 0x98, 0x2D, 0x5A, 0xB4, 0x75, 0xEA, 0xC9);
    let e6 = gated((i >> 5u8) & 1u8 == 1u8, e5, 0x9D, 0x27, 0x4E, 0x9C, 0x25, 0x4A, 0x94, 0x35);
    let e7 = gated((i >> 6u8) & 1u8 == 1u8, e6, 0x5F, 0xBE, 0x61, 0xC2, 0x99, 0x2F, 0x5E, 0xBC);
    let e8 = gated((i >> 7u8) & 1u8 == 1u8, e7, 0x85, 0x17, 0x2E, 0x5C, 0xB8, 0x6D, 0xDA, 0xA9);
    let f1 = gated((k >> 0u8) & 1u8 == 1u8, 1u8, 0x02, 0x04, 0x08, 0x10, 0x20, 0x40, 0x80, 0x1D);
    let f2 = gated((k >> 1u8) & 1u8 == 1u8, f1, 0x04, 0x08, 0x10, 0x20, 0x40, 0x80, 0x1D, 0x3A);
    let f3 = gated((k >> 2u8) & 1u8 == 1u8, f2, 0x10, 0x20, 0x40, 0x80, 0x1D, 0x3A, 0x74, 0xE8);
    let f4 = gated((k >> 3u8) & 1u8 == 1u8, f3, 0x1D, 0x3A, 0x74, 0xE8, 0xCD, 0x87, 0x13, 0x26);
    let f5 = gated((k >> 4u8) & 1u8 == 1u8, f4, 0x4C, 0x98, 0x2D, 0x5A, 0xB4, 0x75, 0xEA, 0xC9);
    let f6 = gated((k >> 5u8) & 1u8 == 1u8, f5, 0x9D, 0x27, 0x4E, 0x9C, 0x25, 0x4A, 0x94, 0x35);
    let f7 = gated((k >> 6u8) & 1u8 == 1u8, f6, 0x5F, 0xBE, 0x61, 0xC2, 0x99, 0x2F, 0x5E, 0xBC);
    let f8 = gated((k >> 7u8) & 1u8 == 1u8, f7, 0x85, 0x17, 0x2E, 0x5C, 0xB8, 0x6D, 0xDA, 0xA9);
    bits_of_squared_qr(i, k, e1, e2, e3, e4, e5, e6, e7, e8, f1, f2, f3, f4, f5, f6, f7, f8);
}

#[verifier::rlimit(100)]
proof fn bits_of_squared_data_matrix(i: u8, k: u8, e1: u8, e2: u8, e3: u8, e4: u8, e5: u8, e6: u8, e7: u8, e8: u8, f1: u8, f2: u8, f3: u8, f4: u8, f5: u8, f6: u8, f7: u8, f8: u8)
    by (bit_vector)
    requires
        i < 255,
        k == i + 1,
        e1 == gated((i >> 0u8) & 1u8 == 1u8, 1u8, 0x02, 0x04, 0x08, 0x10, 0x20, 0x40, 0x80, 0x2D),
        e2 == gated((i >> 1u8) & 1u8 == 1u8, e1, 0x04, 0x08, 0x10, 0x20, 0x40, 0x80, 0x2D, 0x5A),
        e3 == gated((i >> 2u8) & 1u8 == 1u8, e2, 0x10, 0x20, 0x40, 0x80, 0x2D, 0x5A, 0xB4, 0x45),
        e4 == gated((i >> 3u8) & 1u8 == 1u8, e3, 0x2D, 0x5A, 0xB4, 0x45, 0x8A, 0x39, 0x72, 0xE4),
        e5 == gated((i >> 4u8) & 1u8 == 1u8, e4, 0xE5, 0xE7, 0xE3, 0xEB, 0xFB, 0xDB, 0x9B, 0x1B),
        e6 == gated((i >> 5u8) & 1u8 == 1u8, e5, 0x5D, 0xBA, 0x59, 0xB2, 0x49, 0x92, 0x09, 0x12),
        e7 == gated((i >> 6u8) & 1u8 == 1u8, e6, 0xF6, 0xC1, 0xAF, 0x73, 0xE6, 0xE1, 0xEF, 0xF3),
        e8 == gated((i >> 7u8) & 1u8 == 1u8, e7, 0x75, 0xEA, 0xF9, 0xDF, 0x93, 0x0B, 0x16, 0x2C),
        f1 == gated((k >> 0u8) & 1u8 == 1u8, 1u8, 0x02, 0x04, 0x08, 0x10, 0x20, 0x40, 0x80, 0x2D),
        f2 == gated((k >> 1u8) & 1u8 == 1u8, f1, 0x04, 0x08, 0x10, 0x20, 0x40, 0x80, 0x2D, 0x5A),
        f3 == gated((k >> 2u8) & 1u8 == 1u8, f2, 0x10, 0x20, 0x40, 0x80, 0x2D, 0x5A, 0xB4, 0x45),
        f4 == gated((k >> 3u8) & 1u8 == 1u8, f3, 0x2D, 0x5A, 0xB4, 0x45, 0x8A, 0x39, 0x72, 0xE4),
        f5 == gated((k >> 4u8) & 1u8 == 1u8, f4, 0xE5, 0xE7, 0xE3, 0xEB, 0xFB, 0xDB, 0x9B, 0x1B),
        f6 == gated((k >> 5u8) & 1u8 == 1u8, f5, 0x5D, 0xBA, 0x59, 0xB2, 0x49, 0x92, 0x09, 0x12),
        f7 == gated((k >> 6u8) & 1u8 == 1u8, f6, 0xF6, 0xC1, 0xAF, 0x73, 0xE6, 0xE1, 0xEF, 0xF3),
        f8 == gated((k >> 7u8) & 1u8 == 1u8, f7, 0x75, 0xEA, 0xF9, 0xDF, 0x93, 0x0B, 0x16, 0x2C),
    ensures
        f8 == xtime(0x2D, e8),
        0 < i ==> e8 != 1,
        i == 0 ==> e8 == 1,
        k == 255 ==> f8 == 1,
{
}

proof fn lemma_squared_data_matrix(i: u8)
    requires
        i < 255,
    ensures
        squared_data_matrix((i + 1) as u8) == xtime(0x2D, squared_data_matrix(i)),
        0 < i ==> squared_data_matrix(i) != 1,
        i == 0 ==> squared_data_matrix(i) == 1,
        i == 254 ==> squared_data_matrix((i + 1) as u8) == 1,
{
    let k = (i + 1) as u8;
    let e1 = gated((i >> 0u8) & 1u8 == 1u8, 1u8, 0x02, 0x04, 0x08, 0x10, 0x20, 0x40, 0x80, 0x2D);
    let e2 = gated((i >> 1u8) & 1u8 == 1u8, e1, 0x04, 0x08, 0x10, 0x20, 0x40, 0x80, 0x2D, 0x5A);
    let e3 = gated((i >> 2u8) & 1u8 == 1u8, e2, 0x10, 0x20, 0x40, 0x80, 0x2D, 0x5A, 0xB4, 0x45);
    let e4 = gated((i >> 3u8) & 1u8 == 1u8, e3, 0x2D, 0x5A, 0xB4, 0x45, 0x8A, 0x39, 0x72, 0xE4);
    let e5 = gated((i >> 4u8) & 1u8 == 1u8, e4, 0xE5, 0xE7, 0xE3, 0xEB, 0xFB, 0xDB, 0x9B, 0x1B);
    let e6 = gated((i >> 5u8) & 1u8 == 1u8, e5, 0x5D, 0xBA, 0x59, 0xB2, 0x49, 0x92, 0x09, 0x12);
    let e7 = gated((i >> 6u8) & 1u8 == 1u8, e6, 0xF6, 0xC1, 0xAF, 0x73, 0xE6, 0xE1, 0xEF, 0xF3);
    let e8 = gated((i >> 7u8) & 1u8 == 1u8, e7, 0x75, 0xEA, 0xF9, 0xDF, 0x93, 0x0B, 0x16, 0x2C);
    let f1 = gated((k >> 0u8) & 1u8 == 1u8, 1u8, 0x02, 0x04, 0x08, 0x10, 0x20, 0x40, 0x80, 0x2D);
    let f2 = gated((k >> 1u8) & 1u8 == 1u8, f1, 0x04, 0x08, 0x10, 0x20, 0x40, 0x80, 0x2D, 0x5A);
    let f3 = gated((k >> 2u8) & 1u8 == 1u8, f2, 0x10, 0x20, 0x40, 0x80, 0x2D, 0x5A, 0xB4, 0x45);
    let f4 = gated((k >> 3u8) & 1u8 == 1u8, f3, 0x2D, 0x5A, 0xB4, 0x45, 0x8A, 0x39, 0x72, 0xE4);
    let f5 = gated((k >> 4u8) & 1u8 == 1u8, f4, 0xE5, 0xE7, 0xE3, 0xEB, 0xFB, 0xDB, 0x9B, 0x1B);
    let f6 = gated((k >> 5u8) & 1u8 == 1u8, f5, 0x5D, 0xBA, 0x59, 0xB2, 0x49, 0x92, 0x09, 0x12);
    let f7 = gated((k >> 6u8) & 1u8 == 1u8, f6, 0xF6, 0xC1, 0xAF, 0x73, 0xE6, 0xE1, 0xEF, 0xF3);
    let f8 = gated((k >> 7u8) & 1u8 == 1u8, f7, 0x75, 0xEA, 0xF9, 0xDF, 0x93, 0x0B, 0x16, 0x2C);
    bits_of_squared_data_matrix(i, k, e1, e2, e3, e4, e5, e6, e7, e8, f1, f2, f3, f4, f5, f6, f7, f8);
}

/// `x` generates the field: its powers below 255 are one only at zero, and the 255th is one again.
proof fn lemma_exp_order(p: u8, n: nat)
    requires
        is_field(p),
        n <= 255,
    ensures
        0 < n < 255 ==> gexp(p, n) != 1,
        n == 255 ==> gexp(p, n) == 1,
        p == QR_POLYNOMIAL ==> gexp(p, n) == squared_qr(n as u8),
        p == DATA_MATRIX_POLYNOMIAL ==> gexp(p, n) == squared_data_matrix(n as u8),
    decreases n,
{
    if n == 0 {
        lemma_squared_qr(0);
        lemma_squared_data_matrix(0);
    } else {
        let m = (n - 1) as nat;
        lemma_exp_order(p, m);
        lemma_squared_qr(m as u8);
        lemma_squared_data_matrix(m as u8);
        assert((m as u8 + 1) as u8 == n as u8);
        if n < 255 {
            lemma_squared_qr(n as u8);
            lemma_squared_data_matrix(n as u8);
        }
    }
}

/// Powers multiply by adding exponents.
pub proof fn lemma_exp_add(p: u8, i: nat, j: nat)
    requires
        is_field(p),
    ensures
        gexp(p, i + j) == gmul(p, gexp(p, i), gexp(p, j)),
    decreases i,
{
    if i == 0 {
        lemma_mul_one(p, gexp(p, j));
    } else {
        lemma_exp_add(p, (i - 1) as nat, j);
        lemma_xtime_mul(p, gexp(p, (i - 1) as nat), gexp(p, j));
        assert(((i + j) - 1) as nat == (i - 1) as nat + j);
    }
}

/// No power of `x` is zero.
pub proof fn lemma_exp_nonzero(p: u8, i: nat)
    requires
        is_field(p),
    ensures
        gexp(p, i) != 0,
    decreases i,
{
    if i > 0 {
        lemma_exp_nonzero(p, (i - 1) as nat);
        bits_of_identity(0);
        bits_of_xtime(p, gexp(p, (i - 1) as nat), 0);
    }
}

/// The first 255 powers of `x` are distinct.
pub proof fn lemma_exp_injective(p: u8, i: nat, j: nat)
    requires
        is_field(p),
        i < j < 255,
    ensures
        gexp(p, i) != gexp(p, j),
    decreases i,
{
    if i == 0 {
        lemma_exp_order(p, j);
    } else {
        let a = gexp(p, (i - 1) as nat);
        let b = gexp(p, (j - 1) as nat);
        lemma_exp_injective(p, (i - 1) as nat, (j - 1) as nat);
        bits_of_identity(0);
        bits_of_xtime(p, a, b);
        bits_of_xtime(p, a ^ b, 0);
        bits_of_xor(a, b, 0);
        bits_of_xor(xtime(p, a), xtime(p, b), 0);
    }
}

/// The first `n` powers of `x`.
spec fn powers(p: u8, n: nat) -> Set<int> {
    Set::new(|a: int| exists|k: nat| k < n && #[trigger] gexp(p, k) == a)
}

proof fn lemma_powers_len(p: u8, n: nat)
    requires
        is_field(p),
        n <= 255,
    ensures
        powers(p, n).finite(),
        powers(p, n).len() == n,
    decreases n,
{
    if n == 0 {
        assert(powers(p, 0) =~= Set::empty());
    } else {
        let m = (n - 1) as nat;
        lemma_powers_len(p, m);
        assert forall|a: int| powers(p, n).contains(a) == powers(p, m).insert(
            gexp(p, m) as int,
        ).contains(a) by {
            if powers(p, n).contains(a) {
                let k = choose|k: nat| k < n && #[trigger] gexp(p, k) == a;
                if k < m {
                    assert(powers(p, m).contains(a));
                }
            }
            if powers(p, m).contains(a) {
                let k = choose|k: nat| k < m && #[trigger] gexp(p, k) == a;
                assert(k < n && gexp(p, k) == a);
            }
        }
        assert(powers(p, n) =~= powers(p, m).insert(gexp(p, m) as int));
        if powers(p, m).contains(gexp(p, m) as int) {
            let last = gexp(p, m) as int;
            let k = choose|k: nat| k < m && #[trigger] gexp(p, k) == last;
            lemma_exp_injective(p, k, m);
        }
    }
}

/// Every element but zero is a power of `x`.
pub proof fn lemma_log(p: u8, a: u8) -> (k: nat)
    requires
        is_field(p),
        a != 0,
    ensures
        k < 255,
        gexp(p, k) == a,
{
    let all = vstd::set_lib::set_int_range(1, 256);
    vstd::set_lib::lemma_int_range(1, 256);
    lemma_powers_len(p, 255);
    assert forall|e: int| powers(p, 255).contains(e) implies all.contains(e) by {
        let k = choose|k: nat| k < 255 && #[trigger] gexp(p, k) == e;
        lemma_exp_nonzero(p, k);
    }
    vstd::set_lib::lemma_subset_equality(powers(p, 255), all);
    assert(all.contains(a as int));
    assert(powers(p, 255).contains(a as int));
    choose|k: nat| k < 255 && #[trigger] gexp(p, k) == a
}

/// Every element but zero has an inverse.
pub proof fn lemma_inverse_exists(p: u8, a: u8) -> (b: u8)
    requires
        is_field(p),
        a != 0,
    ensures
        b != 0,
        gmul(p, a, b) == 1,
{
    let k = lemma_log(p, a);
    let b = gexp(p, (255 - k) as nat);
    lemma_exp_add(p, k, (255 - k) as nat);
    lemma_exp_order(p, 255);
    lemma_exp_nonzero(p, (255 - k) as nat);
    b
}

/// A product is zero only when a factor is.
pub proof fn lemma_mul_nonzero(p: u8, a: u8, b: u8)
    requires
        is_field(p),
        gmul(p, a, b) == 0,
    ensures
        a == 0 || b == 0,
{
    if a != 0 {
        let c = lemma_inverse_exists(p, a);
        lemma_mul_commutes(p, a, c);
        lemma_mul_associates(p, c, a, b);
        lemma_mul_one(p, b);
        lemma_mul_zero(p, c);
    }
}

/// The product with `x`.
fn times_x(p: u8, a: u8) -> (r: u8)
    ensures
        r == xtime(p, a),
{
    if a >= 0x80 {
        (a << 1u8) ^ p
    } else {
        a << 1u8
    }
}

fn picked(b: u8, i: u8, x: u8) -> (r: u8)
    requires
        i < 8,
    ensures
        r == pick(b, i, x),
{
    if (b >> i) & 1u8 == 1u8 {
        x
    } else {
        0
    }
}

/// The product of two elements.
pub fn mul_in(p: u8, a: u8, b: u8) -> (r: u8)
    ensures
        r == gmul(p, a, b),
{
    reveal(combine);
    let a1: u8 = times_x(p, a);
    let a2: u8 = times_x(p, a1);
    let a3: u8 = times_x(p, a2);
    let a4: u8 = times_x(p, a3);
    let a5: u8 = times_x(p, a4);
    let a6: u8 = times_x(p, a5);
    let a7: u8 = times_x(p, a6);
    picked(b, 0, a) ^ picked(b, 1, a1) ^ picked(b, 2, a2) ^ picked(b, 3, a3) ^ picked(b, 4, a4)
        ^ picked(b, 5, a5) ^ picked(b, 6, a6) ^ picked(b, 7, a7)
}

/// A power of `x`.
pub fn exp_in(p: u8, n: usize) -> (r: u8)
    ensures
        r == gexp(p, n as nat),
{
    let mut r: u8 = 1;
    let mut i: usize = 0;
    while i < n
        invariant
            i <= n,
            r == gexp(p, i as nat),
        decreases n - i,
    {
        r = times_x(p, r);
        i = i + 1;
    }
    r
}

/// The inverse of an element other than zero.
pub fn inverse_in(p: u8, a: u8) -> (r: u8)
    requires
        is_field(p),
        a != 0,
    ensures
        r != 0,
        gmul(p, a, r) == 1,
{
    let ghost b = lemma_inverse_exists(p, a);
    let mut r: u8 = 1;
    while mul_in(p, a, r) != 1
        invariant
            is_field(p),
            gmul(p, a, b) == 1,
            1 <= r <= b,
        decreases b - r,
    {
        r = r + 1;
    }
    r
}

} // verus!
