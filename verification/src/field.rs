//! Arithmetic in GF(2^8), the field of polynomials over GF(2) taken modulo
//! x^8 + x^4 + x^3 + x^2 + 1. Addition and subtraction are both XOR.
use vstd::prelude::*;

verus! {

/// An element of GF(2^8).
#[derive(Clone, Copy, Debug, PartialEq, Eq, Structural)]
pub struct GF256(pub u8);

/// Multiplication by x: shift left, reducing by the field polynomial when the
/// x^8 term appears.
pub open spec fn xtime(a: u8) -> u8 {
    if a & 0x80u8 == 0u8 {
        a << 1u8
    } else {
        (a << 1u8) ^ 0x1du8
    }
}

/// The sum of the terms `a_i` whose bit `i` is set in `b`.
pub open spec fn mul_terms(a0: u8, a1: u8, a2: u8, a3: u8, a4: u8, a5: u8, a6: u8, a7: u8, b: u8) -> u8 {
    (if b & 0x01u8 == 0u8 { 0u8 } else { a0 })
    ^ (if b & 0x02u8 == 0u8 { 0u8 } else { a1 })
    ^ (if b & 0x04u8 == 0u8 { 0u8 } else { a2 })
    ^ (if b & 0x08u8 == 0u8 { 0u8 } else { a3 })
    ^ (if b & 0x10u8 == 0u8 { 0u8 } else { a4 })
    ^ (if b & 0x20u8 == 0u8 { 0u8 } else { a5 })
    ^ (if b & 0x40u8 == 0u8 { 0u8 } else { a6 })
    ^ (if b & 0x80u8 == 0u8 { 0u8 } else { a7 })
}

/// The field product: `a * b = sum over the set bits i of b of a * x^i`.
pub open spec fn gf_mul(a: u8, b: u8) -> u8 {
    let a1 = xtime(a);
    let a2 = xtime(a1);
    let a3 = xtime(a2);
    let a4 = xtime(a3);
    let a5 = xtime(a4);
    let a6 = xtime(a5);
    let a7 = xtime(a6);
    mul_terms(a, a1, a2, a3, a4, a5, a6, a7, b)
}

/// The multiplicative inverse of a nonzero element; zero for zero.
pub open spec fn gf_inv(a: u8) -> u8 {
    if a == 0 {
        0
    } else {
        choose|b: u8| gf_mul(a, b) == 1
    }
}

/// Field division: `a / b = a * b^-1`.
pub open spec fn gf_div(a: u8, b: u8) -> u8 {
    gf_mul(a, gf_inv(b))
}

// ---------------------------------------------------------------------------
// Addition (XOR) laws

pub broadcast proof fn lemma_xor_self(a: u8)
    ensures #[trigger] (a ^ a) == 0u8,
{
    assert(a ^ a == 0u8) by (bit_vector);
}

pub broadcast proof fn lemma_xor_zero(a: u8)
    ensures
        #[trigger] (a ^ 0u8) == a,
        #[trigger] (0u8 ^ a) == a,
{
    assert(a ^ 0u8 == a) by (bit_vector);
    assert(0u8 ^ a == a) by (bit_vector);
}

pub proof fn lemma_xor_commutes(a: u8, b: u8)
    ensures (a ^ b) == b ^ a,
{
    assert(a ^ b == b ^ a) by (bit_vector);
}

pub proof fn lemma_xor_associates(a: u8, b: u8, c: u8)
    ensures ((a ^ b) ^ c) == a ^ (b ^ c),
{
    assert((a ^ b) ^ c == a ^ (b ^ c)) by (bit_vector);
}

pub proof fn lemma_xor_cancel(a: u8, b: u8)
    ensures
        (a ^ b) ^ b == a,
        a ^ b == 0u8 <==> a == b,
{
    assert((a ^ b) ^ b == a) by (bit_vector);
    assert(a ^ b == 0u8 <==> a == b) by (bit_vector);
}

/// Regrouping a sum of four terms.
pub proof fn lemma_xor_swap(a: u8, b: u8, c: u8, d: u8)
    ensures (a ^ b) ^ (c ^ d) == (a ^ c) ^ (b ^ d),
{
    assert((a ^ b) ^ (c ^ d) == (a ^ c) ^ (b ^ d)) by (bit_vector);
}

pub broadcast group group_xor {
    lemma_xor_self,
    lemma_xor_zero,
}

// ---------------------------------------------------------------------------
// Multiplication laws

pub proof fn lemma_mul_zero(a: u8)
    ensures
        gf_mul(a, 0) == 0,
        gf_mul(0, a) == 0,
{
    let a1 = xtime(a); let a2 = xtime(a1); let a3 = xtime(a2); let a4 = xtime(a3);
    let a5 = xtime(a4); let a6 = xtime(a5); let a7 = xtime(a6);
    let x = mul_terms(a, a1, a2, a3, a4, a5, a6, a7, 0u8);
    assert(x == 0u8) by (bit_vector)
        requires x == mul_terms(a, a1, a2, a3, a4, a5, a6, a7, 0u8);
    let z = 0u8;
    let z1 = xtime(z); let z2 = xtime(z1); let z3 = xtime(z2); let z4 = xtime(z3);
    let z5 = xtime(z4); let z6 = xtime(z5); let z7 = xtime(z6);
    let y = mul_terms(z, z1, z2, z3, z4, z5, z6, z7, a);
    assert(y == 0u8) by (bit_vector)
        requires
            z == 0u8, z1 == xtime(z), z2 == xtime(z1), z3 == xtime(z2), z4 == xtime(z3),
            z5 == xtime(z4), z6 == xtime(z5), z7 == xtime(z6),
            y == mul_terms(z, z1, z2, z3, z4, z5, z6, z7, a),
    ;
}

pub proof fn lemma_mul_one(a: u8)
    ensures
        gf_mul(a, 1) == a,
        gf_mul(1, a) == a,
{
    let a1 = xtime(a); let a2 = xtime(a1); let a3 = xtime(a2); let a4 = xtime(a3);
    let a5 = xtime(a4); let a6 = xtime(a5); let a7 = xtime(a6);
    let x = mul_terms(a, a1, a2, a3, a4, a5, a6, a7, 1u8);
    assert(x == a) by (bit_vector)
        requires x == mul_terms(a, a1, a2, a3, a4, a5, a6, a7, 1u8);
    let z = 1u8;
    let z1 = xtime(z); let z2 = xtime(z1); let z3 = xtime(z2); let z4 = xtime(z3);
    let z5 = xtime(z4); let z6 = xtime(z5); let z7 = xtime(z6);
    let y = mul_terms(z, z1, z2, z3, z4, z5, z6, z7, a);
    assert(y == a) by (bit_vector)
        requires
            z == 1u8, z1 == xtime(z), z2 == xtime(z1), z3 == xtime(z2), z4 == xtime(z3),
            z5 == xtime(z4), z6 == xtime(z5), z7 == xtime(z6),
            y == mul_terms(z, z1, z2, z3, z4, z5, z6, z7, a),
    ;
}

#[verifier::rlimit(100)]
pub proof fn lemma_mul_commutes(a: u8, b: u8)
    ensures gf_mul(a, b) == gf_mul(b, a),
{
    let a1 = xtime(a); let a2 = xtime(a1); let a3 = xtime(a2); let a4 = xtime(a3);
    let a5 = xtime(a4); let a6 = xtime(a5); let a7 = xtime(a6);
    let b1 = xtime(b); let b2 = xtime(b1); let b3 = xtime(b2); let b4 = xtime(b3);
    let b5 = xtime(b4); let b6 = xtime(b5); let b7 = xtime(b6);
    let x = mul_terms(a, a1, a2, a3, a4, a5, a6, a7, b);
    let y = mul_terms(b, b1, b2, b3, b4, b5, b6, b7, a);
    assert(x == y) by (bit_vector)
        requires
            x == mul_terms(a, a1, a2, a3, a4, a5, a6, a7, b),
            y == mul_terms(b, b1, b2, b3, b4, b5, b6, b7, a),
            a1 == xtime(a), a2 == xtime(a1), a3 == xtime(a2), a4 == xtime(a3),
            a5 == xtime(a4), a6 == xtime(a5), a7 == xtime(a6),
            b1 == xtime(b), b2 == xtime(b1), b3 == xtime(b2), b4 == xtime(b3),
            b5 == xtime(b4), b6 == xtime(b5), b7 == xtime(b6),
    ;
}

pub proof fn lemma_mul_distributes(a: u8, b: u8, c: u8)
    ensures
        gf_mul(a, b ^ c) == gf_mul(a, b) ^ gf_mul(a, c),
        gf_mul(b ^ c, a) == gf_mul(b, a) ^ gf_mul(c, a),
{
    let a1 = xtime(a); let a2 = xtime(a1); let a3 = xtime(a2); let a4 = xtime(a3);
    let a5 = xtime(a4); let a6 = xtime(a5); let a7 = xtime(a6);
    let x = mul_terms(a, a1, a2, a3, a4, a5, a6, a7, b ^ c);
    let y = mul_terms(a, a1, a2, a3, a4, a5, a6, a7, b);
    let z = mul_terms(a, a1, a2, a3, a4, a5, a6, a7, c);
    assert(x == y ^ z) by (bit_vector)
        requires
            x == mul_terms(a, a1, a2, a3, a4, a5, a6, a7, b ^ c),
            y == mul_terms(a, a1, a2, a3, a4, a5, a6, a7, b),
            z == mul_terms(a, a1, a2, a3, a4, a5, a6, a7, c),
    ;
    lemma_mul_commutes(a, b ^ c);
    lemma_mul_commutes(a, b);
    lemma_mul_commutes(a, c);
}

proof fn lemma_xtime_terms(a0: u8, a1: u8, a2: u8, a3: u8, a4: u8, a5: u8, a6: u8, a7: u8,
    c0: u8, c1: u8, c2: u8, c3: u8, c4: u8, c5: u8, c6: u8, c7: u8, b: u8)
    requires
        c0 == xtime(a0), c1 == xtime(a1), c2 == xtime(a2), c3 == xtime(a3),
        c4 == xtime(a4), c5 == xtime(a5), c6 == xtime(a6), c7 == xtime(a7),
    ensures
        xtime(mul_terms(a0, a1, a2, a3, a4, a5, a6, a7, b)) == mul_terms(c0, c1, c2, c3, c4, c5, c6, c7, b),
{
    let x = mul_terms(a0, a1, a2, a3, a4, a5, a6, a7, b);
    assert(xtime(x) == mul_terms(c0, c1, c2, c3, c4, c5, c6, c7, b)) by (bit_vector)
        requires
            x == mul_terms(a0, a1, a2, a3, a4, a5, a6, a7, b),
            c0 == xtime(a0), c1 == xtime(a1), c2 == xtime(a2), c3 == xtime(a3),
            c4 == xtime(a4), c5 == xtime(a5), c6 == xtime(a6), c7 == xtime(a7),
    ;
}

/// Multiplying by x commutes with multiplying by any element.
proof fn lemma_xtime_mul(a: u8, b: u8)
    ensures
        gf_mul(xtime(a), b) == xtime(gf_mul(a, b)),
        gf_mul(a, xtime(b)) == xtime(gf_mul(a, b)),
{
    let a1 = xtime(a); let a2 = xtime(a1); let a3 = xtime(a2); let a4 = xtime(a3);
    let a5 = xtime(a4); let a6 = xtime(a5); let a7 = xtime(a6); let a8 = xtime(a7);
    lemma_xtime_terms(a, a1, a2, a3, a4, a5, a6, a7, a1, a2, a3, a4, a5, a6, a7, a8, b);
    lemma_mul_commutes(a, xtime(b));
    lemma_mul_commutes(a, b);
    let b1 = xtime(b); let b2 = xtime(b1); let b3 = xtime(b2); let b4 = xtime(b3);
    let b5 = xtime(b4); let b6 = xtime(b5); let b7 = xtime(b6); let b8 = xtime(b7);
    lemma_xtime_terms(b, b1, b2, b3, b4, b5, b6, b7, b1, b2, b3, b4, b5, b6, b7, b8, a);
}

/// Left multiplication distributes over the sum that `mul_terms` forms.
proof fn lemma_mul_terms_linear(a: u8, b0: u8, b1: u8, b2: u8, b3: u8, b4: u8, b5: u8, b6: u8, b7: u8, c: u8)
    ensures
        gf_mul(a, mul_terms(b0, b1, b2, b3, b4, b5, b6, b7, c)) == mul_terms(
            gf_mul(a, b0), gf_mul(a, b1), gf_mul(a, b2), gf_mul(a, b3),
            gf_mul(a, b4), gf_mul(a, b5), gf_mul(a, b6), gf_mul(a, b7), c),
{
    lemma_mul_zero(a);
    let t0 = if c & 0x01u8 == 0u8 { 0u8 } else { b0 };
    let t1 = if c & 0x02u8 == 0u8 { 0u8 } else { b1 };
    let t2 = if c & 0x04u8 == 0u8 { 0u8 } else { b2 };
    let t3 = if c & 0x08u8 == 0u8 { 0u8 } else { b3 };
    let t4 = if c & 0x10u8 == 0u8 { 0u8 } else { b4 };
    let t5 = if c & 0x20u8 == 0u8 { 0u8 } else { b5 };
    let t6 = if c & 0x40u8 == 0u8 { 0u8 } else { b6 };
    let t7 = if c & 0x80u8 == 0u8 { 0u8 } else { b7 };
    lemma_mul_distributes(a, t0, t1);
    lemma_mul_distributes(a, t0 ^ t1, t2);
    lemma_mul_distributes(a, t0 ^ t1 ^ t2, t3);
    lemma_mul_distributes(a, t0 ^ t1 ^ t2 ^ t3, t4);
    lemma_mul_distributes(a, t0 ^ t1 ^ t2 ^ t3 ^ t4, t5);
    lemma_mul_distributes(a, t0 ^ t1 ^ t2 ^ t3 ^ t4 ^ t5, t6);
    lemma_mul_distributes(a, t0 ^ t1 ^ t2 ^ t3 ^ t4 ^ t5 ^ t6, t7);
}

pub proof fn lemma_mul_associates(a: u8, b: u8, c: u8)
    ensures gf_mul(gf_mul(a, b), c) == gf_mul(a, gf_mul(b, c)),
{
    let b1 = xtime(b); let b2 = xtime(b1); let b3 = xtime(b2); let b4 = xtime(b3);
    let b5 = xtime(b4); let b6 = xtime(b5); let b7 = xtime(b6);
    lemma_xtime_mul(a, b);
    lemma_xtime_mul(a, b1);
    lemma_xtime_mul(a, b2);
    lemma_xtime_mul(a, b3);
    lemma_xtime_mul(a, b4);
    lemma_xtime_mul(a, b5);
    lemma_xtime_mul(a, b6);
    lemma_mul_terms_linear(a, b, b1, b2, b3, b4, b5, b6, b7, c);
}

/// Raising a nonzero element to the power 255 by squaring and multiplying gives one.
proof fn lemma_chain_reaches_one(
    a: u8, a_1: u8, a_2: u8, a_3: u8, a_4: u8, a_5: u8, a_6: u8, a_7: u8,
    p2: u8, p3: u8,
    p3_1: u8, p3_2: u8, p3_3: u8, p3_4: u8, p3_5: u8, p3_6: u8, p3_7: u8,
    p6: u8, p7: u8,
    p7_1: u8, p7_2: u8, p7_3: u8, p7_4: u8, p7_5: u8, p7_6: u8, p7_7: u8,
    p14: u8, p15: u8,
    p15_1: u8, p15_2: u8, p15_3: u8, p15_4: u8, p15_5: u8, p15_6: u8, p15_7: u8,
    p30: u8, p31: u8,
    p31_1: u8, p31_2: u8, p31_3: u8, p31_4: u8, p31_5: u8, p31_6: u8, p31_7: u8,
    p62: u8, p63: u8,
    p63_1: u8, p63_2: u8, p63_3: u8, p63_4: u8, p63_5: u8, p63_6: u8, p63_7: u8,
    p126: u8, p127: u8,
    p127_1: u8, p127_2: u8, p127_3: u8, p127_4: u8, p127_5: u8, p127_6: u8, p127_7: u8,
    p254: u8, p255: u8,
)
    requires
        a_1 == xtime(a),
        a_2 == xtime(a_1),
        a_3 == xtime(a_2),
        a_4 == xtime(a_3),
        a_5 == xtime(a_4),
        a_6 == xtime(a_5),
        a_7 == xtime(a_6),
        p2 == mul_terms(a, a_1, a_2, a_3, a_4, a_5, a_6, a_7, a),
        p3 == mul_terms(a, a_1, a_2, a_3, a_4, a_5, a_6, a_7, p2),
        p3_1 == xtime(p3),
        p3_2 == xtime(p3_1),
        p3_3 == xtime(p3_2),
        p3_4 == xtime(p3_3),
        p3_5 == xtime(p3_4),
        p3_6 == xtime(p3_5),
        p3_7 == xtime(p3_6),
        p6 == mul_terms(p3, p3_1, p3_2, p3_3, p3_4, p3_5, p3_6, p3_7, p3),
        p7 == mul_terms(a, a_1, a_2, a_3, a_4, a_5, a_6, a_7, p6),
        p7_1 == xtime(p7),
        p7_2 == xtime(p7_1),
        p7_3 == xtime(p7_2),
        p7_4 == xtime(p7_3),
        p7_5 == xtime(p7_4),
        p7_6 == xtime(p7_5),
        p7_7 == xtime(p7_6),
        p14 == mul_terms(p7, p7_1, p7_2, p7_3, p7_4, p7_5, p7_6, p7_7, p7),
        p15 == mul_terms(a, a_1, a_2, a_3, a_4, a_5, a_6, a_7, p14),
        p15_1 == xtime(p15),
        p15_2 == xtime(p15_1),
        p15_3 == xtime(p15_2),
        p15_4 == xtime(p15_3),
        p15_5 == xtime(p15_4),
        p15_6 == xtime(p15_5),
        p15_7 == xtime(p15_6),
        p30 == mul_terms(p15, p15_1, p15_2, p15_3, p15_4, p15_5, p15_6, p15_7, p15),
        p31 == mul_terms(a, a_1, a_2, a_3, a_4, a_5, a_6, a_7, p30),
        p31_1 == xtime(p31),
        p31_2 == xtime(p31_1),
        p31_3 == xtime(p31_2),
        p31_4 == xtime(p31_3),
        p31_5 == xtime(p31_4),
        p31_6 == xtime(p31_5),
        p31_7 == xtime(p31_6),
        p62 == mul_terms(p31, p31_1, p31_2, p31_3, p31_4, p31_5, p31_6, p31_7, p31),
        p63 == mul_terms(a, a_1, a_2, a_3, a_4, a_5, a_6, a_7, p62),
        p63_1 == xtime(p63),
        p63_2 == xtime(p63_1),
        p63_3 == xtime(p63_2),
        p63_4 == xtime(p63_3),
        p63_5 == xtime(p63_4),
        p63_6 == xtime(p63_5),
        p63_7 == xtime(p63_6),
        p126 == mul_terms(p63, p63_1, p63_2, p63_3, p63_4, p63_5, p63_6, p63_7, p63),
        p127 == mul_terms(a, a_1, a_2, a_3, a_4, a_5, a_6, a_7, p126),
        p127_1 == xtime(p127),
        p127_2 == xtime(p127_1),
        p127_3 == xtime(p127_2),
        p127_4 == xtime(p127_3),
        p127_5 == xtime(p127_4),
        p127_6 == xtime(p127_5),
        p127_7 == xtime(p127_6),
        p254 == mul_terms(p127, p127_1, p127_2, p127_3, p127_4, p127_5, p127_6, p127_7, p127),
        p255 == mul_terms(a, a_1, a_2, a_3, a_4, a_5, a_6, a_7, p254),
    ensures
        a != 0u8 ==> p255 == 1u8,
{
    assert(a != 0u8 ==> p255 == 1u8) by (bit_vector)
        requires
            a_1 == xtime(a),
            a_2 == xtime(a_1),
            a_3 == xtime(a_2),
            a_4 == xtime(a_3),
            a_5 == xtime(a_4),
            a_6 == xtime(a_5),
            a_7 == xtime(a_6),
            p2 == mul_terms(a, a_1, a_2, a_3, a_4, a_5, a_6, a_7, a),
            p3 == mul_terms(a, a_1, a_2, a_3, a_4, a_5, a_6, a_7, p2),
            p3_1 == xtime(p3),
            p3_2 == xtime(p3_1),
            p3_3 == xtime(p3_2),
            p3_4 == xtime(p3_3),
            p3_5 == xtime(p3_4),
            p3_6 == xtime(p3_5),
            p3_7 == xtime(p3_6),
            p6 == mul_terms(p3, p3_1, p3_2, p3_3, p3_4, p3_5, p3_6, p3_7, p3),
            p7 == mul_terms(a, a_1, a_2, a_3, a_4, a_5, a_6, a_7, p6),
            p7_1 == xtime(p7),
            p7_2 == xtime(p7_1),
            p7_3 == xtime(p7_2),
            p7_4 == xtime(p7_3),
            p7_5 == xtime(p7_4),
            p7_6 == xtime(p7_5),
            p7_7 == xtime(p7_6),
            p14 == mul_terms(p7, p7_1, p7_2, p7_3, p7_4, p7_5, p7_6, p7_7, p7),
            p15 == mul_terms(a, a_1, a_2, a_3, a_4, a_5, a_6, a_7, p14),
            p15_1 == xtime(p15),
            p15_2 == xtime(p15_1),
            p15_3 == xtime(p15_2),
            p15_4 == xtime(p15_3),
            p15_5 == xtime(p15_4),
            p15_6 == xtime(p15_5),
            p15_7 == xtime(p15_6),
            p30 == mul_terms(p15, p15_1, p15_2, p15_3, p15_4, p15_5, p15_6, p15_7, p15),
            p31 == mul_terms(a, a_1, a_2, a_3, a_4, a_5, a_6, a_7, p30),
            p31_1 == xtime(p31),
            p31_2 == xtime(p31_1),
            p31_3 == xtime(p31_2),
            p31_4 == xtime(p31_3),
            p31_5 == xtime(p31_4),
            p31_6 == xtime(p31_5),
            p31_7 == xtime(p31_6),
            p62 == mul_terms(p31, p31_1, p31_2, p31_3, p31_4, p31_5, p31_6, p31_7, p31),
            p63 == mul_terms(a, a_1, a_2, a_3, a_4, a_5, a_6, a_7, p62),
            p63_1 == xtime(p63),
            p63_2 == xtime(p63_1),
            p63_3 == xtime(p63_2),
            p63_4 == xtime(p63_3),
            p63_5 == xtime(p63_4),
            p63_6 == xtime(p63_5),
            p63_7 == xtime(p63_6),
            p126 == mul_terms(p63, p63_1, p63_2, p63_3, p63_4, p63_5, p63_6, p63_7, p63),
            p127 == mul_terms(a, a_1, a_2, a_3, a_4, a_5, a_6, a_7, p126),
            p127_1 == xtime(p127),
            p127_2 == xtime(p127_1),
            p127_3 == xtime(p127_2),
            p127_4 == xtime(p127_3),
            p127_5 == xtime(p127_4),
            p127_6 == xtime(p127_5),
            p127_7 == xtime(p127_6),
            p254 == mul_terms(p127, p127_1, p127_2, p127_3, p127_4, p127_5, p127_6, p127_7, p127),
            p255 == mul_terms(a, a_1, a_2, a_3, a_4, a_5, a_6, a_7, p254),
    ;
}


/// The chain of squarings and multiplications that raises `a` to the power 254.
pub open spec fn pow254(a: u8) -> u8 {
    let p2 = gf_mul(a, a);
    let p3 = gf_mul(a, p2);
    let p6 = gf_mul(p3, p3);
    let p7 = gf_mul(a, p6);
    let p14 = gf_mul(p7, p7);
    let p15 = gf_mul(a, p14);
    let p30 = gf_mul(p15, p15);
    let p31 = gf_mul(a, p30);
    let p62 = gf_mul(p31, p31);
    let p63 = gf_mul(a, p62);
    let p126 = gf_mul(p63, p63);
    let p127 = gf_mul(a, p126);
    gf_mul(p127, p127)
}

/// Every nonzero element has an inverse, and `a^254` is that inverse.
pub proof fn lemma_inverse(a: u8)
    ensures
        gf_inv(a) == pow254(a),
        a != 0 ==> gf_mul(a, gf_inv(a)) == 1,
        a != 0 ==> gf_mul(gf_inv(a), a) == 1,
{
    let a_1 = xtime(a); let a_2 = xtime(a_1); let a_3 = xtime(a_2); let a_4 = xtime(a_3);
    let a_5 = xtime(a_4); let a_6 = xtime(a_5); let a_7 = xtime(a_6);
    let p2 = gf_mul(a, a);
    let p3 = gf_mul(a, p2);
    let p6 = gf_mul(p3, p3);
    let p7 = gf_mul(a, p6);
    let p14 = gf_mul(p7, p7);
    let p15 = gf_mul(a, p14);
    let p30 = gf_mul(p15, p15);
    let p31 = gf_mul(a, p30);
    let p62 = gf_mul(p31, p31);
    let p63 = gf_mul(a, p62);
    let p126 = gf_mul(p63, p63);
    let p127 = gf_mul(a, p126);
    let p254 = gf_mul(p127, p127);
    let p255 = gf_mul(a, p254);
    if a == 0 {
        lemma_mul_zero(0);
        assert(pow254(a) == 0);
    } else {
        lemma_chain_reaches_one(a, a_1, a_2, a_3, a_4, a_5, a_6, a_7, p2, p3,
            xtime(p3), xtime(xtime(p3)), xtime(xtime(xtime(p3))), xtime(xtime(xtime(xtime(p3)))),
            xtime(xtime(xtime(xtime(xtime(p3))))), xtime(xtime(xtime(xtime(xtime(xtime(p3)))))),
            xtime(xtime(xtime(xtime(xtime(xtime(xtime(p3))))))),
            p6, p7,
            xtime(p7), xtime(xtime(p7)), xtime(xtime(xtime(p7))), xtime(xtime(xtime(xtime(p7)))),
            xtime(xtime(xtime(xtime(xtime(p7))))), xtime(xtime(xtime(xtime(xtime(xtime(p7)))))),
            xtime(xtime(xtime(xtime(xtime(xtime(xtime(p7))))))),
            p14, p15,
            xtime(p15), xtime(xtime(p15)), xtime(xtime(xtime(p15))), xtime(xtime(xtime(xtime(p15)))),
            xtime(xtime(xtime(xtime(xtime(p15))))), xtime(xtime(xtime(xtime(xtime(xtime(p15)))))),
            xtime(xtime(xtime(xtime(xtime(xtime(xtime(p15))))))),
            p30, p31,
            xtime(p31), xtime(xtime(p31)), xtime(xtime(xtime(p31))), xtime(xtime(xtime(xtime(p31)))),
            xtime(xtime(xtime(xtime(xtime(p31))))), xtime(xtime(xtime(xtime(xtime(xtime(p31)))))),
            xtime(xtime(xtime(xtime(xtime(xtime(xtime(p31))))))),
            p62, p63,
            xtime(p63), xtime(xtime(p63)), xtime(xtime(xtime(p63))), xtime(xtime(xtime(xtime(p63)))),
            xtime(xtime(xtime(xtime(xtime(p63))))), xtime(xtime(xtime(xtime(xtime(xtime(p63)))))),
            xtime(xtime(xtime(xtime(xtime(xtime(xtime(p63))))))),
            p126, p127,
            xtime(p127), xtime(xtime(p127)), xtime(xtime(xtime(p127))), xtime(xtime(xtime(xtime(p127)))),
            xtime(xtime(xtime(xtime(xtime(p127))))), xtime(xtime(xtime(xtime(xtime(xtime(p127)))))),
            xtime(xtime(xtime(xtime(xtime(xtime(xtime(p127))))))),
            p254, p255);
        assert(gf_mul(a, p254) == 1);
        lemma_inverse_unique(a, p254, gf_inv(a));
        lemma_mul_commutes(a, gf_inv(a));
    }
}

/// Inverses are unique: if `a * b == 1` then `b` is the chosen inverse of `a`.
pub proof fn lemma_inverse_unique(a: u8, b: u8, c: u8)
    requires gf_mul(a, b) == 1,
    ensures
        a != 0,
        gf_inv(a) == b,
        gf_mul(a, c) == 1 ==> c == b,
{
    lemma_mul_zero(b);
    lemma_mul_commutes(a, b);
    assert(gf_mul(a, gf_inv(a)) == 1);
    if gf_mul(a, c) == 1 {
        lemma_mul_associates(b, a, c);
        lemma_mul_one(c);
        lemma_mul_one(b);
    }
    let d = gf_inv(a);
    lemma_mul_associates(b, a, d);
    lemma_mul_one(d);
    lemma_mul_one(b);
}

/// No zero divisors: a product is zero only when a factor is.
pub proof fn lemma_no_zero_divisors(a: u8, b: u8)
    ensures gf_mul(a, b) == 0 <==> (a == 0 || b == 0),
{
    lemma_mul_zero(a);
    lemma_mul_zero(b);
    if a != 0 && gf_mul(a, b) == 0 {
        lemma_inverse(a);
        lemma_mul_associates(gf_inv(a), a, b);
        lemma_mul_zero(gf_inv(a));
        lemma_mul_one(b);
    }
}

// ---------------------------------------------------------------------------
// Executable operations

fn xtime_exec(a: u8) -> (r: u8)
    ensures r == xtime(a),
{
    if a & 0x80u8 == 0u8 {
        a << 1u8
    } else {
        (a << 1u8) ^ 0x1du8
    }
}

impl GF256 {
    /// Field addition (XOR).
    pub fn plus(self, other: GF256) -> (r: GF256)
        ensures r.0 == self.0 ^ other.0,
    {
        GF256(self.0 ^ other.0)
    }

    /// Field subtraction, which in characteristic two is addition.
    pub fn minus(self, other: GF256) -> (r: GF256)
        ensures r.0 == self.0 ^ other.0,
    {
        GF256(self.0 ^ other.0)
    }

    /// Field multiplication.
    pub fn times(self, other: GF256) -> (r: GF256)
        ensures r.0 == gf_mul(self.0, other.0),
    {
        let a = self.0;
        let a1 = xtime_exec(a);
        let a2 = xtime_exec(a1);
        let a3 = xtime_exec(a2);
        let a4 = xtime_exec(a3);
        let a5 = xtime_exec(a4);
        let a6 = xtime_exec(a5);
        let a7 = xtime_exec(a6);
        let b = other.0;
        let t0 = if b & 0x01u8 == 0u8 { 0u8 } else { a };
        let t1 = if b & 0x02u8 == 0u8 { 0u8 } else { a1 };
        let t2 = if b & 0x04u8 == 0u8 { 0u8 } else { a2 };
        let t3 = if b & 0x08u8 == 0u8 { 0u8 } else { a3 };
        let t4 = if b & 0x10u8 == 0u8 { 0u8 } else { a4 };
        let t5 = if b & 0x20u8 == 0u8 { 0u8 } else { a5 };
        let t6 = if b & 0x40u8 == 0u8 { 0u8 } else { a6 };
        let t7 = if b & 0x80u8 == 0u8 { 0u8 } else { a7 };
        GF256(t0 ^ t1 ^ t2 ^ t3 ^ t4 ^ t5 ^ t6 ^ t7)
    }

    /// The multiplicative inverse (zero for zero), computed as `self^254`.
    pub fn inverse(self) -> (r: GF256)
        ensures r.0 == gf_inv(self.0),
    {
        proof { lemma_inverse(self.0); }
        let a = self;
        let p2 = a.times(a);
        let p3 = a.times(p2);
        let p6 = p3.times(p3);
        let p7 = a.times(p6);
        let p14 = p7.times(p7);
        let p15 = a.times(p14);
        let p30 = p15.times(p15);
        let p31 = a.times(p30);
        let p62 = p31.times(p31);
        let p63 = a.times(p62);
        let p126 = p63.times(p63);
        let p127 = a.times(p126);
        p127.times(p127)
    }

    /// Field division.
    pub fn divide(self, other: GF256) -> (r: GF256)
        ensures r.0 == gf_div(self.0, other.0),
    {
        self.times(other.inverse())
    }
}

} // verus!
