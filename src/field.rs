//! Arithmetic in GF(2^8) with the reduction polynomial x^8 + x^4 + x^3 + x + 1.
use vstd::prelude::*;

verus! {

/// Field addition, which is also subtraction: bitwise exclusive or.
pub open spec fn gf_add(a: u8, b: u8) -> u8 {
    a ^ b
}

/// Multiplication by the generator x, reduced by 0x11B.
pub open spec fn xtime(a: u8) -> u8 {
    if a & 0x80u8 == 0x80u8 {
        ((a << 1u8) ^ 0x1bu8) as u8
    } else {
        (a << 1u8) as u8
    }
}

/// `v` when bit `i` of `b` is set, zero otherwise.
pub open spec fn bit_term(b: u8, i: u8, v: u8) -> u8 {
    if (b >> i) & 1u8 == 1u8 {
        v
    } else {
        0u8
    }
}

/// Field multiplication: the exclusive or of `x^i * a` over the set bits `i` of `b`.
pub open spec fn gf_mul(a: u8, b: u8) -> u8 {
    let a1 = xtime(a);
    let a2 = xtime(a1);
    let a3 = xtime(a2);
    let a4 = xtime(a3);
    let a5 = xtime(a4);
    let a6 = xtime(a5);
    let a7 = xtime(a6);
    bit_term(b, 0, a) ^ bit_term(b, 1, a1) ^ bit_term(b, 2, a2) ^ bit_term(b, 3, a3) ^ bit_term(
        b,
        4,
        a4,
    ) ^ bit_term(b, 5, a5) ^ bit_term(b, 6, a6) ^ bit_term(b, 7, a7)
}

/// The multiplicative inverse of a non-zero element, `a^254`; zero maps to zero.
pub open spec fn gf_inv(a: u8) -> u8 {
    let a2 = gf_mul(a, a);
    let a4 = gf_mul(a2, a2);
    let a8 = gf_mul(a4, a4);
    let a16 = gf_mul(a8, a8);
    let a32 = gf_mul(a16, a16);
    let a64 = gf_mul(a32, a32);
    let a128 = gf_mul(a64, a64);
    gf_mul(gf_mul(gf_mul(gf_mul(gf_mul(gf_mul(a2, a4), a8), a16), a32), a64), a128)
}

/// Field division `a / b`, that is `a * b^-1`.
pub open spec fn gf_div(a: u8, b: u8) -> u8 {
    gf_mul(a, gf_inv(b))
}

/// Multiplication is commutative.
#[verifier::rlimit(100)]
pub proof fn lemma_mul_commutative(a: u8, b: u8)
    ensures
        gf_mul(a, b) == gf_mul(b, a),
{
    let a1 = xtime(a);
    let a2 = xtime(a1);
    let a3 = xtime(a2);
    let a4 = xtime(a3);
    let a5 = xtime(a4);
    let a6 = xtime(a5);
    let a7 = xtime(a6);
    let b1 = xtime(b);
    let b2 = xtime(b1);
    let b3 = xtime(b2);
    let b4 = xtime(b3);
    let b5 = xtime(b4);
    let b6 = xtime(b5);
    let b7 = xtime(b6);
    assert(bit_term(b, 0, a) ^ bit_term(b, 1, a1) ^ bit_term(b, 2, a2) ^ bit_term(b, 3, a3)
        ^ bit_term(b, 4, a4) ^ bit_term(b, 5, a5) ^ bit_term(b, 6, a6) ^ bit_term(b, 7, a7)
        == bit_term(a, 0, b) ^ bit_term(a, 1, b1) ^ bit_term(a, 2, b2) ^ bit_term(a, 3, b3)
        ^ bit_term(a, 4, b4) ^ bit_term(a, 5, b5) ^ bit_term(a, 6, b6) ^ bit_term(a, 7, b7))
        by (bit_vector)
        requires
            a1 == xtime(a),
            a2 == xtime(a1),
            a3 == xtime(a2),
            a4 == xtime(a3),
            a5 == xtime(a4),
            a6 == xtime(a5),
            a7 == xtime(a6),
            b1 == xtime(b),
            b2 == xtime(b1),
            b3 == xtime(b2),
            b4 == xtime(b3),
            b5 == xtime(b4),
            b6 == xtime(b5),
            b7 == xtime(b6),
    ;
}

/// Multiplication distributes over addition.
pub proof fn lemma_mul_distributive(a: u8, b: u8, c: u8)
    ensures
        gf_mul(a, gf_add(b, c)) == gf_add(gf_mul(a, b), gf_mul(a, c)),
{
    assert(gf_mul(a, b ^ c) == gf_mul(a, b) ^ gf_mul(a, c)) by (bit_vector);
}

/// Multiplying by x commutes with multiplying by `b`.
proof fn lemma_xtime_mul(a: u8, b: u8)
    ensures
        xtime(gf_mul(a, b)) == gf_mul(xtime(a), b),
{
    let a1 = xtime(a);
    let a2 = xtime(a1);
    let a3 = xtime(a2);
    let a4 = xtime(a3);
    let a5 = xtime(a4);
    let a6 = xtime(a5);
    let a7 = xtime(a6);
    let a8 = xtime(a7);
    assert(xtime(
        bit_term(b, 0, a) ^ bit_term(b, 1, a1) ^ bit_term(b, 2, a2) ^ bit_term(b, 3, a3) ^ bit_term(
            b,
            4,
            a4,
        ) ^ bit_term(b, 5, a5) ^ bit_term(b, 6, a6) ^ bit_term(b, 7, a7),
    ) == bit_term(b, 0, a1) ^ bit_term(b, 1, a2) ^ bit_term(b, 2, a3) ^ bit_term(b, 3, a4)
        ^ bit_term(b, 4, a5) ^ bit_term(b, 5, a6) ^ bit_term(b, 6, a7) ^ bit_term(b, 7, a8))
        by (bit_vector)
        requires
            a1 == xtime(a),
            a2 == xtime(a1),
            a3 == xtime(a2),
            a4 == xtime(a3),
            a5 == xtime(a4),
            a6 == xtime(a5),
            a7 == xtime(a6),
            a8 == xtime(a7),
    ;
}

/// Multiplication distributes over addition from the right as well.
pub proof fn lemma_mul_distributive_left(a: u8, b: u8, c: u8)
    ensures
        gf_mul(gf_add(a, b), c) == gf_add(gf_mul(a, c), gf_mul(b, c)),
{
    lemma_mul_distributive(c, a, b);
    lemma_mul_commutative(gf_add(a, b), c);
    lemma_mul_commutative(a, c);
    lemma_mul_commutative(b, c);
}

proof fn lemma_bit_term_mul(c: u8, i: u8, v: u8, b: u8)
    ensures
        gf_mul(bit_term(c, i, v), b) == bit_term(c, i, gf_mul(v, b)),
{
    lemma_identities(b);
    lemma_mul_commutative(0, b);
}

/// `(a * b) * c == (a * c) * b`.
pub proof fn lemma_mul_swap_right(a: u8, b: u8, c: u8)
    ensures
        gf_mul(gf_mul(a, b), c) == gf_mul(gf_mul(a, c), b),
{
    let a1 = xtime(a);
    let a2 = xtime(a1);
    let a3 = xtime(a2);
    let a4 = xtime(a3);
    let a5 = xtime(a4);
    let a6 = xtime(a5);
    let a7 = xtime(a6);
    lemma_xtime_mul(a, b);
    lemma_xtime_mul(a1, b);
    lemma_xtime_mul(a2, b);
    lemma_xtime_mul(a3, b);
    lemma_xtime_mul(a4, b);
    lemma_xtime_mul(a5, b);
    lemma_xtime_mul(a6, b);
    let t0 = bit_term(c, 0, a);
    let t1 = bit_term(c, 1, a1);
    let t2 = bit_term(c, 2, a2);
    let t3 = bit_term(c, 3, a3);
    let t4 = bit_term(c, 4, a4);
    let t5 = bit_term(c, 5, a5);
    let t6 = bit_term(c, 6, a6);
    let t7 = bit_term(c, 7, a7);
    let s1 = t0 ^ t1;
    let s2 = s1 ^ t2;
    let s3 = s2 ^ t3;
    let s4 = s3 ^ t4;
    let s5 = s4 ^ t5;
    let s6 = s5 ^ t6;
    let s7 = s6 ^ t7;
    assert(gf_mul(a, c) == s7);
    lemma_mul_distributive_left(t0, t1, b);
    lemma_mul_distributive_left(s1, t2, b);
    lemma_mul_distributive_left(s2, t3, b);
    lemma_mul_distributive_left(s3, t4, b);
    lemma_mul_distributive_left(s4, t5, b);
    lemma_mul_distributive_left(s5, t6, b);
    lemma_mul_distributive_left(s6, t7, b);
    lemma_bit_term_mul(c, 0, a, b);
    lemma_bit_term_mul(c, 1, a1, b);
    lemma_bit_term_mul(c, 2, a2, b);
    lemma_bit_term_mul(c, 3, a3, b);
    lemma_bit_term_mul(c, 4, a4, b);
    lemma_bit_term_mul(c, 5, a5, b);
    lemma_bit_term_mul(c, 6, a6, b);
    lemma_bit_term_mul(c, 7, a7, b);
}

/// Multiplication is associative.
pub proof fn lemma_mul_associative(a: u8, b: u8, c: u8)
    ensures
        gf_mul(gf_mul(a, b), c) == gf_mul(a, gf_mul(b, c)),
{
    lemma_mul_swap_right(b, c, a);
    lemma_mul_commutative(a, gf_mul(b, c));
    lemma_mul_commutative(b, a);
}

/// Every non-zero element times its inverse is one.
pub proof fn lemma_mul_inverse(a: u8)
    requires
        a != 0,
    ensures
        gf_mul(a, gf_inv(a)) == 1,
{
    let a2 = gf_mul(a, a);
    let a4 = gf_mul(a2, a2);
    let a8 = gf_mul(a4, a4);
    let a16 = gf_mul(a8, a8);
    let a32 = gf_mul(a16, a16);
    let a64 = gf_mul(a32, a32);
    let a128 = gf_mul(a64, a64);
    let acc1 = gf_mul(a2, a4);
    let acc2 = gf_mul(acc1, a8);
    let acc3 = gf_mul(acc2, a16);
    let acc4 = gf_mul(acc3, a32);
    let acc5 = gf_mul(acc4, a64);
    let acc6 = gf_mul(acc5, a128);
    assert(gf_mul(a, acc6) == 1u8) by (bit_vector)
        requires
            a != 0,
            a2 == gf_mul(a, a),
            a4 == gf_mul(a2, a2),
            a8 == gf_mul(a4, a4),
            a16 == gf_mul(a8, a8),
            a32 == gf_mul(a16, a16),
            a64 == gf_mul(a32, a32),
            a128 == gf_mul(a64, a64),
            acc1 == gf_mul(a2, a4),
            acc2 == gf_mul(acc1, a8),
            acc3 == gf_mul(acc2, a16),
            acc4 == gf_mul(acc3, a32),
            acc5 == gf_mul(acc4, a64),
            acc6 == gf_mul(acc5, a128),
    ;
}

/// Zero is the additive identity and absorbs under multiplication; one is the
/// multiplicative identity.
pub proof fn lemma_identities(a: u8)
    ensures
        gf_add(a, 0) == a,
        gf_mul(a, 1) == a,
        gf_mul(a, 0) == 0,
{
    assert(gf_mul(a, 1) == a) by (bit_vector);
    assert(gf_mul(a, 0) == 0u8) by (bit_vector);
    assert(a ^ 0u8 == a) by (bit_vector);
}

/// Addition is associative and commutative, and a sum is zero exactly when the
/// two terms are equal: every element is its own negative.
pub proof fn lemma_add_laws(a: u8, b: u8, c: u8)
    ensures
        gf_add(gf_add(a, b), c) == gf_add(a, gf_add(b, c)),
        gf_add(a, b) == gf_add(b, a),
        gf_add(a, b) == 0 <==> a == b,
{
    assert(a ^ b == 0u8 <==> a == b) by (bit_vector);
    assert((a ^ b) ^ c == a ^ (b ^ c)) by (bit_vector);
    assert(a ^ b == b ^ a) by (bit_vector);
}

/// Adds two field elements.
pub fn field_add(a: u8, b: u8) -> (r: u8)
    ensures
        r == gf_add(a, b),
{
    a ^ b
}

/// Multiplies by x without a branch: the reduction is applied through a mask
/// built from the high bit.
fn xtime_masked(a: u8) -> (r: u8)
    ensures
        r == xtime(a),
{
    let hi: u8 = a >> 7u8;
    assert(hi <= 1) by (bit_vector)
        requires
            hi == a >> 7u8,
    ;
    let mask: u8 = hi * 0xffu8;
    let r: u8 = (a << 1u8) ^ (0x1bu8 & mask);
    assert(r == xtime(a)) by (bit_vector)
        requires
            hi == a >> 7u8,
            mask == hi * 0xffu8,
            r == (a << 1u8) ^ (0x1bu8 & mask),
    ;
    r
}

/// `v` when bit `i` of `b` is set, zero otherwise, selected through a mask.
fn select_bit(b: u8, i: u8, v: u8) -> (r: u8)
    requires
        i < 8,
    ensures
        r == bit_term(b, i, v),
{
    let bit: u8 = (b >> i) & 1u8;
    assert(bit <= 1) by (bit_vector)
        requires
            bit == (b >> i) & 1u8,
    ;
    let mask: u8 = bit * 0xffu8;
    let r: u8 = v & mask;
    assert(r == bit_term(b, i, v)) by (bit_vector)
        requires
            bit == (b >> i) & 1u8,
            mask == bit * 0xffu8,
            r == v & mask,
    ;
    r
}

/// Multiplies two field elements. The sequence of operations does not depend on
/// the operands' values.
pub fn field_mul(a: u8, b: u8) -> (r: u8)
    ensures
        r == gf_mul(a, b),
{
    let a1 = xtime_masked(a);
    let a2 = xtime_masked(a1);
    let a3 = xtime_masked(a2);
    let a4 = xtime_masked(a3);
    let a5 = xtime_masked(a4);
    let a6 = xtime_masked(a5);
    let a7 = xtime_masked(a6);
    select_bit(b, 0, a) ^ select_bit(b, 1, a1) ^ select_bit(b, 2, a2) ^ select_bit(b, 3, a3)
        ^ select_bit(b, 4, a4) ^ select_bit(b, 5, a5) ^ select_bit(b, 6, a6) ^ select_bit(
        b,
        7,
        a7,
    )
}

/// The multiplicative inverse of a non-zero element, computed as `a^254`.
pub fn field_inv(a: u8) -> (r: u8)
    requires
        a != 0,
    ensures
        r == gf_inv(a),
        gf_mul(a, r) == 1,
{
    let a2 = field_mul(a, a);
    let a4 = field_mul(a2, a2);
    let a8 = field_mul(a4, a4);
    let a16 = field_mul(a8, a8);
    let a32 = field_mul(a16, a16);
    let a64 = field_mul(a32, a32);
    let a128 = field_mul(a64, a64);
    let r = field_mul(field_mul(field_mul(field_mul(field_mul(field_mul(a2, a4), a8), a16), a32), a64), a128);
    proof {
        lemma_mul_inverse(a);
    }
    r
}

/// Divides `a` by the non-zero element `b`.
pub fn field_div(a: u8, b: u8) -> (r: u8)
    requires
        b != 0,
    ensures
        r == gf_div(a, b),
{
    field_mul(a, field_inv(b))
}

} // verus!
