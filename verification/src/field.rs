//! The field with 256 elements: bytes as polynomials over the two-element
//! field, taken modulo x^8 + x^4 + x^3 + x^2 + 1.

use crate::field_laws::{
    lemma_add_associative, lemma_add_zero, lemma_inverse, lemma_mul_associative, lemma_mul_one,
    lemma_pow_of_square,
};
use vstd::prelude::*;

verus! {

/// The sum of two elements: the bitwise exclusive or. It is also their
/// difference.
pub open spec fn gf_add(a: u8, b: u8) -> u8 {
    a ^ b
}

/// The element `a` multiplied by x: a shift to the left, reduced when the
/// term x^8 appears.
pub open spec fn times_x(a: u8) -> u8 {
    if a & 0x80 == 0x80 {
        (a << 1) ^ 0x1d
    } else {
        a << 1
    }
}

/// `a` if the lowest bit of `b` is set, zero if not.
pub open spec fn low_bit_of(b: u8, a: u8) -> u8 {
    if b & 1 == 1 { a } else { 0 }
}

/// The product of `a` and the polynomial that the lowest `n` bits of `b` hold.
pub open spec fn mul_low_bits(a: u8, b: u8, n: nat) -> u8
    decreases n,
{
    if n == 0 {
        0
    } else {
        gf_add(low_bit_of(b, a), mul_low_bits(times_x(a), b >> 1, (n - 1) as nat))
    }
}

/// The product of two elements: the product of the polynomials, reduced.
pub open spec fn gf_mul(a: u8, b: u8) -> u8 {
    mul_low_bits(a, b, 8)
}

/// The product of `n` factors `a`; 1 for no factor.
pub open spec fn gf_pow(a: u8, n: nat) -> u8
    decreases n,
{
    if n == 0 {
        1
    } else {
        gf_mul(a, gf_pow(a, (n - 1) as nat))
    }
}

/// The inverse of a non-zero element, as the power that the order of the
/// multiplicative group gives: a^254.
pub open spec fn gf_inv(a: u8) -> u8 {
    gf_pow(a, 254)
}

/// `a` divided by a non-zero `b`.
pub open spec fn gf_div(a: u8, b: u8) -> u8 {
    gf_mul(a, gf_inv(b))
}

/// The sum of two elements.
pub fn add(a: u8, b: u8) -> (r: u8)
    ensures
        r == gf_add(a, b),
{
    a ^ b
}

fn times_two(a: u8) -> (r: u8)
    ensures
        r == times_x(a),
{
    if a & 0x80 == 0x80 {
        (a << 1) ^ 0x1d
    } else {
        a << 1
    }
}

/// The product of two elements.
pub fn mul(a: u8, b: u8) -> (r: u8)
    ensures
        r == gf_mul(a, b),
{
    let mut acc: u8 = 0;
    let mut x: u8 = a;
    let mut y: u8 = b;
    let mut i: u8 = 0;
    proof {
        lemma_add_zero(gf_mul(a, b));
    }
    while i < 8
        invariant
            i <= 8,
            gf_add(acc, mul_low_bits(x, y, (8 - i) as nat)) == gf_mul(a, b),
        decreases 8 - i,
    {
        proof {
            lemma_add_associative(
                acc,
                low_bit_of(y, x),
                mul_low_bits(times_x(x), y >> 1, (7 - i) as nat),
            );
            lemma_add_zero(acc);
        }
        if y & 1 == 1 {
            acc = acc ^ x;
        }
        x = times_two(x);
        y = y >> 1;
        i = i + 1;
    }
    proof {
        lemma_add_zero(acc);
    }
    acc
}

/// The element `a` multiplied with itself: the product of `n` factors `a`, by
/// squaring.
pub fn pow(a: u8, n: u64) -> (r: u8)
    ensures
        r == gf_pow(a, n as nat),
{
    let mut result: u8 = 1;
    let mut base: u8 = a;
    let mut e: u64 = n;
    proof {
        lemma_mul_one(gf_pow(a, n as nat));
    }
    while e > 0
        invariant
            gf_mul(result, gf_pow(base, e as nat)) == gf_pow(a, n as nat),
        decreases e,
    {
        proof {
            let h = (e / 2) as nat;
            lemma_pow_of_square(base, h);
            if e % 2 == 1 {
                assert(e as nat == 2 * h + 1);
                lemma_mul_associative(result, base, gf_pow(base, 2 * h));
            } else {
                assert(e as nat == 2 * h);
            }
        }
        if e % 2 == 1 {
            result = self::mul(result, base);
        }
        base = self::mul(base, base);
        e = e / 2;
    }
    proof {
        lemma_mul_one(result);
    }
    result
}

/// The element that multiplies with `a` to 1. Zero has none.
pub fn inverse(a: u8) -> (r: u8)
    requires
        a != 0,
    ensures
        r == gf_inv(a),
        gf_mul(a, r) == 1,
{
    proof {
        lemma_inverse(a);
    }
    pow(a, 254)
}

} // verus!
