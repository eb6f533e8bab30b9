//! The laws of the field with 256 elements, proved of its specification.

use crate::field::{gf_add, gf_inv, gf_mul, gf_pow, low_bit_of, mul_low_bits, times_x};
use vstd::prelude::*;

verus! {

/// Addition does not depend on the order of its terms.
pub proof fn lemma_add_commutative(a: u8, b: u8)
    by (bit_vector)
    ensures
        gf_add(a, b) == gf_add(b, a),
{
}

/// Addition can be regrouped freely.
pub proof fn lemma_add_associative(a: u8, b: u8, c: u8)
    by (bit_vector)
    ensures
        gf_add(a, gf_add(b, c)) == gf_add(gf_add(a, b), c),
{
}

/// Every element is its own negative.
pub proof fn lemma_add_self(a: u8)
    by (bit_vector)
    ensures
        gf_add(a, a) == 0,
{
}

/// Zero is neutral for addition.
pub proof fn lemma_add_zero(a: u8)
    by (bit_vector)
    ensures
        gf_add(a, 0) == a,
        gf_add(0, a) == a,
{
}

/// Two elements add to zero exactly when they are equal.
pub proof fn lemma_add_cancels(a: u8, b: u8)
    by (bit_vector)
    ensures
        gf_add(a, b) == 0 <==> a == b,
{
}

/// `a` if bit `k` of `b` is set, zero if not.
spec fn bit_of(b: u8, k: u8, a: u8) -> u8 {
    if (b >> k) & 1 == 1 { a } else { 0 }
}

/// The product written out term by term, for the bit-level prover.
spec fn mul_unrolled(a: u8, b: u8) -> u8 {
    let a1 = times_x(a);
    let a2 = times_x(a1);
    let a3 = times_x(a2);
    let a4 = times_x(a3);
    let a5 = times_x(a4);
    let a6 = times_x(a5);
    let a7 = times_x(a6);
    bit_of(b, 0, a) ^ bit_of(b, 1, a1) ^ bit_of(b, 2, a2) ^ bit_of(b, 3, a3) ^ bit_of(b, 4, a4)
        ^ bit_of(b, 5, a5) ^ bit_of(b, 6, a6) ^ bit_of(b, 7, a7)
}

proof fn lemma_unrolled(a: u8, b: u8)
    ensures
        gf_mul(a, b) == mul_unrolled(a, b),
{
    reveal_with_fuel(mul_low_bits, 9);
    let b1 = b >> 1;
    let b2 = b1 >> 1;
    let b3 = b2 >> 1;
    let b4 = b3 >> 1;
    let b5 = b4 >> 1;
    let b6 = b5 >> 1;
    let b7 = b6 >> 1;
    let a1 = times_x(a);
    let a2 = times_x(a1);
    let a3 = times_x(a2);
    let a4 = times_x(a3);
    let a5 = times_x(a4);
    let a6 = times_x(a5);
    let a7 = times_x(a6);
    let r = gf_mul(a, b);
    assert(r == mul_unrolled(a, b)) by (bit_vector)
        requires
            b1 == b >> 1,
            b2 == b1 >> 1,
            b3 == b2 >> 1,
            b4 == b3 >> 1,
            b5 == b4 >> 1,
            b6 == b5 >> 1,
            b7 == b6 >> 1,
            a1 == times_x(a),
            a2 == times_x(a1),
            a3 == times_x(a2),
            a4 == times_x(a3),
            a5 == times_x(a4),
            a6 == times_x(a5),
            a7 == times_x(a6),
            r == low_bit_of(b, a) ^ (low_bit_of(b1, a1) ^ (low_bit_of(b2, a2) ^ (low_bit_of(b3, a3)
                ^ (low_bit_of(b4, a4) ^ (low_bit_of(b5, a5) ^ (low_bit_of(b6, a6) ^ (low_bit_of(
                b7,
                a7,
            ) ^ 0))))))),
    ;
}

/// Multiplication distributes over addition, on either side.
pub proof fn lemma_mul_distributive(a: u8, b: u8, c: u8)
    ensures
        gf_mul(a, gf_add(b, c)) == gf_add(gf_mul(a, b), gf_mul(a, c)),
        gf_mul(gf_add(b, c), a) == gf_add(gf_mul(b, a), gf_mul(c, a)),
{
    lemma_unrolled(a, b);
    lemma_unrolled(a, c);
    lemma_unrolled(a, b ^ c);
    lemma_low_bits_left_linear(b, c, a, 8);
    assert(mul_unrolled(a, b ^ c) == mul_unrolled(a, b) ^ mul_unrolled(a, c)) by (bit_vector);
}

proof fn lemma_low_bits_left_linear(a: u8, c: u8, b: u8, n: nat)
    ensures
        mul_low_bits(a ^ c, b, n) == mul_low_bits(a, b, n) ^ mul_low_bits(c, b, n),
    decreases n,
{
    if n == 0 {
        assert(0u8 == 0u8 ^ 0u8) by (bit_vector);
    } else {
        let m = (n - 1) as nat;
        lemma_low_bits_left_linear(times_x(a), times_x(c), b >> 1, m);
        assert(times_x(a ^ c) == times_x(a) ^ times_x(c)) by (bit_vector);
        let p = mul_low_bits(times_x(a), b >> 1, m);
        let q = mul_low_bits(times_x(c), b >> 1, m);
        assert(low_bit_of(b, a ^ c) ^ (p ^ q) == (low_bit_of(b, a) ^ p) ^ (low_bit_of(b, c) ^ q))
            by (bit_vector);
    }
}

proof fn lemma_low_bits_slide(a: u8, b: u8, n: nat)
    ensures
        mul_low_bits(times_x(a), b, n) == times_x(mul_low_bits(a, b, n)),
    decreases n,
{
    if n == 0 {
        assert(times_x(0u8) == 0u8) by (bit_vector);
    } else {
        let m = (n - 1) as nat;
        lemma_low_bits_slide(times_x(a), b >> 1, m);
        let r = mul_low_bits(times_x(a), b >> 1, m);
        assert(times_x(low_bit_of(b, a) ^ r) == low_bit_of(b, times_x(a)) ^ times_x(r))
            by (bit_vector);
    }
}

/// Two additive maps that agree on zero and on the powers of x agree everywhere.
proof fn lemma_additive_maps_agree(f: spec_fn(u8) -> u8, g: spec_fn(u8) -> u8, b: u8)
    requires
        forall|x: u8, y: u8| #[trigger] f(x ^ y) == f(x) ^ f(y),
        forall|x: u8, y: u8| #[trigger] g(x ^ y) == g(x) ^ g(y),
        f(0) == g(0),
        f(1) == g(1),
        f(2) == g(2),
        f(4) == g(4),
        f(8) == g(8),
        f(16) == g(16),
        f(32) == g(32),
        f(64) == g(64),
        f(128) == g(128),
    ensures
        f(b) == g(b),
{
    let b0 = b & 1;
    let b1 = b & 2;
    let b2 = b & 4;
    let b3 = b & 8;
    let b4 = b & 16;
    let b5 = b & 32;
    let b6 = b & 64;
    let b7 = b & 128;
    let t6 = b6 ^ b7;
    let t5 = b5 ^ t6;
    let t4 = b4 ^ t5;
    let t3 = b3 ^ t4;
    let t2 = b2 ^ t3;
    let t1 = b1 ^ t2;
    let t0 = b0 ^ t1;
    assert(b == (b & 1) ^ ((b & 2) ^ ((b & 4) ^ ((b & 8) ^ ((b & 16) ^ ((b & 32) ^ ((b & 64) ^ (b
        & 128)))))))) by (bit_vector);
    assert((b & 1 == 0 || b & 1 == 1) && (b & 2 == 0 || b & 2 == 2) && (b & 4 == 0 || b & 4 == 4)
        && (b & 8 == 0 || b & 8 == 8) && (b & 16 == 0 || b & 16 == 16) && (b & 32 == 0 || b & 32
        == 32) && (b & 64 == 0 || b & 64 == 64) && (b & 128 == 0 || b & 128 == 128))
        by (bit_vector);
    assert(f(t6) == f(b6) ^ f(b7) && g(t6) == g(b6) ^ g(b7));
    assert(f(t5) == f(b5) ^ f(t6) && g(t5) == g(b5) ^ g(t6));
    assert(f(t4) == f(b4) ^ f(t5) && g(t4) == g(b4) ^ g(t5));
    assert(f(t3) == f(b3) ^ f(t4) && g(t3) == g(b3) ^ g(t4));
    assert(f(t2) == f(b2) ^ f(t3) && g(t2) == g(b2) ^ g(t3));
    assert(f(t1) == f(b1) ^ f(t2) && g(t1) == g(b1) ^ g(t2));
    assert(f(t0) == f(b0) ^ f(t1) && g(t0) == g(b0) ^ g(t1));
}

/// A product with zero is zero.
pub proof fn lemma_mul_zero(a: u8)
    ensures
        gf_mul(a, 0) == 0,
        gf_mul(0, a) == 0,
{
    lemma_unrolled(a, 0);
    lemma_unrolled(0, a);
    assert(mul_unrolled(a, 0) == 0 && mul_unrolled(0, a) == 0) by (bit_vector);
}

/// One is neutral for multiplication.
pub proof fn lemma_mul_one(a: u8)
    ensures
        gf_mul(a, 1) == a,
        gf_mul(1, a) == a,
{
    lemma_unrolled(a, 1);
    lemma_unrolled(1, a);
    assert(mul_unrolled(a, 1) == a && mul_unrolled(1, a) == a) by (bit_vector);
}

/// `a` multiplied by x, `k` times.
spec fn shifted(a: u8, k: nat) -> u8
    decreases k,
{
    if k == 0 {
        a
    } else {
        times_x(shifted(a, (k - 1) as nat))
    }
}

proof fn lemma_shifted_slides(a: u8, b: u8, k: nat)
    ensures
        gf_mul(shifted(a, k), b) == shifted(gf_mul(a, b), k),
    decreases k,
{
    if k > 0 {
        lemma_shifted_slides(a, b, (k - 1) as nat);
        lemma_low_bits_slide(shifted(a, (k - 1) as nat), b, 8);
    }
}

proof fn lemma_mul_by_power_of_x(a: u8)
    ensures
        gf_mul(a, 1) == shifted(a, 0),
        gf_mul(a, 2) == shifted(a, 1),
        gf_mul(a, 4) == shifted(a, 2),
        gf_mul(a, 8) == shifted(a, 3),
        gf_mul(a, 16) == shifted(a, 4),
        gf_mul(a, 32) == shifted(a, 5),
        gf_mul(a, 64) == shifted(a, 6),
        gf_mul(a, 128) == shifted(a, 7),
{
    reveal_with_fuel(shifted, 8);
    lemma_unrolled(a, 1);
    lemma_unrolled(a, 2);
    lemma_unrolled(a, 4);
    lemma_unrolled(a, 8);
    lemma_unrolled(a, 16);
    lemma_unrolled(a, 32);
    lemma_unrolled(a, 64);
    lemma_unrolled(a, 128);
    let a1 = times_x(a);
    let a2 = times_x(a1);
    let a3 = times_x(a2);
    let a4 = times_x(a3);
    let a5 = times_x(a4);
    let a6 = times_x(a5);
    let a7 = times_x(a6);
    assert(mul_unrolled(a, 1) == a && mul_unrolled(a, 2) == a1 && mul_unrolled(a, 4) == a2
        && mul_unrolled(a, 8) == a3 && mul_unrolled(a, 16) == a4 && mul_unrolled(a, 32) == a5
        && mul_unrolled(a, 64) == a6 && mul_unrolled(a, 128) == a7) by (bit_vector)
        requires
            a1 == times_x(a),
            a2 == times_x(a1),
            a3 == times_x(a2),
            a4 == times_x(a3),
            a5 == times_x(a4),
            a6 == times_x(a5),
            a7 == times_x(a6),
    ;
}

proof fn lemma_powers_of_x()
    ensures
        shifted(1, 0) == 1,
        shifted(1, 1) == 2,
        shifted(1, 2) == 4,
        shifted(1, 3) == 8,
        shifted(1, 4) == 16,
        shifted(1, 5) == 32,
        shifted(1, 6) == 64,
        shifted(1, 7) == 128,
{
    reveal_with_fuel(shifted, 8);
    assert(times_x(1) == 2 && times_x(2) == 4 && times_x(4) == 8 && times_x(8) == 16 && times_x(16)
        == 32 && times_x(32) == 64 && times_x(64) == 128) by (bit_vector);
}

/// Multiplication does not depend on the order of its factors.
pub proof fn lemma_mul_commutative(a: u8, b: u8)
    ensures
        gf_mul(a, b) == gf_mul(b, a),
{
    let f = |x: u8| gf_mul(a, x);
    let g = |x: u8| gf_mul(x, a);
    assert forall|x: u8, y: u8| #[trigger] f(x ^ y) == f(x) ^ f(y) by {
        lemma_mul_distributive(a, x, y);
    }
    assert forall|x: u8, y: u8| #[trigger] g(x ^ y) == g(x) ^ g(y) by {
        lemma_mul_distributive(a, x, y);
    }
    lemma_mul_zero(a);
    lemma_mul_one(a);
    lemma_mul_by_power_of_x(a);
    lemma_powers_of_x();
    assert forall|k: nat| k < 8 implies gf_mul(#[trigger] shifted(1, k), a) == shifted(a, k) by {
        lemma_shifted_slides(1, a, k);
    }
    assert(gf_mul(shifted(1, 1), a) == shifted(a, 1));
    assert(gf_mul(shifted(1, 2), a) == shifted(a, 2));
    assert(gf_mul(shifted(1, 3), a) == shifted(a, 3));
    assert(gf_mul(shifted(1, 4), a) == shifted(a, 4));
    assert(gf_mul(shifted(1, 5), a) == shifted(a, 5));
    assert(gf_mul(shifted(1, 6), a) == shifted(a, 6));
    assert(gf_mul(shifted(1, 7), a) == shifted(a, 7));
    lemma_additive_maps_agree(f, g, b);
}

/// Multiplication can be regrouped freely.
pub proof fn lemma_mul_associative(a: u8, b: u8, c: u8)
    ensures
        gf_mul(a, gf_mul(b, c)) == gf_mul(gf_mul(a, b), c),
{
    let ab = gf_mul(a, b);
    let f = |x: u8| gf_mul(a, gf_mul(b, x));
    let g = |x: u8| gf_mul(ab, x);
    assert forall|x: u8, y: u8| #[trigger] f(x ^ y) == f(x) ^ f(y) by {
        lemma_mul_distributive(b, x, y);
        lemma_mul_distributive(a, gf_mul(b, x), gf_mul(b, y));
    }
    assert forall|x: u8, y: u8| #[trigger] g(x ^ y) == g(x) ^ g(y) by {
        lemma_mul_distributive(ab, x, y);
    }
    lemma_mul_zero(a);
    lemma_mul_zero(b);
    lemma_mul_zero(ab);
    lemma_mul_by_power_of_x(b);
    lemma_mul_by_power_of_x(ab);
    assert forall|k: nat| k < 8 implies gf_mul(a, #[trigger] shifted(b, k)) == shifted(ab, k) by {
        lemma_mul_commutative(a, shifted(b, k));
        lemma_shifted_slides(b, a, k);
        lemma_mul_commutative(b, a);
    }
    assert(gf_mul(a, shifted(b, 0)) == shifted(ab, 0));
    assert(gf_mul(a, shifted(b, 1)) == shifted(ab, 1));
    assert(gf_mul(a, shifted(b, 2)) == shifted(ab, 2));
    assert(gf_mul(a, shifted(b, 3)) == shifted(ab, 3));
    assert(gf_mul(a, shifted(b, 4)) == shifted(ab, 4));
    assert(gf_mul(a, shifted(b, 5)) == shifted(ab, 5));
    assert(gf_mul(a, shifted(b, 6)) == shifted(ab, 6));
    assert(gf_mul(a, shifted(b, 7)) == shifted(ab, 7));
    lemma_additive_maps_agree(f, g, c);
}

/// Exponents add when powers of one base are multiplied.
pub proof fn lemma_pow_add(a: u8, m: nat, n: nat)
    ensures
        gf_pow(a, m + n) == gf_mul(gf_pow(a, m), gf_pow(a, n)),
    decreases m,
{
    if m == 0 {
        lemma_mul_one(gf_pow(a, n));
    } else {
        let k = (m - 1) as nat;
        lemma_pow_add(a, k, n);
        assert(k + n == (m + n - 1) as nat);
        lemma_mul_associative(a, gf_pow(a, k), gf_pow(a, n));
    }
}

/// Squaring the base doubles the exponent.
pub proof fn lemma_pow_of_square(a: u8, n: nat)
    ensures
        gf_pow(gf_mul(a, a), n) == gf_pow(a, 2 * n),
    decreases n,
{
    if n > 0 {
        let k = (n - 1) as nat;
        lemma_pow_of_square(a, k);
        lemma_pow_add(a, 2, 2 * k);
        lemma_mul_one(a);
        reveal_with_fuel(gf_pow, 3);
    }
}

/// Every non-zero element raised to the number of non-zero elements is 1.
pub proof fn lemma_pow_order(a: u8)
    requires
        a != 0,
    ensures
        gf_pow(a, 255) == 1,
{
    let sq1 = gf_mul(a, a);
    let sq2 = gf_mul(sq1, sq1);
    let sq3 = gf_mul(sq2, sq2);
    let sq4 = gf_mul(sq3, sq3);
    let sq5 = gf_mul(sq4, sq4);
    let sq6 = gf_mul(sq5, sq5);
    let sq7 = gf_mul(sq6, sq6);
    let run1 = gf_mul(sq1, a);
    let run2 = gf_mul(sq2, run1);
    let run3 = gf_mul(sq3, run2);
    let run4 = gf_mul(sq4, run3);
    let run5 = gf_mul(sq5, run4);
    let run6 = gf_mul(sq6, run5);
    let run7 = gf_mul(sq7, run6);
    lemma_unrolled(a, a);
    lemma_unrolled(sq1, sq1);
    lemma_unrolled(sq2, sq2);
    lemma_unrolled(sq3, sq3);
    lemma_unrolled(sq4, sq4);
    lemma_unrolled(sq5, sq5);
    lemma_unrolled(sq6, sq6);
    lemma_unrolled(sq1, a);
    lemma_unrolled(sq2, run1);
    lemma_unrolled(sq3, run2);
    lemma_unrolled(sq4, run3);
    lemma_unrolled(sq5, run4);
    lemma_unrolled(sq6, run5);
    lemma_unrolled(sq7, run6);
    assert(run7 == 1) by (bit_vector)
        requires
            a != 0,
            sq1 == mul_unrolled(a, a),
            sq2 == mul_unrolled(sq1, sq1),
            sq3 == mul_unrolled(sq2, sq2),
            sq4 == mul_unrolled(sq3, sq3),
            sq5 == mul_unrolled(sq4, sq4),
            sq6 == mul_unrolled(sq5, sq5),
            sq7 == mul_unrolled(sq6, sq6),
            run1 == mul_unrolled(sq1, a),
            run2 == mul_unrolled(sq2, run1),
            run3 == mul_unrolled(sq3, run2),
            run4 == mul_unrolled(sq4, run3),
            run5 == mul_unrolled(sq5, run4),
            run6 == mul_unrolled(sq6, run5),
            run7 == mul_unrolled(sq7, run6),
    ;
    lemma_mul_one(a);
    assert(gf_pow(a, 1) == a) by {
        reveal_with_fuel(gf_pow, 2);
    }
    lemma_pow_add(a, 1, 1);
    lemma_pow_add(a, 2, 2);
    lemma_pow_add(a, 4, 4);
    lemma_pow_add(a, 8, 8);
    lemma_pow_add(a, 16, 16);
    lemma_pow_add(a, 32, 32);
    lemma_pow_add(a, 64, 64);
    lemma_pow_add(a, 2, 1);
    lemma_pow_add(a, 4, 3);
    lemma_pow_add(a, 8, 7);
    lemma_pow_add(a, 16, 15);
    lemma_pow_add(a, 32, 31);
    lemma_pow_add(a, 64, 63);
    lemma_pow_add(a, 128, 127);
}

/// Every non-zero element times its inverse is 1.
pub proof fn lemma_inverse(a: u8)
    requires
        a != 0,
    ensures
        gf_mul(a, gf_inv(a)) == 1,
        gf_mul(gf_inv(a), a) == 1,
        gf_inv(a) != 0,
{
    lemma_pow_order(a);
    lemma_mul_commutative(a, gf_inv(a));
    lemma_mul_zero(a);
}

/// Only the inverse of `a` multiplies with `a` to 1.
pub proof fn lemma_inverse_unique(a: u8, b: u8)
    requires
        gf_mul(a, b) == 1,
    ensures
        a != 0,
        b == gf_inv(a),
{
    lemma_mul_zero(b);
    lemma_inverse(a);
    lemma_mul_associative(b, a, gf_inv(a));
    lemma_mul_commutative(a, b);
    lemma_mul_one(b);
    lemma_mul_one(gf_inv(a));
}

} // verus!
