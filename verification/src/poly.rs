//! Polynomials over the field: evaluation, and interpolation at zero.

use crate::field::{gf_add, gf_div, gf_mul};
use vstd::prelude::*;

verus! {

/// The value at `x` of the polynomial whose coefficient of degree `i` is `coeffs[i]`.
pub open spec fn eval(coeffs: Seq<u8>, x: u8) -> u8
    decreases coeffs.len(),
{
    if coeffs.len() == 0 {
        0
    } else {
        gf_add(coeffs[0], gf_mul(x, eval(coeffs.drop_first(), x)))
    }
}

/// The field sum of all elements of `s`.
pub open spec fn xor_sum(s: Seq<u8>) -> u8
    decreases s.len(),
{
    if s.len() == 0 {
        0
    } else {
        gf_add(xor_sum(s.drop_last()), s.last())
    }
}

/// No element occurs twice.
pub open spec fn distinct(xs: Seq<u8>) -> bool {
    forall|i: int, j: int| 0 <= i < j < xs.len() ==> xs[i] != xs[j]
}

/// The product of `xs[k] / (xs[k] - a)` over all `k < n` other than `j`.
pub open spec fn ratio_product(xs: Seq<u8>, a: u8, j: int, n: nat) -> u8
    decreases n,
{
    if n == 0 {
        1
    } else {
        let k = n - 1;
        let rest = ratio_product(xs, a, j, k as nat);
        if k == j {
            rest
        } else {
            gf_mul(rest, gf_div(xs[k], gf_add(xs[k], a)))
        }
    }
}

/// The Lagrange basis polynomial of point `j` among the points `xs`, taken at zero.
pub open spec fn weight(xs: Seq<u8>, j: int) -> u8 {
    ratio_product(xs, xs[j], j, xs.len())
}

/// The weight of every point, in order.
pub open spec fn weights(xs: Seq<u8>) -> Seq<u8> {
    Seq::new(xs.len(), |j: int| weight(xs, j))
}

/// The products `ys[j] * ws[j]`, in order.
pub open spec fn weighted(ys: Seq<u8>, ws: Seq<u8>) -> Seq<u8> {
    Seq::new(ys.len(), |j: int| gf_mul(ys[j], ws[j]))
}

/// The value at zero of the lowest-degree polynomial through the points `(xs[j], ys[j])`.
pub open spec fn interpolate_at_zero(xs: Seq<u8>, ys: Seq<u8>) -> u8 {
    xor_sum(weighted(ys, weights(xs)))
}

/// Evaluates a polynomial, given by its coefficients from the constant term up, at `x`.
pub fn evaluate(coeffs: &[u8], x: u8) -> (y: u8)
    ensures
        y == eval(coeffs@, x),
{
    let mut y: u8 = 0;
    let mut i: usize = coeffs.len();
    assert(coeffs@.skip(i as int).len() == 0);
    while i > 0
        invariant
            i <= coeffs.len(),
            y == eval(coeffs@.skip(i as int), x),
        decreases i,
    {
        i = i - 1;
        assert(coeffs@.skip(i as int).drop_first() =~= coeffs@.skip(i + 1));
        y = crate::field::add(coeffs[i], crate::field::mul(x, y));
    }
    assert(coeffs@.skip(0) =~= coeffs@);
    y
}

/// The weight that each point's value carries when the polynomial through
/// all the points is taken at zero.
pub fn lagrange_weights(xs: &[u8]) -> (ws: Vec<u8>)
    requires
        distinct(xs@),
    ensures
        ws@ == weights(xs@),
{
    let m = xs.len();
    let mut ws: Vec<u8> = Vec::new();
    let mut j: usize = 0;
    while j < m
        invariant
            j <= m,
            m == xs.len(),
            distinct(xs@),
            ws@.len() == j,
            forall|i: int| 0 <= i < j ==> ws@[i] == weight(xs@, i),
        decreases m - j,
    {
        let mut w: u8 = 1;
        let mut k: usize = 0;
        while k < m
            invariant
                k <= m,
                j < m,
                m == xs.len(),
                distinct(xs@),
                w == ratio_product(xs@, xs@[j as int], j as int, k as nat),
            decreases m - k,
        {
            if k != j {
                let d = crate::field::add(xs[k], xs[j]);
                proof {
                    let p = xs[k as int];
                    let q = xs[j as int];
                    assert(p ^ q == 0 ==> p == q) by (bit_vector);
                }
                w = crate::field::mul(w, crate::field::mul(xs[k], crate::field::inverse(d)));
            }
            k = k + 1;
        }
        ws.push(w);
        j = j + 1;
    }
    assert(ws@ =~= weights(xs@));
    ws
}

/// The field sum of the products `ys[j] * ws[j]`.
pub fn weighted_sum(ys: &[u8], ws: &[u8]) -> (y: u8)
    requires
        ys.len() == ws.len(),
    ensures
        y == xor_sum(weighted(ys@, ws@)),
{
    let m = ys.len();
    let mut y: u8 = 0;
    let mut j: usize = 0;
    let ghost terms = weighted(ys@, ws@);
    while j < m
        invariant
            j <= m,
            m == ys.len(),
            m == ws.len(),
            terms == weighted(ys@, ws@),
            y == xor_sum(terms.take(j as int)),
        decreases m - j,
    {
        assert(terms.take(j + 1).drop_last() =~= terms.take(j as int));
        y = crate::field::add(y, crate::field::mul(ys[j], ws[j]));
        j = j + 1;
    }
    assert(terms.take(m as int) =~= terms);
    y
}

/// The value at zero of the lowest-degree polynomial through the points `(xs[j], ys[j])`.
pub fn interpolate(xs: &[u8], ys: &[u8]) -> (y: u8)
    requires
        xs.len() == ys.len(),
        distinct(xs@),
    ensures
        y == interpolate_at_zero(xs@, ys@),
{
    let ws = lagrange_weights(xs);
    weighted_sum(ys, ws.as_slice())
}

} // verus!
