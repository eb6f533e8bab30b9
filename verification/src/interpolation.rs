//! Why interpolation at zero gives back a polynomial's constant term.
//!
//! The weights of distinct points add up to one; dividing the polynomial by
//! `x - a`, with `a` the last point, then reduces the claim to one point less.

use crate::field::{gf_add, gf_div, gf_inv, gf_mul};
use crate::field_laws::{
    lemma_add_associative, lemma_add_cancels, lemma_add_commutative, lemma_add_self,
    lemma_add_zero, lemma_inverse, lemma_mul_associative, lemma_mul_commutative,
    lemma_mul_distributive, lemma_mul_one, lemma_mul_zero,
};
use crate::poly::{
    distinct, eval, interpolate_at_zero, ratio_product, weighted, weights, xor_sum,
};
use vstd::prelude::*;

verus! {

/// The ring laws as quantified facts, for short identities between a few
/// named elements.
proof fn lemma_ring_axioms()
    ensures
        forall|a: u8, b: u8| #[trigger] gf_add(a, b) == gf_add(b, a),
        forall|a: u8, b: u8, c: u8| #[trigger]
            gf_add(gf_add(a, b), c) == gf_add(a, gf_add(b, c)),
        forall|a: u8| #[trigger] gf_add(a, a) == 0,
        forall|a: u8| #[trigger] gf_add(a, 0) == a,
        forall|a: u8, b: u8| #[trigger] gf_mul(a, b) == gf_mul(b, a),
        forall|a: u8, b: u8, c: u8| #[trigger]
            gf_mul(gf_mul(a, b), c) == gf_mul(a, gf_mul(b, c)),
        forall|a: u8, b: u8, c: u8| #[trigger]
            gf_mul(a, gf_add(b, c)) == gf_add(gf_mul(a, b), gf_mul(a, c)),
{
    assert forall|a: u8, b: u8| #[trigger] gf_add(a, b) == gf_add(b, a) by {
        lemma_add_commutative(a, b);
    }
    assert forall|a: u8, b: u8, c: u8| #[trigger]
        gf_add(gf_add(a, b), c) == gf_add(a, gf_add(b, c)) by {
        lemma_add_associative(a, b, c);
    }
    assert forall|a: u8| #[trigger] gf_add(a, a) == 0 by {
        lemma_add_self(a);
    }
    assert forall|a: u8| #[trigger] gf_add(a, 0) == a by {
        lemma_add_zero(a);
    }
    assert forall|a: u8, b: u8| #[trigger] gf_mul(a, b) == gf_mul(b, a) by {
        lemma_mul_commutative(a, b);
    }
    assert forall|a: u8, b: u8, c: u8| #[trigger]
        gf_mul(gf_mul(a, b), c) == gf_mul(a, gf_mul(b, c)) by {
        lemma_mul_associative(a, b, c);
    }
    assert forall|a: u8, b: u8, c: u8| #[trigger]
        gf_mul(a, gf_add(b, c)) == gf_add(gf_mul(a, b), gf_mul(a, c)) by {
        lemma_mul_distributive(a, b, c);
    }
}

proof fn lemma_division_step(c0: u8, x: u8, a: u8, e: u8, z: u8)
    ensures
        gf_add(c0, gf_mul(x, gf_add(e, gf_mul(gf_add(x, a), z))))
            == gf_add(gf_add(c0, gf_mul(a, e)), gf_mul(gf_add(x, a), gf_add(e, gf_mul(x, z)))),
{
    lemma_ring_axioms();
}

/// The quotient of the polynomial `coeffs` on division by `x - a`.
spec fn quotient(coeffs: Seq<u8>, a: u8) -> Seq<u8>
    decreases coeffs.len(),
{
    if coeffs.len() <= 1 {
        Seq::empty()
    } else {
        seq![eval(coeffs.drop_first(), a)] + quotient(coeffs.drop_first(), a)
    }
}

proof fn lemma_quotient_len(coeffs: Seq<u8>, a: u8)
    ensures
        quotient(coeffs, a).len() == if coeffs.len() == 0 { 0 } else { coeffs.len() - 1 },
    decreases coeffs.len(),
{
    if coeffs.len() > 1 {
        lemma_quotient_len(coeffs.drop_first(), a);
    }
}

proof fn lemma_division_base(c0: u8, x: u8, a: u8)
    ensures
        gf_mul(gf_add(x, a), 0) == 0,
        gf_add(c0, gf_mul(x, 0)) == gf_add(
            gf_add(c0, gf_mul(a, 0)),
            gf_mul(gf_add(x, a), 0),
        ),
{
    lemma_ring_axioms();
    lemma_mul_zero(x);
    lemma_mul_zero(a);
    lemma_mul_zero(gf_add(x, a));
}

/// A polynomial is its value at `a` plus `x - a` times its quotient by `x - a`.
proof fn lemma_division(coeffs: Seq<u8>, a: u8, x: u8)
    ensures
        eval(coeffs, x) == gf_add(
            eval(coeffs, a),
            gf_mul(gf_add(x, a), eval(quotient(coeffs, a), x)),
        ),
    decreases coeffs.len(),
{
    if coeffs.len() == 0 {
        lemma_division_base(0, x, a);
        lemma_add_zero(0);
    } else if coeffs.len() == 1 {
        assert(eval(coeffs.drop_first(), x) == 0);
        assert(eval(coeffs.drop_first(), a) == 0);
        assert(eval(quotient(coeffs, a), x) == 0);
        lemma_division_base(coeffs[0], x, a);
    } else {
        let rest = coeffs.drop_first();
        let e = eval(rest, a);
        let q = quotient(coeffs, a);
        lemma_division(rest, a, x);
        assert(q.drop_first() =~= quotient(rest, a));
        let z = eval(quotient(rest, a), x);
        assert(eval(q, x) == gf_add(e, gf_mul(x, z)));
        lemma_division_step(coeffs[0], x, a, e, z);
    }
}

proof fn lemma_combination_step(sr: u8, sa: u8, sb: u8, r: u8, a: u8, b: u8, c1: u8, c2: u8)
    requires
        sr == gf_add(gf_mul(c1, sa), gf_mul(c2, sb)),
        r == gf_add(gf_mul(c1, a), gf_mul(c2, b)),
    ensures
        gf_add(sr, r) == gf_add(gf_mul(c1, gf_add(sa, a)), gf_mul(c2, gf_add(sb, b))),
{
    lemma_ring_axioms();
}

proof fn lemma_combination_base(c1: u8, c2: u8)
    ensures
        0 == gf_add(gf_mul(c1, 0), gf_mul(c2, 0)),
{
    lemma_mul_zero(c1);
    lemma_mul_zero(c2);
    lemma_add_zero(0);
}

/// Summation is linear: the sum of `c1 * a[j] + c2 * b[j]` is `c1` times the
/// sum of `a` plus `c2` times the sum of `b`.
proof fn lemma_sum_combination(r: Seq<u8>, a: Seq<u8>, b: Seq<u8>, c1: u8, c2: u8)
    requires
        r.len() == a.len(),
        r.len() == b.len(),
        forall|j: int| 0 <= j < r.len() ==> r[j] == gf_add(gf_mul(c1, a[j]), gf_mul(c2, b[j])),
    ensures
        xor_sum(r) == gf_add(gf_mul(c1, xor_sum(a)), gf_mul(c2, xor_sum(b))),
    decreases r.len(),
{
    if r.len() == 0 {
        lemma_combination_base(c1, c2);
    } else {
        lemma_sum_combination(r.drop_last(), a.drop_last(), b.drop_last(), c1, c2);
        lemma_combination_step(
            xor_sum(r.drop_last()),
            xor_sum(a.drop_last()),
            xor_sum(b.drop_last()),
            r.last(),
            a.last(),
            b.last(),
            c1,
            c2,
        );
    }
}

/// The product of ratios reads only the first `n` points, and the index it
/// leaves out matters only when it lies among them.
proof fn lemma_ratio_product_agrees(xs: Seq<u8>, ys: Seq<u8>, a: u8, j: int, i: int, n: nat)
    requires
        n <= xs.len(),
        n <= ys.len(),
        forall|k: int| 0 <= k < n ==> xs[k] == ys[k],
        j == i || (j >= n && i >= n),
    ensures
        ratio_product(xs, a, j, n) == ratio_product(ys, a, i, n),
    decreases n,
{
    if n > 0 {
        lemma_ratio_product_agrees(xs, ys, a, j, i, (n - 1) as nat);
    }
}

proof fn lemma_inverse_sum(u: u8, v: u8, iu: u8, iv: u8)
    requires
        gf_mul(u, iu) == 1,
        gf_mul(v, iv) == 1,
    ensures
        gf_add(iu, iv) == gf_mul(gf_add(u, v), gf_mul(iu, iv)),
{
    lemma_ring_axioms();
    lemma_mul_one(iu);
    lemma_mul_one(iv);
    assert(gf_mul(gf_add(u, v), gf_mul(iu, iv)) == gf_add(
        gf_mul(u, gf_mul(iu, iv)),
        gf_mul(v, gf_mul(iu, iv)),
    ));
    assert(gf_mul(u, gf_mul(iu, iv)) == gf_mul(gf_mul(u, iu), iv));
    assert(gf_mul(v, gf_mul(iu, iv)) == gf_mul(gf_mul(v, iv), iu));
}

proof fn lemma_cross_terms(p: u8, q: u8, iu: u8, iv: u8, d: u8)
    requires
        gf_add(iu, iv) == gf_mul(d, gf_mul(iu, iv)),
    ensures
        gf_add(gf_mul(q, gf_mul(p, iu)), gf_mul(p, gf_mul(q, iv))) == gf_mul(
            d,
            gf_mul(gf_mul(p, iu), gf_mul(q, iv)),
        ),
{
    lemma_ring_axioms();
    let pq = gf_mul(p, q);
    assert(gf_mul(q, gf_mul(p, iu)) == gf_mul(pq, iu));
    assert(gf_mul(p, gf_mul(q, iv)) == gf_mul(pq, iv));
    assert(gf_add(gf_mul(pq, iu), gf_mul(pq, iv)) == gf_mul(pq, gf_add(iu, iv)));
    assert(gf_mul(pq, gf_mul(d, gf_mul(iu, iv))) == gf_mul(d, gf_mul(pq, gf_mul(iu, iv))));
    assert(gf_mul(pq, gf_mul(iu, iv)) == gf_mul(gf_mul(p, iu), gf_mul(q, iv)));
}

proof fn lemma_scaled_cross_terms(t: u8, rp: u8, rq: u8, p: u8, q: u8, d: u8, id: u8)
    requires
        gf_mul(d, id) == 1,
        gf_add(gf_mul(q, rp), gf_mul(p, rq)) == gf_mul(d, gf_mul(rp, rq)),
    ensures
        gf_mul(gf_mul(t, rp), rq) == gf_add(
            gf_mul(gf_mul(id, q), gf_mul(t, rp)),
            gf_mul(gf_mul(id, p), gf_mul(t, rq)),
        ),
{
    lemma_ring_axioms();
    lemma_mul_one(gf_mul(rp, rq));
    let s = gf_add(gf_mul(q, rp), gf_mul(p, rq));
    assert(gf_mul(id, s) == gf_mul(gf_mul(id, d), gf_mul(rp, rq)));
    assert(gf_mul(id, s) == gf_mul(rp, rq));
    assert(gf_mul(t, gf_mul(id, s)) == gf_mul(gf_mul(t, rp), rq));
    assert(gf_mul(id, s) == gf_add(gf_mul(id, gf_mul(q, rp)), gf_mul(id, gf_mul(p, rq))));
    assert(gf_mul(t, gf_mul(id, gf_mul(q, rp))) == gf_mul(gf_mul(id, q), gf_mul(t, rp)));
    assert(gf_mul(t, gf_mul(id, gf_mul(p, rq))) == gf_mul(gf_mul(id, p), gf_mul(t, rq)));
}

/// With the ratios of two further points `p` and `q`, a product of ratios is
/// the combination of the two products that hold one of them each.
proof fn lemma_ratio_pair(t: u8, p: u8, q: u8, x: u8)
    requires
        p != q,
        p != x,
        q != x,
    ensures
        gf_mul(gf_mul(t, gf_div(p, gf_add(p, x))), gf_div(q, gf_add(q, x))) == gf_add(
            gf_mul(gf_mul(gf_inv(gf_add(p, q)), q), gf_mul(t, gf_div(p, gf_add(p, x)))),
            gf_mul(gf_mul(gf_inv(gf_add(p, q)), p), gf_mul(t, gf_div(q, gf_add(q, x)))),
        ),
{
    let u = gf_add(p, x);
    let v = gf_add(q, x);
    let d = gf_add(p, q);
    lemma_add_cancels(p, x);
    lemma_add_cancels(q, x);
    lemma_add_cancels(p, q);
    lemma_inverse(u);
    lemma_inverse(v);
    lemma_inverse(d);
    assert(gf_add(u, v) == d) by {
        lemma_ring_axioms();
        assert(gf_add(gf_add(p, x), gf_add(q, x)) == gf_add(p, gf_add(x, gf_add(q, x))));
        assert(gf_add(x, gf_add(q, x)) == gf_add(gf_add(x, x), q));
        assert(gf_add(gf_add(x, x), q) == gf_add(q, 0));
    }
    lemma_inverse_sum(u, v, gf_inv(u), gf_inv(v));
    lemma_cross_terms(p, q, gf_inv(u), gf_inv(v), d);
    lemma_scaled_cross_terms(t, gf_div(p, u), gf_div(q, v), p, q, d, gf_inv(d));
}

proof fn lemma_ratio_last_pair(e: u8, p: u8, q: u8)
    requires
        p != q,
    ensures
        gf_mul(e, gf_div(q, gf_add(q, p))) == gf_add(
            gf_mul(gf_mul(gf_inv(gf_add(p, q)), q), e),
            gf_mul(gf_mul(gf_inv(gf_add(p, q)), p), 0),
        ),
        gf_mul(e, gf_div(p, gf_add(p, q))) == gf_add(
            gf_mul(gf_mul(gf_inv(gf_add(p, q)), q), 0),
            gf_mul(gf_mul(gf_inv(gf_add(p, q)), p), e),
        ),
        gf_add(
            gf_mul(gf_mul(gf_inv(gf_add(p, q)), q), 1),
            gf_mul(gf_mul(gf_inv(gf_add(p, q)), p), 1),
        ) == 1,
{
    let d = gf_add(p, q);
    let id = gf_inv(d);
    lemma_add_commutative(p, q);
    lemma_add_cancels(p, q);
    lemma_inverse(d);
    lemma_mul_zero(gf_mul(id, q));
    lemma_mul_zero(gf_mul(id, p));
    lemma_mul_one(gf_mul(id, q));
    lemma_mul_one(gf_mul(id, p));
    lemma_add_zero(gf_mul(gf_mul(id, q), e));
    lemma_add_zero(gf_mul(gf_mul(id, p), e));
    lemma_mul_commutative(e, gf_mul(q, id));
    lemma_mul_commutative(e, gf_mul(p, id));
    lemma_mul_commutative(q, id);
    lemma_mul_commutative(p, id);
    lemma_mul_distributive(id, q, p);
    lemma_add_commutative(gf_mul(id, q), gf_mul(id, p));
}

/// The Lagrange weights of any set of distinct points add up to one.
pub proof fn lemma_weights_sum_to_one(xs: Seq<u8>)
    requires
        xs.len() >= 1,
        distinct(xs),
    ensures
        xor_sum(weights(xs)) == 1,
    decreases xs.len(),
{
    let m = xs.len() as int;
    let ws = weights(xs);
    if m == 1 {
        reveal_with_fuel(ratio_product, 2);
        assert(ws[0] == 1);
        assert(xor_sum(ws.drop_last()) == 0);
        lemma_add_zero(1);
    } else {
        let p = xs[m - 2];
        let q = xs[m - 1];
        let sa = xs.drop_last();
        let sb = xs.take(m - 2).push(q);
        let c1 = gf_mul(gf_inv(gf_add(p, q)), q);
        let c2 = gf_mul(gf_inv(gf_add(p, q)), p);
        assert(distinct(sa));
        assert(distinct(sb));
        lemma_weights_sum_to_one(sa);
        lemma_weights_sum_to_one(sb);
        let wsa = weights(sa);
        let wsb = weights(sb);
        let wa = wsa.push(0);
        let wb = wsb.drop_last().push(0).push(wsb.last());
        assert forall|j: int| 0 <= j < m implies ws[j] == gf_add(
            gf_mul(c1, wa[j]),
            gf_mul(c2, wb[j]),
        ) by {
            if j < m - 2 {
                let x = xs[j];
                let t = ratio_product(xs, x, j, (m - 2) as nat);
                lemma_ratio_product_agrees(xs, sa, x, j, j, (m - 2) as nat);
                lemma_ratio_product_agrees(xs, sb, x, j, j, (m - 2) as nat);
                assert(ratio_product(xs, x, j, (m - 1) as nat) == gf_mul(
                    t,
                    gf_div(p, gf_add(p, x)),
                ));
                assert(ws[j] == gf_mul(
                    gf_mul(t, gf_div(p, gf_add(p, x))),
                    gf_div(q, gf_add(q, x)),
                ));
                assert(wsa[j] == gf_mul(t, gf_div(p, gf_add(p, x))));
                assert(wsb[j] == gf_mul(t, gf_div(q, gf_add(q, x))));
                lemma_ratio_pair(t, p, q, x);
            } else if j == m - 2 {
                let e = ratio_product(xs, p, j, (m - 2) as nat);
                lemma_ratio_product_agrees(xs, sa, p, j, j, (m - 2) as nat);
                assert(ratio_product(xs, p, j, (m - 1) as nat) == e);
                assert(ws[j] == gf_mul(e, gf_div(q, gf_add(q, p))));
                assert(wsa[j] == e);
                lemma_ratio_last_pair(e, p, q);
            } else {
                let e = ratio_product(xs, q, j, (m - 2) as nat);
                lemma_ratio_product_agrees(xs, sb, q, j, m - 2, (m - 2) as nat);
                assert(ratio_product(xs, q, j, (m - 1) as nat) == gf_mul(
                    e,
                    gf_div(p, gf_add(p, q)),
                ));
                assert(ws[j] == gf_mul(e, gf_div(p, gf_add(p, q))));
                assert(wsb[m - 2] == e);
                lemma_ratio_last_pair(e, p, q);
            }
        }
        lemma_sum_combination(ws, wa, wb, c1, c2);
        assert(xor_sum(wa) == 1) by {
            assert(wa.drop_last() =~= wsa);
            lemma_add_zero(1);
        }
        assert(xor_sum(wb) == 1) by {
            let front = wsb.drop_last();
            assert(wb.drop_last() =~= front.push(0));
            assert(front.push(0).drop_last() =~= front);
            assert(xor_sum(front.push(0)) == gf_add(xor_sum(front), 0));
            assert(xor_sum(wb) == gf_add(xor_sum(front.push(0)), wsb.last()));
            assert(xor_sum(wsb) == gf_add(xor_sum(front), wsb.last()));
            lemma_add_zero(xor_sum(front));
        }
        lemma_ratio_last_pair(0, p, q);
    }
}

proof fn lemma_term_cancels(ea: u8, d: u8, id: u8, z: u8, t: u8, a: u8)
    requires
        gf_mul(d, id) == 1,
    ensures
        gf_mul(gf_add(ea, gf_mul(d, z)), gf_mul(t, gf_mul(a, id))) == gf_add(
            gf_mul(ea, gf_mul(t, gf_mul(a, id))),
            gf_mul(a, gf_mul(z, t)),
        ),
{
    let w = gf_mul(t, gf_mul(a, id));
    let r = gf_mul(a, gf_mul(z, t));
    lemma_mul_distributive(w, ea, gf_mul(d, z));
    lemma_mul_associative(gf_mul(d, z), gf_mul(t, a), id);
    lemma_mul_associative(t, a, id);
    lemma_mul_commutative(gf_mul(gf_mul(d, z), gf_mul(t, a)), id);
    lemma_mul_associative(id, gf_mul(d, z), gf_mul(t, a));
    lemma_mul_associative(id, d, z);
    lemma_mul_commutative(id, d);
    lemma_mul_one(z);
    lemma_mul_associative(z, t, a);
    lemma_mul_commutative(gf_mul(z, t), a);
}

proof fn lemma_term_splits(ea: u8, x: u8, a: u8, z: u8, t: u8)
    requires
        x != a,
    ensures
        gf_mul(gf_add(ea, gf_mul(gf_add(x, a), z)), gf_mul(t, gf_div(a, gf_add(a, x)))) == gf_add(
            gf_mul(ea, gf_mul(t, gf_div(a, gf_add(a, x)))),
            gf_mul(a, gf_mul(z, t)),
        ),
{
    let d = gf_add(a, x);
    lemma_add_cancels(a, x);
    lemma_add_commutative(a, x);
    lemma_inverse(d);
    lemma_term_cancels(ea, d, gf_inv(d), z, t, a);
}

proof fn lemma_last_term(ea: u8, a: u8, z: u8, w: u8)
    ensures
        gf_mul(gf_add(ea, gf_mul(gf_add(a, a), z)), w) == gf_add(gf_mul(ea, w), gf_mul(a, 0)),
{
    lemma_add_self(a);
    lemma_mul_zero(z);
    lemma_mul_zero(a);
    lemma_add_zero(ea);
    lemma_add_zero(gf_mul(ea, w));
}

proof fn lemma_value_at_zero(ea: u8, a: u8, e0: u8)
    ensures
        gf_add(gf_mul(ea, 1), gf_mul(a, e0)) == gf_add(ea, gf_mul(gf_add(0, a), e0)),
{
    lemma_mul_one(ea);
    lemma_add_zero(a);
}

/// Interpolating a polynomial from its values at distinct points, at least
/// as many as it has coefficients, gives its value at zero.
pub proof fn lemma_interpolation_recovers(xs: Seq<u8>, ys: Seq<u8>, coeffs: Seq<u8>)
    requires
        distinct(xs),
        coeffs.len() <= xs.len(),
        ys.len() == xs.len(),
        forall|j: int| 0 <= j < xs.len() ==> ys[j] == eval(coeffs, xs[j]),
    ensures
        interpolate_at_zero(xs, ys) == eval(coeffs, 0),
    decreases xs.len(),
{
    let m = xs.len() as int;
    let terms = weighted(ys, weights(xs));
    if m == 0 {
        assert(terms.len() == 0);
    } else {
        let a = xs[m - 1];
        let sa = xs.drop_last();
        let q = quotient(coeffs, a);
        let ea = eval(coeffs, a);
        let ysq = Seq::new(sa.len(), |j: int| eval(q, sa[j]));
        lemma_quotient_len(coeffs, a);
        assert(distinct(sa));
        lemma_interpolation_recovers(sa, ysq, q);
        let wa = weights(xs);
        let inner = weighted(ysq, weights(sa));
        let wb = inner.push(0);
        assert forall|j: int| 0 <= j < m implies terms[j] == gf_add(
            gf_mul(ea, wa[j]),
            gf_mul(a, wb[j]),
        ) by {
            let x = xs[j];
            let z = eval(q, x);
            lemma_division(coeffs, a, x);
            if j < m - 1 {
                let t = ratio_product(xs, x, j, (m - 1) as nat);
                lemma_ratio_product_agrees(xs, sa, x, j, j, (m - 1) as nat);
                assert(weights(sa)[j] == t);
                assert(wa[j] == gf_mul(t, gf_div(a, gf_add(a, x))));
                assert(wb[j] == gf_mul(z, t));
                lemma_term_splits(ea, x, a, z, t);
            } else {
                lemma_last_term(ea, a, z, wa[j]);
            }
        }
        lemma_sum_combination(terms, wa, wb, ea, a);
        lemma_weights_sum_to_one(xs);
        assert(xor_sum(wb) == eval(q, 0)) by {
            assert(wb.drop_last() =~= inner);
            lemma_add_zero(xor_sum(inner));
        }
        lemma_division(coeffs, a, 0);
        lemma_value_at_zero(ea, a, eval(q, 0));
    }
}

} // verus!
