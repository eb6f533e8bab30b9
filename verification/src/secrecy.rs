//! Fewer shares than the threshold fit every secret of the same length.

use crate::field::{gf_add, gf_inv, gf_mul};
use crate::field_laws::{
    lemma_add_associative, lemma_add_commutative, lemma_add_self, lemma_add_zero, lemma_inverse,
    lemma_mul_associative, lemma_mul_commutative, lemma_mul_distributive, lemma_mul_one,
    lemma_mul_zero,
};
use crate::laws::{selection, valid_picks};
use crate::poly::eval;
use crate::shamir::{coefficients_fit, polynomial, share_of, shares_of, valid_parameters};
use vstd::prelude::*;

verus! {

/// The sum of two polynomials with equally many coefficients.
spec fn poly_add(a: Seq<u8>, b: Seq<u8>) -> Seq<u8> {
    Seq::new(a.len(), |i: int| gf_add(a[i], b[i]))
}

/// The polynomial `a` times the constant `r`.
spec fn poly_scale(r: u8, a: Seq<u8>) -> Seq<u8> {
    Seq::new(a.len(), |i: int| gf_mul(r, a[i]))
}

/// The polynomial `p` with `k` zero coefficients on top.
spec fn padded(p: Seq<u8>, k: nat) -> Seq<u8>
    decreases k,
{
    if k == 0 {
        p
    } else {
        padded(p, (k - 1) as nat).push(0)
    }
}

/// The polynomial `p` times `1 + r x`.
spec fn times_linear(p: Seq<u8>, r: u8) -> Seq<u8> {
    poly_add(p.push(0), poly_scale(r, seq![0u8] + p))
}

/// The product of `1 + x / xs[j]` over `j < n`: 1 at zero, zero at each of
/// the first `n` points.
spec fn vanishing(xs: Seq<u8>, n: nat) -> Seq<u8>
    decreases n,
{
    if n == 0 {
        seq![1u8]
    } else {
        times_linear(vanishing(xs, (n - 1) as nat), gf_inv(xs[n - 1]))
    }
}

proof fn lemma_add_step(a0: u8, b0: u8, x: u8, ea: u8, eb: u8)
    ensures
        gf_add(gf_add(a0, b0), gf_mul(x, gf_add(ea, eb))) == gf_add(
            gf_add(a0, gf_mul(x, ea)),
            gf_add(b0, gf_mul(x, eb)),
        ),
{
    let p = gf_mul(x, ea);
    let q = gf_mul(x, eb);
    lemma_mul_distributive(x, ea, eb);
    lemma_add_associative(a0, b0, gf_add(p, q));
    lemma_add_associative(b0, p, q);
    lemma_add_commutative(b0, p);
    lemma_add_associative(p, b0, q);
    lemma_add_associative(a0, p, gf_add(b0, q));
}

proof fn lemma_eval_add(a: Seq<u8>, b: Seq<u8>, x: u8)
    requires
        a.len() == b.len(),
    ensures
        eval(poly_add(a, b), x) == gf_add(eval(a, x), eval(b, x)),
    decreases a.len(),
{
    if a.len() == 0 {
        lemma_add_zero(0);
    } else {
        lemma_eval_add(a.drop_first(), b.drop_first(), x);
        assert(poly_add(a, b).drop_first() =~= poly_add(a.drop_first(), b.drop_first()));
        lemma_add_step(a[0], b[0], x, eval(a.drop_first(), x), eval(b.drop_first(), x));
    }
}

proof fn lemma_scale_step(r: u8, a0: u8, x: u8, e: u8)
    ensures
        gf_add(gf_mul(r, a0), gf_mul(x, gf_mul(r, e))) == gf_mul(r, gf_add(a0, gf_mul(x, e))),
{
    lemma_mul_distributive(r, a0, gf_mul(x, e));
    lemma_mul_associative(x, r, e);
    lemma_mul_commutative(x, r);
    lemma_mul_associative(r, x, e);
}

proof fn lemma_eval_scale(r: u8, a: Seq<u8>, x: u8)
    ensures
        eval(poly_scale(r, a), x) == gf_mul(r, eval(a, x)),
    decreases a.len(),
{
    if a.len() == 0 {
        lemma_mul_zero(r);
    } else {
        lemma_eval_scale(r, a.drop_first(), x);
        assert(poly_scale(r, a).drop_first() =~= poly_scale(r, a.drop_first()));
        lemma_scale_step(r, a[0], x, eval(a.drop_first(), x));
    }
}

proof fn lemma_eval_push_zero(p: Seq<u8>, x: u8)
    ensures
        eval(p.push(0), x) == eval(p, x),
    decreases p.len(),
{
    let q = p.push(0);
    if p.len() == 0 {
        assert(q.drop_first().len() == 0);
        assert(eval(q.drop_first(), x) == 0);
        assert(eval(q, x) == gf_add(0, gf_mul(x, 0)));
        lemma_mul_zero(x);
        lemma_add_zero(0);
    } else {
        lemma_eval_push_zero(p.drop_first(), x);
        assert(q.drop_first() =~= p.drop_first().push(0));
        assert(eval(q, x) == gf_add(q[0], gf_mul(x, eval(q.drop_first(), x))));
    }
}

proof fn lemma_eval_padded(p: Seq<u8>, k: nat, x: u8)
    ensures
        eval(padded(p, k), x) == eval(p, x),
        padded(p, k).len() == p.len() + k,
        forall|i: int| 0 <= i < p.len() ==> padded(p, k)[i] == p[i],
    decreases k,
{
    if k > 0 {
        lemma_eval_padded(p, (k - 1) as nat, x);
        lemma_eval_push_zero(padded(p, (k - 1) as nat), x);
    }
}

proof fn lemma_linear_step(e: u8, r: u8, x: u8)
    ensures
        gf_add(e, gf_mul(r, gf_add(0, gf_mul(x, e)))) == gf_mul(e, gf_add(1, gf_mul(r, x))),
{
    lemma_add_zero(gf_mul(x, e));
    lemma_mul_distributive(e, 1, gf_mul(r, x));
    lemma_mul_one(e);
    lemma_mul_associative(r, x, e);
    lemma_mul_commutative(e, gf_mul(r, x));
}

proof fn lemma_eval_times_linear(p: Seq<u8>, r: u8, x: u8)
    ensures
        eval(times_linear(p, r), x) == gf_mul(eval(p, x), gf_add(1, gf_mul(r, x))),
{
    let shifted = seq![0u8] + p;
    lemma_eval_add(p.push(0), poly_scale(r, shifted), x);
    lemma_eval_push_zero(p, x);
    lemma_eval_scale(r, shifted, x);
    assert(shifted.drop_first() =~= p);
    lemma_linear_step(eval(p, x), r, x);
}

proof fn lemma_vanishing(xs: Seq<u8>, n: nat, k: int)
    requires
        n <= xs.len(),
        0 <= k < n,
        forall|j: int| 0 <= j < n ==> xs[j] != 0,
    ensures
        vanishing(xs, n).len() == n + 1,
        vanishing(xs, n)[0] == 1,
        eval(vanishing(xs, n), xs[k]) == 0,
    decreases n,
{
    let x = xs[k];
    let m = (n - 1) as nat;
    let r = gf_inv(xs[n - 1]);
    let before = vanishing(xs, m);
    lemma_vanishing_shape(xs, m);
    lemma_eval_times_linear(before, r, x);
    lemma_mul_zero(r);
    lemma_add_zero(1);
    if k == n - 1 {
        lemma_inverse(x);
        lemma_add_self(1);
        lemma_mul_zero(eval(before, x));
    } else {
        lemma_vanishing(xs, m, k);
        lemma_mul_zero(gf_add(1, gf_mul(r, x)));
    }
}

proof fn lemma_vanishing_shape(xs: Seq<u8>, n: nat)
    ensures
        vanishing(xs, n).len() == n + 1,
        vanishing(xs, n)[0] == 1,
    decreases n,
{
    if n > 0 {
        lemma_vanishing_shape(xs, (n - 1) as nat);
        lemma_mul_zero(gf_inv(xs[n - 1]));
        lemma_add_zero(1);
    }
}

/// The coefficients, above the constant term, of a polynomial that takes
/// `other_byte` at zero and at each of the points `xs` the value that the
/// polynomial of `secret_byte` with `coefficients` takes there.
spec fn refitted(secret_byte: u8, other_byte: u8, coefficients: Seq<u8>, xs: Seq<u8>) -> Seq<u8> {
    let change = poly_scale(gf_add(secret_byte, other_byte), vanishing(xs, xs.len()));
    let lift = padded(change, (coefficients.len() - xs.len()) as nat);
    poly_add(polynomial(secret_byte, coefficients), lift).drop_first()
}

proof fn lemma_refitted_len(secret_byte: u8, other_byte: u8, coefficients: Seq<u8>, xs: Seq<u8>)
    requires
        xs.len() <= coefficients.len(),
    ensures
        refitted(secret_byte, other_byte, coefficients, xs).len() == coefficients.len(),
{
}

proof fn lemma_refitted(
    secret_byte: u8,
    other_byte: u8,
    coefficients: Seq<u8>,
    xs: Seq<u8>,
    k: int,
)
    requires
        xs.len() <= coefficients.len(),
        0 <= k < xs.len(),
        forall|j: int| 0 <= j < xs.len() ==> xs[j] != 0,
    ensures
        refitted(secret_byte, other_byte, coefficients, xs).len() == coefficients.len(),
        eval(
            polynomial(other_byte, refitted(secret_byte, other_byte, coefficients, xs)),
            xs[k],
        ) == eval(polynomial(secret_byte, coefficients), xs[k]),
{
    let delta = gf_add(secret_byte, other_byte);
    let p = polynomial(secret_byte, coefficients);
    let change = poly_scale(delta, vanishing(xs, xs.len()));
    let lift = padded(change, (coefficients.len() - xs.len()) as nat);
    let q = poly_add(p, lift);
    lemma_vanishing(xs, xs.len(), k);
    lemma_eval_scale(delta, vanishing(xs, xs.len()), xs[k]);
    lemma_eval_padded(change, (coefficients.len() - xs.len()) as nat, xs[k]);
    lemma_eval_add(p, lift, xs[k]);
    lemma_mul_zero(delta);
    lemma_add_zero(eval(p, xs[k]));
    assert(q[0] == other_byte) by {
        lemma_mul_one(delta);
        lemma_add_associative(secret_byte, secret_byte, other_byte);
        lemma_add_self(secret_byte);
        lemma_add_zero(other_byte);
    }
    assert(polynomial(other_byte, q.drop_first()) =~= q);
}

proof fn lemma_add_twice(a: u8, b: u8)
    ensures
        gf_add(gf_add(a, b), b) == a,
{
    lemma_add_associative(a, b, b);
    lemma_add_self(b);
    lemma_add_zero(a);
}

proof fn lemma_refitted_back(secret_byte: u8, other_byte: u8, coefficients: Seq<u8>, xs: Seq<u8>)
    requires
        xs.len() <= coefficients.len(),
    ensures
        refitted(
            other_byte,
            secret_byte,
            refitted(secret_byte, other_byte, coefficients, xs),
            xs,
        ) == coefficients,
{
    let delta = gf_add(secret_byte, other_byte);
    let p = polynomial(secret_byte, coefficients);
    let change = poly_scale(delta, vanishing(xs, xs.len()));
    let lift = padded(change, (coefficients.len() - xs.len()) as nat);
    let q = poly_add(p, lift);
    let there = refitted(secret_byte, other_byte, coefficients, xs);
    lemma_vanishing_shape(xs, xs.len());
    lemma_eval_padded(change, (coefficients.len() - xs.len()) as nat, 0);
    lemma_add_commutative(secret_byte, other_byte);
    assert(q[0] == other_byte) by {
        lemma_mul_one(delta);
        lemma_add_associative(secret_byte, secret_byte, other_byte);
        lemma_add_self(secret_byte);
        lemma_add_zero(other_byte);
    }
    assert(polynomial(other_byte, there) =~= q);
    let back = poly_add(q, lift);
    assert forall|i: int| 0 <= i < p.len() implies back[i] == p[i] by {
        lemma_add_twice(p[i], lift[i]);
    }
    assert(back =~= p);
    assert(p.drop_first() =~= coefficients);
}

/// Coefficients under which `other` gives, at the positions `picks`, the
/// shares that `secret` gives there under `coefficients`.
pub closed spec fn refit(
    secret: Seq<u8>,
    other: Seq<u8>,
    coefficients: Seq<Seq<u8>>,
    picks: Seq<int>,
) -> Seq<Seq<u8>> {
    let xs = Seq::new(picks.len(), |j: int| (picks[j] + 1) as u8);
    Seq::new(secret.len(), |i: int| refitted(secret[i], other[i], coefficients[i], xs))
}

/// Secrecy: what fewer shares than the threshold show of a sharing of
/// `secret` is also what they show of a sharing of any `other` secret of the
/// same length, and going from one secret's coefficients to the other's can
/// be undone. So as many choices of coefficients lead to the shown shares
/// from one secret as from the other: where every choice is as likely as any
/// other, the shown shares are as likely under one secret as under the other.
pub proof fn lemma_fewer_shares_fit_any_secret(
    secret: Seq<u8>,
    other: Seq<u8>,
    share_amount: nat,
    threshold: nat,
    coefficients: Seq<Seq<u8>>,
    picks: Seq<int>,
)
    requires
        valid_parameters(secret.len(), share_amount, threshold),
        other.len() == secret.len(),
        coefficients_fit(coefficients, secret.len(), threshold),
        valid_picks(picks, share_amount),
        picks.len() < threshold,
    ensures
        coefficients_fit(refit(secret, other, coefficients, picks), other.len(), threshold),
        selection(
            shares_of(other, refit(secret, other, coefficients, picks), share_amount),
            picks,
        ) == selection(shares_of(secret, coefficients, share_amount), picks),
        refit(other, secret, refit(secret, other, coefficients, picks), picks) == coefficients,
{
    let xs = Seq::new(picks.len(), |j: int| (picks[j] + 1) as u8);
    let fitting = refit(secret, other, coefficients, picks);
    let shown = selection(shares_of(secret, coefficients, share_amount), picks);
    let fitted = selection(shares_of(other, fitting, share_amount), picks);
    assert forall|i: int| 0 <= i < secret.len() implies (#[trigger] fitting[i]).len() == threshold
        - 1 by {
        lemma_refitted_len(secret[i], other[i], coefficients[i], xs);
    }
    assert forall|j: int| 0 <= j < picks.len() implies fitted[j] == shown[j] by {
        let x = xs[j];
        assert(fitted[j] == share_of(other, fitting, x));
        assert(shown[j] == share_of(secret, coefficients, x));
        assert forall|i: int| 0 <= i < secret.len() implies eval(
            polynomial(other[i], fitting[i]),
            x,
        ) == eval(polynomial(secret[i], coefficients[i]), x) by {
            lemma_refitted(secret[i], other[i], coefficients[i], xs, j);
        }
        assert(share_of(other, fitting, x) =~= share_of(secret, coefficients, x));
    }
    assert(fitted =~= shown);
    let back = refit(other, secret, fitting, picks);
    assert forall|i: int| 0 <= i < secret.len() implies back[i] == coefficients[i] by {
        lemma_refitted_back(secret[i], other[i], coefficients[i], xs);
    }
    assert(back =~= coefficients);
}

} // verus!
