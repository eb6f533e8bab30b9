//! What splitting and reconstructing promise together.

use crate::field::gf_mul;
use crate::field_laws::{lemma_add_zero, lemma_mul_one, lemma_mul_zero};
use crate::interpolation::lemma_interpolation_recovers;
use crate::poly::{distinct, eval, ratio_product, weighted, weights, xor_sum};
use crate::shamir::{
    coefficients_fit, column, indices, is_sharing, polynomial, reconstructed, share_of, shares_of,
    valid_parameters, well_formed,
};
use vstd::prelude::*;

verus! {

/// Positions of shares within a sharing of `share_amount` shares, no
/// position taken twice.
pub open spec fn valid_picks(picks: Seq<int>, share_amount: nat) -> bool {
    &&& forall|j: int| 0 <= j < picks.len() ==> 0 <= #[trigger] picks[j] < share_amount
    &&& forall|i: int, j: int| 0 <= i < j < picks.len() ==> picks[i] != picks[j]
}

/// The shares at the positions `picks`, in the order of `picks`.
pub open spec fn selection(shares: Seq<Seq<u8>>, picks: Seq<int>) -> Seq<Seq<u8>> {
    Seq::new(picks.len(), |j: int| shares[picks[j]])
}

/// A polynomial's value at zero is its constant term.
pub proof fn lemma_eval_at_zero(secret_byte: u8, coefficients: Seq<u8>)
    ensures
        eval(polynomial(secret_byte, coefficients), 0) == secret_byte,
{
    let p = polynomial(secret_byte, coefficients);
    lemma_mul_zero(eval(p.drop_first(), 0));
    lemma_add_zero(secret_byte);
}

/// The shares of a sharing have the indices 1, 2, ... in order, and each
/// holds one byte for every byte of the secret: so every selection of them
/// without repetition can be handed to `reconstruct`.
pub proof fn lemma_selection_well_formed(
    secret: Seq<u8>,
    share_amount: nat,
    threshold: nat,
    shares: Seq<Seq<u8>>,
    picks: Seq<int>,
)
    requires
        share_amount <= 255,
        is_sharing(shares, secret, share_amount, threshold),
        valid_picks(picks, share_amount),
        picks.len() >= 1,
    ensures
        well_formed(selection(shares, picks)),
        forall|j: int|
            0 <= j < picks.len() ==> (#[trigger] selection(shares, picks)[j]).len() == secret.len()
                + 1,
        forall|j: int|
            0 <= j < picks.len() ==> (#[trigger] selection(shares, picks)[j])[0] == picks[j] + 1,
{
    let chosen = selection(shares, picks);
    assert(distinct(indices(chosen)));
}

/// Round trip: any selection of at least `threshold` different shares of a
/// sharing of `secret` reconstructs to `secret`.
pub proof fn lemma_round_trip(
    secret: Seq<u8>,
    share_amount: nat,
    threshold: nat,
    shares: Seq<Seq<u8>>,
    picks: Seq<int>,
)
    requires
        valid_parameters(secret.len(), share_amount, threshold),
        is_sharing(shares, secret, share_amount, threshold),
        valid_picks(picks, share_amount),
        picks.len() >= threshold,
    ensures
        well_formed(selection(shares, picks)),
        reconstructed(selection(shares, picks)) == secret,
{
    lemma_selection_well_formed(secret, share_amount, threshold, shares, picks);
    let coefficients = choose|coefficients: Seq<Seq<u8>>|
        coefficients_fit(coefficients, secret.len(), threshold) && shares == shares_of(
            secret,
            coefficients,
            share_amount,
        );
    let chosen = selection(shares, picks);
    let xs = indices(chosen);
    let found = reconstructed(chosen);
    assert(found.len() == secret.len());
    assert forall|i: int| 0 <= i < secret.len() implies found[i] == secret[i] by {
        let p = polynomial(secret[i], coefficients[i]);
        let ys = column(chosen, i + 1);
        assert forall|j: int| 0 <= j < xs.len() implies ys[j] == eval(p, xs[j]) by {
            let x = (picks[j] + 1) as u8;
            assert(chosen[j] == share_of(secret, coefficients, x));
        }
        lemma_interpolation_recovers(xs, ys, p);
        lemma_eval_at_zero(secret[i], coefficients[i]);
    }
    assert(found =~= secret);
}

/// Subset invariance: two selections of at least `threshold` different
/// shares of one sharing reconstruct to the same bytes.
pub proof fn lemma_subset_invariance(
    secret: Seq<u8>,
    share_amount: nat,
    threshold: nat,
    shares: Seq<Seq<u8>>,
    first: Seq<int>,
    second: Seq<int>,
)
    requires
        valid_parameters(secret.len(), share_amount, threshold),
        is_sharing(shares, secret, share_amount, threshold),
        valid_picks(first, share_amount),
        valid_picks(second, share_amount),
        first.len() >= threshold,
        second.len() >= threshold,
    ensures
        reconstructed(selection(shares, first)) == reconstructed(selection(shares, second)),
{
    lemma_round_trip(secret, share_amount, threshold, shares, first);
    lemma_round_trip(secret, share_amount, threshold, shares, second);
}

/// One share alone reconstructs to its own payload, whatever its index.
pub proof fn lemma_single_share(share: Seq<u8>)
    requires
        share.len() >= 1,
    ensures
        reconstructed(seq![share]) == share.drop_first(),
{
    let shares = seq![share];
    let xs = indices(shares);
    let found = reconstructed(shares);
    assert(weights(xs)[0] == 1) by {
        reveal_with_fuel(ratio_product, 2);
    }
    assert forall|i: int| 0 <= i < found.len() implies found[i] == share[i + 1] by {
        let terms = weighted(column(shares, i + 1), weights(xs));
        assert(terms[0] == gf_mul(share[i + 1], 1));
        assert(xor_sum(terms.drop_last()) == 0);
        lemma_mul_one(share[i + 1]);
        lemma_add_zero(share[i + 1]);
    }
    assert(found =~= share.drop_first());
}

} // verus!
