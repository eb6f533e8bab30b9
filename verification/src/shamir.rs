//! Secret sharing: a secret is split into shares, one point of a random
//! polynomial per byte, and recovered from enough of them by interpolation.

use crate::poly::{
    distinct, eval, evaluate, interpolate_at_zero, lagrange_weights, weighted_sum, weights,
};
use vstd::prelude::*;

verus! {

/// Why a split or a set of shares was turned down.
#[derive(Debug, Clone, Copy, PartialEq, Eq, Structural)]
pub enum ShamirError {
    /// The secret is empty, the threshold is zero or above the number of
    /// shares, or more shares are asked for than the field has non-zero elements.
    InvalidParameters,
    /// No share, an empty share, a share with index zero, two shares with
    /// one index, or shares of different lengths.
    MalformedShare,
}

/// The byte sequences that a vector of byte vectors holds.
pub open spec fn rows(v: Seq<Vec<u8>>) -> Seq<Seq<u8>> {
    Seq::new(v.len(), |i: int| v[i]@)
}

/// A non-empty secret, and a threshold from 1 to the number of shares, which
/// is at most the number of non-zero field elements.
pub open spec fn valid_parameters(secret_len: nat, share_amount: nat, threshold: nat) -> bool {
    secret_len >= 1 && 1 <= threshold <= share_amount <= 255
}

/// One row of higher coefficients for each byte of the secret, each row one
/// shorter than the threshold.
pub open spec fn coefficients_fit(
    coefficients: Seq<Seq<u8>>,
    secret_len: nat,
    threshold: nat,
) -> bool {
    &&& coefficients.len() == secret_len
    &&& forall|i: int| 0 <= i < secret_len ==> (#[trigger] coefficients[i]).len() == threshold - 1
}

/// The polynomial that hides one byte: the byte as constant term, then the
/// higher coefficients.
pub open spec fn polynomial(secret_byte: u8, coefficients: Seq<u8>) -> Seq<u8> {
    seq![secret_byte] + coefficients
}

/// The share with index `x`: the index, then each byte's polynomial at `x`.
pub open spec fn share_of(secret: Seq<u8>, coefficients: Seq<Seq<u8>>, x: u8) -> Seq<u8> {
    seq![x] + Seq::new(
        secret.len(),
        |i: int| eval(polynomial(secret[i], coefficients[i]), x),
    )
}

/// The shares with the indices 1 to `share_amount`, in that order.
pub open spec fn shares_of(
    secret: Seq<u8>,
    coefficients: Seq<Seq<u8>>,
    share_amount: nat,
) -> Seq<Seq<u8>> {
    Seq::new(share_amount, |k: int| share_of(secret, coefficients, (k + 1) as u8))
}

/// `shares` is what splitting `secret` gives for some choice of coefficients.
pub open spec fn is_sharing(
    shares: Seq<Seq<u8>>,
    secret: Seq<u8>,
    share_amount: nat,
    threshold: nat,
) -> bool {
    exists|coefficients: Seq<Seq<u8>>|
        coefficients_fit(coefficients, secret.len(), threshold) && shares == shares_of(
            secret,
            coefficients,
            share_amount,
        )
}

/// The indices of the shares, in order.
pub open spec fn indices(shares: Seq<Seq<u8>>) -> Seq<u8> {
    Seq::new(shares.len(), |j: int| shares[j][0])
}

/// Byte `i` of every share, in order.
pub open spec fn column(shares: Seq<Seq<u8>>, i: int) -> Seq<u8> {
    Seq::new(shares.len(), |j: int| shares[j][i])
}

/// At least one share, all of one length that holds an index and maybe a
/// payload, the indices non-zero and pairwise distinct.
pub open spec fn well_formed(shares: Seq<Seq<u8>>) -> bool {
    &&& shares.len() >= 1
    &&& shares[0].len() >= 1
    &&& forall|j: int| 0 <= j < shares.len() ==> (#[trigger] shares[j]).len() == shares[0].len()
    &&& forall|j: int| 0 <= j < shares.len() ==> (#[trigger] shares[j])[0] != 0
    &&& distinct(indices(shares))
}

/// Each payload position interpolated at zero over all the shares.
pub open spec fn reconstructed(shares: Seq<Seq<u8>>) -> Seq<u8> {
    Seq::new(
        (shares[0].len() - 1) as nat,
        |i: int| interpolate_at_zero(indices(shares), column(shares, i + 1)),
    )
}

fn coefficient_rows_fit(coefficients: &[Vec<u8>], secret_len: usize, threshold: usize) -> (ok: bool)
    requires
        threshold >= 1,
    ensures
        ok == coefficients_fit(rows(coefficients@), secret_len as nat, threshold as nat),
{
    if coefficients.len() != secret_len {
        return false;
    }
    let mut i: usize = 0;
    while i < secret_len
        invariant
            i <= secret_len,
            threshold >= 1,
            coefficients.len() == secret_len,
            forall|k: int|
                0 <= k < i ==> (#[trigger] rows(coefficients@)[k]).len() == threshold - 1,
        decreases secret_len - i,
    {
        if coefficients[i].len() != threshold - 1 {
            assert(rows(coefficients@)[i as int].len() != threshold - 1);
            return false;
        }
        i = i + 1;
    }
    true
}

/// Splits `secret` into `share_amount` shares, any `threshold` of which give
/// it back, with the higher coefficients of each byte's polynomial taken from
/// `coefficients`: one row for each byte, from degree one up.
pub fn split_with_coefficients(
    secret: &[u8],
    share_amount: usize,
    threshold: usize,
    coefficients: &[Vec<u8>],
) -> (r: Result<Vec<Vec<u8>>, ShamirError>)
    ensures
        r is Ok <==> valid_parameters(secret@.len(), share_amount as nat, threshold as nat)
            && coefficients_fit(rows(coefficients@), secret@.len(), threshold as nat),
        r matches Ok(shares) ==> rows(shares@) == shares_of(
            secret@,
            rows(coefficients@),
            share_amount as nat,
        ),
        r matches Ok(shares) ==> is_sharing(
            rows(shares@),
            secret@,
            share_amount as nat,
            threshold as nat,
        ),
        r matches Err(e) ==> e == ShamirError::InvalidParameters,
{
    let len = secret.len();
    if len == 0 || threshold < 1 || threshold > share_amount || share_amount > 255 {
        return Err(ShamirError::InvalidParameters);
    }
    if !coefficient_rows_fit(coefficients, len, threshold) {
        return Err(ShamirError::InvalidParameters);
    }
    let ghost rows_c = rows(coefficients@);
    let ghost target = shares_of(secret@, rows_c, share_amount as nat);
    let mut shares: Vec<Vec<u8>> = Vec::new();
    let mut k: usize = 0;
    while k < share_amount
        invariant
            k <= share_amount <= 255,
            len == secret.len(),
            coefficients.len() == len,
            rows_c == rows(coefficients@),
            target == shares_of(secret@, rows_c, share_amount as nat),
            shares@.len() == k,
            forall|j: int| 0 <= j < k ==> (#[trigger] shares@[j])@ == target[j],
        decreases share_amount - k,
    {
        let x: u8 = (k + 1) as u8;
        let ghost goal = share_of(secret@, rows_c, x);
        let mut share: Vec<u8> = Vec::new();
        share.push(x);
        let mut i: usize = 0;
        while i < len
            invariant
                i <= len,
                len == secret.len(),
                coefficients.len() == len,
                rows_c == rows(coefficients@),
                goal == share_of(secret@, rows_c, x),
                share@.len() == i + 1,
                forall|j: int| 0 <= j <= i ==> share@[j] == goal[j],
            decreases len - i,
        {
            let tail = evaluate(coefficients[i].as_slice(), x);
            let y = crate::field::add(secret[i], crate::field::mul(x, tail));
            proof {
                let p = polynomial(secret@[i as int], rows_c[i as int]);
                assert(p.drop_first() =~= rows_c[i as int]);
                assert(goal[i + 1] == eval(p, x));
            }
            share.push(y);
            i = i + 1;
        }
        assert(share@ =~= goal);
        shares.push(share);
        k = k + 1;
    }
    assert(rows(shares@) =~= target);
    Ok(shares)
}

/// Calls `rand::thread_rng` and `rand::RngCore::fill_bytes`, which fills the
/// whole buffer it is given with bytes of the thread's generator, seeded by
/// the operating system. The contract states how many bytes come back, and
/// nothing of what they are. The call fails only where the operating system
/// gives no seed.
#[verifier::external_body]
fn random_bytes(count: usize) -> (bytes: Vec<u8>)
    ensures
        bytes@.len() == count,
{
    let mut bytes = vec![0u8; count];
    rand::RngCore::fill_bytes(&mut rand::thread_rng(), &mut bytes);
    bytes
}

/// Splits `secret` into `share_amount` shares, any `threshold` of which give
/// it back, with every coefficient drawn afresh from all 256 field elements.
pub fn split(secret: &[u8], share_amount: usize, threshold: usize) -> (r: Result<
    Vec<Vec<u8>>,
    ShamirError,
>)
    ensures
        r is Ok <==> valid_parameters(secret@.len(), share_amount as nat, threshold as nat),
        r matches Ok(shares) ==> is_sharing(
            rows(shares@),
            secret@,
            share_amount as nat,
            threshold as nat,
        ),
        r matches Err(e) ==> e == ShamirError::InvalidParameters,
{
    let len = secret.len();
    if len == 0 || threshold < 1 || threshold > share_amount || share_amount > 255 {
        return Err(ShamirError::InvalidParameters);
    }
    let mut coefficients: Vec<Vec<u8>> = Vec::new();
    let mut i: usize = 0;
    while i < len
        invariant
            i <= len,
            threshold >= 1,
            coefficients@.len() == i,
            forall|k: int| 0 <= k < i ==> (#[trigger] coefficients@[k])@.len() == threshold - 1,
        decreases len - i,
    {
        coefficients.push(random_bytes(threshold - 1));
        i = i + 1;
    }
    split_with_coefficients(secret, share_amount, threshold, coefficients.as_slice())
}

/// Tells whether `shares` can be handed to `reconstruct`.
pub fn validate_shares(shares: &[Vec<u8>]) -> (r: Result<(), ShamirError>)
    ensures
        r is Ok <==> well_formed(rows(shares@)),
        r matches Err(e) ==> e == ShamirError::MalformedShare,
{
    let m = shares.len();
    if m == 0 {
        return Err(ShamirError::MalformedShare);
    }
    let len = shares[0].len();
    if len == 0 {
        return Err(ShamirError::MalformedShare);
    }
    let ghost all = rows(shares@);
    let mut j: usize = 0;
    while j < m
        invariant
            j <= m,
            m == shares.len(),
            len >= 1,
            len == shares[0].len(),
            all == rows(shares@),
            forall|k: int| 0 <= k < j ==> (#[trigger] all[k]).len() == len,
            forall|k: int| 0 <= k < j ==> (#[trigger] all[k])[0] != 0,
            forall|a: int, b: int| 0 <= a < b < j ==> indices(all)[a] != indices(all)[b],
        decreases m - j,
    {
        if shares[j].len() != len {
            assert(all[j as int].len() != all[0].len());
            return Err(ShamirError::MalformedShare);
        }
        let x = shares[j][0];
        if x == 0 {
            assert(all[j as int][0] == 0);
            return Err(ShamirError::MalformedShare);
        }
        let mut i: usize = 0;
        while i < j
            invariant
                i <= j < m,
                m == shares.len(),
                all == rows(shares@),
                x == all[j as int][0],
                all[j as int].len() >= 1,
                forall|k: int| 0 <= k < j ==> (#[trigger] all[k]).len() >= 1,
                forall|a: int| 0 <= a < i ==> indices(all)[a] != x,
            decreases j - i,
        {
            assert(all[i as int] == shares@[i as int]@);
            if shares[i][0] == x {
                assert(indices(all)[i as int] == indices(all)[j as int]);
                return Err(ShamirError::MalformedShare);
            }
            i = i + 1;
        }
        j = j + 1;
    }
    Ok(())
}

fn share_indices(shares: &[Vec<u8>]) -> (xs: Vec<u8>)
    requires
        forall|j: int| 0 <= j < shares@.len() ==> (#[trigger] shares@[j])@.len() >= 1,
    ensures
        xs@ == indices(rows(shares@)),
{
    column_of(shares, 0)
}

fn column_of(shares: &[Vec<u8>], i: usize) -> (ys: Vec<u8>)
    requires
        forall|j: int| 0 <= j < shares@.len() ==> i < (#[trigger] shares@[j])@.len(),
    ensures
        ys@ == column(rows(shares@), i as int),
{
    let m = shares.len();
    let mut ys: Vec<u8> = Vec::new();
    let mut j: usize = 0;
    while j < m
        invariant
            j <= m,
            m == shares.len(),
            forall|k: int| 0 <= k < shares@.len() ==> i < (#[trigger] shares@[k])@.len(),
            ys@.len() == j,
            forall|k: int| 0 <= k < j ==> ys@[k] == shares@[k]@[i as int],
        decreases m - j,
    {
        ys.push(shares[j][i]);
        j = j + 1;
    }
    assert(ys@ =~= column(rows(shares@), i as int));
    ys
}

/// Recovers the secret from shares: each payload position is the value at
/// zero of the polynomial through the shares' points.
pub fn reconstruct(shares: &[Vec<u8>]) -> (secret: Vec<u8>)
    requires
        well_formed(rows(shares@)),
    ensures
        secret@ == reconstructed(rows(shares@)),
{
    let ghost all = rows(shares@);
    assert(forall|j: int| 0 <= j < shares@.len() ==> (#[trigger] shares@[j])@ == all[j]);
    let len = shares[0].len();
    let xs = share_indices(shares);
    let ws = lagrange_weights(xs.as_slice());
    let mut secret: Vec<u8> = Vec::new();
    let mut i: usize = 1;
    while i < len
        invariant
            1 <= i <= len,
            all == rows(shares@),
            well_formed(all),
            len == all[0].len(),
            forall|j: int| 0 <= j < shares@.len() ==> (#[trigger] shares@[j])@ == all[j],
            xs@ == indices(all),
            ws@ == weights(xs@),
            secret@.len() == i - 1,
            forall|k: int| 0 <= k < i - 1 ==> secret@[k] == interpolate_at_zero(
                indices(all),
                column(all, k + 1),
            ),
        decreases len - i,
    {
        let ys = column_of(shares, i);
        let y = weighted_sum(ys.as_slice(), ws.as_slice());
        secret.push(y);
        i = i + 1;
    }
    assert(secret@ =~= reconstructed(all));
    secret
}

} // verus!
