//! Threshold splitting of a master key into shares, and reconstruction of
//! the key from any large enough set of them.

use vstd::prelude::*;
use vstd::slice::{slice_subrange, slice_to_vec};
use vstd::string::StringExecFns;

use crate::codec::push_slice;

verus! {

/// Shares needed to reconstruct a secret.
pub const THRESHOLD: usize = 3;

/// Shares produced by one split.
pub const SHARE_COUNT: usize = 5;

/// One fragment of a threshold split: the x-coordinate the per-byte
/// polynomials were evaluated at, and one y-byte per byte of the secret.
pub struct Share {
    pub x: u8,
    pub y: Vec<u8>,
}

impl View for Share {
    type V = (u8, Seq<u8>);

    open spec fn view(&self) -> (u8, Seq<u8>) {
        (self.x, self.y@)
    }
}

impl Clone for Share {
    fn clone(&self) -> (r: Self)
        ensures
            r@ == self@,
    {
        Share { x: self.x, y: self.y.clone() }
    }
}

/// Why a reconstruction was refused.
#[derive(Clone, Copy, PartialEq, Eq, Structural, Debug)]
pub enum ReconstructionError {
    /// Fewer than `THRESHOLD` shares were supplied.
    TooFewShares,
    /// Two shares carry the same x-coordinate.
    DuplicateShareIndex,
    /// The shares' y-vectors are not all of one length.
    MismatchedShareLength,
    /// A share is shorter than the minimum viable size (an empty y-vector).
    MalformedShare,
}

pub open spec fn shares_view(s: Seq<Share>) -> Seq<(u8, Seq<u8>)> {
    s.map_values(|sh: Share| sh@)
}

/// No two shares carry the same x-coordinate.
pub open spec fn distinct_x(s: Seq<(u8, Seq<u8>)>) -> bool {
    forall|i: int, j: int| 0 <= i < j < s.len() ==> (#[trigger] s[i]).0 != (#[trigger] s[j]).0
}

/// Every element of `sel` is one of the shares of `shares`.
pub open spec fn drawn_from(sel: Seq<(u8, Seq<u8>)>, shares: Seq<(u8, Seq<u8>)>) -> bool {
    forall|i: int|
        0 <= i < sel.len() ==> exists|j: int| 0 <= j < shares.len() && #[trigger] sel[i] == shares[j]
}

/// All y-vectors have the length of the first.
pub open spec fn equal_share_lengths(s: Seq<(u8, Seq<u8>)>) -> bool {
    forall|i: int| 0 <= i < s.len() ==> (#[trigger] s[i]).1.len() == s[0].1.len()
}

/// A set of shares that reconstruction accepts: at least `THRESHOLD` of
/// them, pairwise distinct x-coordinates, and equal, nonempty y-vectors.
pub open spec fn valid_share_set(s: Seq<(u8, Seq<u8>)>) -> bool {
    &&& s.len() >= THRESHOLD
    &&& distinct_x(s)
    &&& equal_share_lengths(s)
    &&& s[0].1.len() >= 1
}

/// The byte string that sharks' Lagrange interpolation computes from a
/// sequence of shares. It is a function of the shares alone; nothing further
/// is assumed about its value.
pub uninterp spec fn recovered(shares: Seq<(u8, Seq<u8>)>) -> Seq<u8>;

/// The shares all lie on one split of `secret`: any selection of at least
/// `THRESHOLD` of them with pairwise distinct x-coordinates interpolates
/// back to exactly `secret`.
pub open spec fn recovers_to(shares: Seq<(u8, Seq<u8>)>, secret: Seq<u8>) -> bool {
    forall|sel: Seq<(u8, Seq<u8>)>|
        sel.len() >= THRESHOLD && drawn_from(sel, shares) && distinct_x(sel) ==> #[trigger] recovered(
            sel,
        ) == secret
}

/// Relies on sharks' `Sharks::dealer`: splits `secret` into `SHARE_COUNT`
/// shares of a (`THRESHOLD`, `SHARE_COUNT`) Shamir split — one random
/// polynomial of degree `THRESHOLD - 1` per secret byte, with the byte as
/// constant term, evaluated at x = 1, 2, ... — so that Lagrange
/// interpolation of any `THRESHOLD` or more shares with distinct
/// x-coordinates yields `secret` again. The polynomial coefficients are
/// random, so nothing else is stated of the share bytes.
#[verifier::external_body]
fn sharks_split(secret: &[u8]) -> (r: Vec<Share>)
    ensures
        r@.len() == SHARE_COUNT,
        forall|i: int|
            0 <= i < r@.len() ==> (#[trigger] r@[i]).x == i + 1 && r@[i].y@.len() == secret@.len(),
        recovers_to(shares_view(r@), secret@),
{
    let dealer = sharks::Sharks(3).dealer(secret);
    let mut out: Vec<Share> = Vec::new();
    for s in dealer.take(5) {
        out.push(Share { x: s.x.0, y: s.y.iter().map(|g| g.0).collect() });
    }
    out
}

/// Relies on sharks' `Sharks::recover`: given at least `THRESHOLD` shares
/// with pairwise distinct x-coordinates and equal, nonempty y-vectors, it
/// interpolates one byte per y-position and returns the secret determined by
/// the shares alone.
#[verifier::external_body]
fn sharks_recover(shares: &Vec<Share>) -> (r: Vec<u8>)
    requires
        valid_share_set(shares_view(shares@)),
    ensures
        r@ == recovered(shares_view(shares@)),
        r@.len() == shares@[0].y@.len(),
{
    let mut converted: Vec<sharks::Share> = Vec::new();
    for s in shares.iter() {
        let mut bytes: Vec<u8> = Vec::with_capacity(s.y.len() + 1);
        bytes.push(s.x);
        bytes.extend_from_slice(&s.y);
        let share = <sharks::Share as core::convert::TryFrom<&[u8]>>::try_from(bytes.as_slice())
            .expect("share bytes");
        converted.push(share);
    }
    sharks::Sharks(3).recover(&converted).expect("Failed to recover DEK")
}

/// Splits `dek` into `SHARE_COUNT` shares, any `THRESHOLD` of which (with
/// their pairwise distinct x-coordinates, here 1 through `SHARE_COUNT`)
/// reconstruct it exactly, while fewer reveal nothing.
pub fn split_dek(dek: &[u8]) -> (r: Vec<Share>)
    ensures
        r@.len() == SHARE_COUNT,
        forall|i: int|
            0 <= i < r@.len() ==> (#[trigger] r@[i]).x == i + 1 && r@[i].y@.len() == dek@.len(),
        recovers_to(shares_view(r@), dek@),
{
    sharks_split(dek)
}

/// Reconstructs a secret from `shares`. It succeeds exactly on a
/// `valid_share_set` — at least `THRESHOLD` shares, pairwise distinct
/// x-coordinates, equal and nonempty y-vectors — and then returns the
/// interpolated secret; otherwise it reports why the shares were refused.
pub fn reconstruct_dek(shares: Vec<Share>) -> (r: Result<Vec<u8>, ReconstructionError>)
    ensures
        r is Ok <==> valid_share_set(shares_view(shares@)),
        r is Ok ==> r->Ok_0@ == recovered(shares_view(shares@)) && r->Ok_0@.len()
            == shares@[0].y@.len(),
        shares@.len() < THRESHOLD ==> r == Result::<Vec<u8>, ReconstructionError>::Err(
            ReconstructionError::TooFewShares,
        ),
        shares@.len() >= THRESHOLD && !distinct_x(shares_view(shares@)) ==> r == Result::<
            Vec<u8>,
            ReconstructionError,
        >::Err(ReconstructionError::DuplicateShareIndex),
        shares@.len() >= THRESHOLD && distinct_x(shares_view(shares@)) && !equal_share_lengths(
            shares_view(shares@),
        ) ==> r == Result::<Vec<u8>, ReconstructionError>::Err(
            ReconstructionError::MismatchedShareLength,
        ),
        shares@.len() >= THRESHOLD && distinct_x(shares_view(shares@)) && equal_share_lengths(
            shares_view(shares@),
        ) && shares@[0].y@.len() == 0 ==> r == Result::<Vec<u8>, ReconstructionError>::Err(
            ReconstructionError::MalformedShare,
        ),
{
    if shares.len() < THRESHOLD {
        return Err(ReconstructionError::TooFewShares);
    }
    let n = shares.len();
    let mut i: usize = 0;
    while i < n
        invariant
            n == shares@.len(),
            n >= THRESHOLD,
            0 <= i <= n,
            forall|a: int, b: int|
                0 <= a < b < n && a < i ==> (#[trigger] shares@[a]).x != (#[trigger] shares@[b]).x,
        decreases n - i,
    {
        let mut j: usize = i + 1;
        while j < n
            invariant
                n == shares@.len(),
                n >= THRESHOLD,
                0 <= i < j <= n,
                forall|b: int| i < b < j ==> (#[trigger] shares@[b]).x != shares@[i as int].x,
            decreases n - j,
        {
            if shares[i].x == shares[j].x {
                proof {
                    let v = shares_view(shares@);
                    assert(v[i as int] == shares@[i as int]@);
                    assert(v[j as int] == shares@[j as int]@);
                    assert(v[i as int].0 == v[j as int].0);
                }
                return Err(ReconstructionError::DuplicateShareIndex);
            }
            j += 1;
        }
        i += 1;
    }
    proof {
        let v = shares_view(shares@);
        assert forall|a: int, b: int| 0 <= a < b < v.len() implies (#[trigger] v[a]).0 != (
        #[trigger] v[b]).0 by {
            assert(v[a] == shares@[a]@);
            assert(v[b] == shares@[b]@);
        }
    }
    assert(distinct_x(shares_view(shares@)));
    let first_len = shares[0].y.len();
    let mut k: usize = 1;
    while k < n
        invariant
            n == shares@.len(),
            n >= THRESHOLD,
            distinct_x(shares_view(shares@)),
            1 <= k <= n,
            first_len == shares@[0].y@.len(),
            forall|a: int| 0 <= a < k ==> (#[trigger] shares@[a]).y@.len() == first_len,
        decreases n - k,
    {
        if shares[k].y.len() != first_len {
            proof {
                let v = shares_view(shares@);
                assert(v[k as int] == shares@[k as int]@);
                assert(v[0] == shares@[0]@);
                assert(v[k as int].1.len() != v[0].1.len());
            }
            return Err(ReconstructionError::MismatchedShareLength);
        }
        k += 1;
    }
    proof {
        let v = shares_view(shares@);
        assert forall|a: int| 0 <= a < v.len() implies (#[trigger] v[a]).1.len() == v[0].1.len() by {
            assert(v[a] == shares@[a]@);
            assert(v[0] == shares@[0]@);
        }
    }
    assert(equal_share_lengths(shares_view(shares@)));
    if first_len == 0 {
        assert(shares_view(shares@)[0].1.len() == 0) by {
            assert(shares_view(shares@)[0] == shares@[0]@);
        }
        return Err(ReconstructionError::MalformedShare);
    }
    proof {
        assert(shares_view(shares@)[0] == shares@[0]@);
    }
    assert(valid_share_set(shares_view(shares@)));
    Ok(sharks_recover(&shares))
}

/// The byte form of a share: its x-coordinate, then its y-vector.
pub trait ShareSerialization: Sized {
    spec fn share_x(&self) -> u8;

    spec fn share_y(&self) -> Seq<u8>;

    /// Encodes as the one x byte followed by the y bytes.
    fn to_bytes(&self) -> (r: Vec<u8>)
        ensures
            r@ == seq![self.share_x()] + self.share_y(),
    ;

    /// Decodes a share: the first byte is x, the rest the y-vector. Bytes
    /// shorter than the minimum viable share (x plus one y byte) are
    /// refused.
    fn from_bytes(bytes: &[u8]) -> (r: Result<Share, String>)
        ensures
            r is Ok <==> bytes@.len() >= 2,
            r is Ok ==> r->Ok_0@ == (bytes@[0], bytes@.skip(1)),
    ;
}

impl ShareSerialization for Share {
    open spec fn share_x(&self) -> u8 {
        self.x
    }

    open spec fn share_y(&self) -> Seq<u8> {
        self.y@
    }

    fn to_bytes(&self) -> (r: Vec<u8>) {
        let mut out: Vec<u8> = Vec::new();
        out.push(self.x);
        push_slice(&mut out, self.y.as_slice());
        proof {
            assert(out@ =~= seq![self.x] + self.y@);
        }
        out
    }

    fn from_bytes(bytes: &[u8]) -> (r: Result<Share, String>) {
        if bytes.len() < 2 {
            return Err(String::from_str("Not enough data to form a Share"));
        }
        let x = bytes[0];
        let y = slice_to_vec(slice_subrange(bytes, 1, bytes.len()));
        proof {
            assert(y@ =~= bytes@.skip(1));
        }
        Ok(Share { x, y })
    }
}

/// Law: any two selections of at least `THRESHOLD` shares with pairwise
/// distinct x-coordinates, both drawn from one split of `secret`,
/// reconstruct exactly `secret` — and hence agree with each other.
pub proof fn lemma_threshold_reconstruction(
    shares: Seq<(u8, Seq<u8>)>,
    secret: Seq<u8>,
    sel1: Seq<(u8, Seq<u8>)>,
    sel2: Seq<(u8, Seq<u8>)>,
)
    requires
        recovers_to(shares, secret),
        sel1.len() >= THRESHOLD,
        drawn_from(sel1, shares),
        distinct_x(sel1),
        sel2.len() >= THRESHOLD,
        drawn_from(sel2, shares),
        distinct_x(sel2),
    ensures
        recovered(sel1) == secret,
        recovered(sel2) == secret,
        recovered(sel1) == recovered(sel2),
{
}

} // verus!
