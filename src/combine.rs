//! Reconstructing a secret from its shares.
use vstd::prelude::*;

use crate::error::ShamirError;
use crate::interpolation::lemma_lagrange_reorder;
use crate::polynomial::{distinct, lagrange, Polynomial};

verus! {

/// A collection of shares that `combine` can read.
pub trait CombineSecret {
    /// The shares, in order.
    spec fn shares_view(&self) -> Seq<Seq<u8>>;

    /// The number of shares.
    fn len(&self) -> (r: usize)
        ensures
            r == self.shares_view().len(),
    ;

    /// The share at `index`.
    fn get(&self, index: usize) -> (r: &Vec<u8>)
        requires
            index < self.shares_view().len(),
        ensures
            r@ == self.shares_view()[index as int],
    ;
}

/// The byte views of a sequence of byte vectors.
pub open spec fn byte_views(v: Seq<Vec<u8>>) -> Seq<Seq<u8>> {
    v.map_values(|b: Vec<u8>| b@)
}

impl CombineSecret for Vec<Vec<u8>> {
    open spec fn shares_view(&self) -> Seq<Seq<u8>> {
        byte_views(self@)
    }

    fn len(&self) -> (r: usize) {
        self.as_slice().len()
    }

    fn get(&self, index: usize) -> (r: &Vec<u8>) {
        &self[index]
    }
}

impl<'a> CombineSecret for &'a Vec<Vec<u8>> {
    open spec fn shares_view(&self) -> Seq<Seq<u8>> {
        byte_views((**self)@)
    }

    fn len(&self) -> (r: usize) {
        self.as_slice().len()
    }

    fn get(&self, index: usize) -> (r: &Vec<u8>) {
        &self[index]
    }
}

impl<'a> CombineSecret for &'a [Vec<u8>] {
    open spec fn shares_view(&self) -> Seq<Seq<u8>> {
        byte_views((**self)@)
    }

    fn len(&self) -> (r: usize) {
        (**self).len()
    }

    fn get(&self, index: usize) -> (r: &Vec<u8>) {
        &self[index]
    }
}

impl<const N: usize> CombineSecret for [Vec<u8>; N] {
    open spec fn shares_view(&self) -> Seq<Seq<u8>> {
        byte_views(self@)
    }

    fn len(&self) -> (r: usize) {
        self.as_slice().len()
    }

    fn get(&self, index: usize) -> (r: &Vec<u8>) {
        &self.as_slice()[index]
    }
}

/// The x-coordinate of a share: its final byte.
pub open spec fn share_x(share: Seq<u8>) -> u8 {
    share[share.len() - 1]
}

/// The x-coordinates of the shares, in order.
pub open spec fn x_coordinates(shares: Seq<Seq<u8>>) -> Seq<u8> {
    Seq::new(shares.len(), |i: int| share_x(shares[i]))
}

/// Byte `s` of every share, in order.
pub open spec fn column(shares: Seq<Seq<u8>>, s: int) -> Seq<u8> {
    Seq::new(shares.len(), |i: int| shares[i][s])
}

/// Some share is shorter than two bytes.
pub open spec fn has_short_share(shares: Seq<Seq<u8>>) -> bool {
    exists|i: int| 0 <= i < shares.len() && #[trigger] shares[i].len() < 2
}

/// Every share has the length of the first.
pub open spec fn equal_lengths(shares: Seq<Seq<u8>>) -> bool {
    forall|i: int| 0 <= i < shares.len() ==> #[trigger] shares[i].len() == shares[0].len()
}

/// Some share has the x-coordinate zero.
pub open spec fn has_zero_x(shares: Seq<Seq<u8>>) -> bool {
    exists|i: int| 0 <= i < shares.len() && #[trigger] share_x(shares[i]) == 0
}

/// The secret that well-formed shares encode: byte `s` is the value at zero of the
/// polynomial through the points `(x_i, shares[i][s])`.
pub open spec fn reconstruct(shares: Seq<Seq<u8>>) -> Seq<u8> {
    Seq::new(
        (shares[0].len() - 1) as nat,
        |s: int| lagrange(x_coordinates(shares), column(shares, s), 0),
    )
}

/// What combining `shares` gives: the first failed check in order, or the secret.
pub open spec fn combine_outcome(shares: Seq<Seq<u8>>) -> Result<Seq<u8>, ShamirError> {
    if shares.len() < 2 {
        Err(ShamirError::InsufficientShares)
    } else if has_short_share(shares) {
        Err(ShamirError::MalformedShare)
    } else if !equal_lengths(shares) {
        Err(ShamirError::InconsistentShareLength)
    } else if !distinct(x_coordinates(shares)) {
        Err(ShamirError::DuplicateShare)
    } else if has_zero_x(shares) {
        Err(ShamirError::MalformedShare)
    } else {
        Ok(reconstruct(shares))
    }
}

/// The result with the secret given by its bytes.
pub open spec fn result_view(r: Result<Vec<u8>, ShamirError>) -> Result<Seq<u8>, ShamirError> {
    match r {
        Ok(v) => Ok(v@),
        Err(e) => Err(e),
    }
}

/// Reconstructs the secret from two or more shares. Any set of at least as many
/// shares as the threshold used when splitting gives the secret back; fewer give
/// an unrelated value, without an error, since the threshold is not recorded.
pub fn combine<T: CombineSecret>(shares: T) -> (r: Result<Vec<u8>, ShamirError>)
    ensures
        result_view(r) == combine_outcome(shares.shares_view()),
{
    let ghost view = shares.shares_view();
    let n = shares.len();
    if n < 2 {
        return Err(ShamirError::InsufficientShares);
    }
    let mut i: usize = 0;
    while i < n
        invariant
            view == shares.shares_view(),
            n == view.len(),
            n >= 2,
            i <= n,
            forall|k: int| 0 <= k < i ==> #[trigger] view[k].len() >= 2,
        decreases n - i,
    {
        if shares.get(i).len() < 2 {
            assert(view[i as int].len() < 2);
            return Err(ShamirError::MalformedShare);
        }
        i = i + 1;
    }
    assert(!has_short_share(view));
    let len = shares.get(0).len();
    let mut i: usize = 1;
    while i < n
        invariant
            view == shares.shares_view(),
            n == view.len(),
            n >= 2,
            !has_short_share(view),
            len == view[0].len(),
            1 <= i <= n,
            forall|k: int| 0 <= k < i ==> #[trigger] view[k].len() == len,
        decreases n - i,
    {
        if shares.get(i).len() != len {
            assert(view[i as int].len() != view[0].len());
            return Err(ShamirError::InconsistentShareLength);
        }
        i = i + 1;
    }
    assert(equal_lengths(view));
    assert(len >= 2);
    let mut xs: Vec<u8> = Vec::new();
    let mut i: usize = 0;
    while i < n
        invariant
            view == shares.shares_view(),
            n == view.len(),
            len == view[0].len(),
            len >= 2,
            equal_lengths(view),
            i <= n,
            xs@ == x_coordinates(view).take(i as int),
        decreases n - i,
    {
        assert(view[i as int].len() == len);
        let x = shares.get(i)[len - 1];
        xs.push(x);
        i = i + 1;
        assert(xs@ =~= x_coordinates(view).take(i as int));
    }
    assert(xs@ =~= x_coordinates(view));
    let mut seen: Vec<bool> = vec![false; 256];
    let mut i: usize = 0;
    while i < n
        invariant
            view == shares.shares_view(),
            n == view.len(),
            n >= 2,
            len == view[0].len(),
            len >= 2,
            !has_short_share(view),
            equal_lengths(view),
            xs@ == x_coordinates(view),
            n == xs@.len(),
            i <= n,
            seen@.len() == 256,
            forall|v: int|
                0 <= v < 256 ==> (#[trigger] seen@[v] <==> exists|k: int|
                    0 <= k < i && xs@[k] == v),
            distinct(xs@.take(i as int)),
        decreases n - i,
    {
        let x = xs[i];
        if seen[x as usize] {
            let ghost k = choose|k: int| 0 <= k < i && xs@[k] == x;
            assert(xs@[k] == xs@[i as int]);
            assert(!distinct(x_coordinates(view)));
            return Err(ShamirError::DuplicateShare);
        }
        seen.set(x as usize, true);
        i = i + 1;
        assert forall|v: int| 0 <= v < 256 implies (#[trigger] seen@[v] <==> exists|k: int|
            0 <= k < i && xs@[k] == v) by {
            if v == x {
                assert(xs@[i - 1] == v);
            }
        }
    }
    assert(xs@.take(n as int) =~= xs@);
    let mut i: usize = 0;
    while i < n
        invariant
            view == shares.shares_view(),
            n == view.len(),
            n >= 2,
            !has_short_share(view),
            equal_lengths(view),
            xs@ == x_coordinates(view),
            distinct(xs@),
            i <= n,
            forall|k: int| 0 <= k < i ==> #[trigger] share_x(view[k]) != 0,
        decreases n - i,
    {
        if xs[i] == 0 {
            assert(share_x(view[i as int]) == 0);
            return Err(ShamirError::MalformedShare);
        }
        i = i + 1;
    }
    assert(!has_zero_x(view));
    let mut secret: Vec<u8> = Vec::new();
    let mut s: usize = 0;
    while s < len - 1
        invariant
            view == shares.shares_view(),
            n == view.len(),
            n >= 2,
            len == view[0].len(),
            len >= 2,
            equal_lengths(view),
            !has_zero_x(view),
            xs@ == x_coordinates(view),
            distinct(xs@),
            s <= len - 1,
            secret@ =~= reconstruct(view).take(s as int),
        decreases len - 1 - s,
    {
        let mut ys: Vec<u8> = Vec::new();
        let mut k: usize = 0;
        while k < n
            invariant
                view == shares.shares_view(),
                n == view.len(),
                n >= 2,
                len == view[0].len(),
                equal_lengths(view),
                xs@ == x_coordinates(view),
                distinct(xs@),
                s < len - 1,
                k <= n,
                ys@ =~= column(view, s as int).take(k as int),
            decreases n - k,
        {
            assert(view[k as int].len() == len);
            ys.push(shares.get(k)[s]);
            k = k + 1;
        }
        assert(ys@ =~= column(view, s as int));
        let value = Polynomial::interpolate(&xs, &ys, 0);
        secret.push(value);
        s = s + 1;
    }
    assert(secret@ =~= reconstruct(view));
    Ok(secret)
}

/// Two shares that carry the same x-coordinate make combining fail with
/// `DuplicateShare`, whenever the shares are all of one length of at least two
/// bytes.
pub proof fn lemma_duplicate_rejected(shares: Seq<Seq<u8>>, i: int, j: int)
    requires
        0 <= i < shares.len(),
        0 <= j < shares.len(),
        i != j,
        shares[0].len() >= 2,
        equal_lengths(shares),
        share_x(shares[i]) == share_x(shares[j]),
    ensures
        combine_outcome(shares) == Err::<Seq<u8>, ShamirError>(ShamirError::DuplicateShare),
{
    assert(!has_short_share(shares)) by {
        assert forall|k: int| 0 <= k < shares.len() implies #[trigger] shares[k].len() >= 2 by {
            assert(shares[k].len() == shares[0].len());
        }
    }
    assert(x_coordinates(shares)[i] == x_coordinates(shares)[j]);
}

/// Two shares of different lengths make combining fail with
/// `InconsistentShareLength`, whenever every share has at least two bytes.
pub proof fn lemma_length_mismatch_rejected(shares: Seq<Seq<u8>>, i: int, j: int)
    requires
        0 <= i < shares.len(),
        0 <= j < shares.len(),
        shares[i].len() != shares[j].len(),
        forall|k: int| 0 <= k < shares.len() ==> #[trigger] shares[k].len() >= 2,
    ensures
        combine_outcome(shares) == Err::<Seq<u8>, ShamirError>(
            ShamirError::InconsistentShareLength,
        ),
{
    assert(shares.len() >= 2);
    if shares[i].len() == shares[0].len() {
        assert(shares[j].len() != shares[0].len());
    } else {
        assert(shares[i].len() != shares[0].len());
    }
}

/// The shares `shares` listed in the order `perm`.
pub open spec fn reordered(shares: Seq<Seq<u8>>, perm: Seq<int>) -> Seq<Seq<u8>> {
    Seq::new(perm.len(), |k: int| shares[perm[k]])
}

/// The order of well-formed shares does not matter: listing them in any other
/// order gives the same secret.
pub proof fn lemma_order_irrelevant(shares: Seq<Seq<u8>>, perm: Seq<int>)
    requires
        combine_outcome(shares) is Ok,
        perm.len() == shares.len(),
        perm.no_duplicates(),
        forall|k: int| 0 <= k < perm.len() ==> 0 <= #[trigger] perm[k] < shares.len(),
    ensures
        combine_outcome(reordered(shares, perm)) == combine_outcome(shares),
{
    let n = shares.len() as int;
    let t = reordered(shares, perm);
    let xs = x_coordinates(shares);
    let xt = x_coordinates(t);
    assert forall|k: int| 0 <= k < n implies #[trigger] t[k].len() == shares[0].len() by {
        assert(shares[perm[k]].len() == shares[0].len());
    }
    assert(t[0].len() == shares[0].len());
    assert(!has_short_share(t));
    assert(equal_lengths(t));
    assert(xt =~= Seq::new(xs.len(), |k: int| xs[perm[k]]));
    assert(distinct(xt)) by {
        assert forall|a: int, b: int|
            0 <= a < n && 0 <= b < n && a != b implies xt[a] != xt[b] by {
            assert(perm[a] != perm[b]);
        }
    }
    assert forall|k: int| 0 <= k < n implies #[trigger] share_x(t[k]) != 0 by {
        assert(share_x(shares[perm[k]]) != 0);
    }
    assert(!has_zero_x(t));
    assert forall|s: int| 0 <= s < shares[0].len() - 1 implies #[trigger] reconstruct(t)[s]
        == reconstruct(shares)[s] by {
        let col = column(shares, s);
        assert(column(t, s) =~= Seq::new(xs.len(), |k: int| col[perm[k]]));
        lemma_lagrange_reorder(xs, col, perm, 0);
    }
    assert(reconstruct(t) =~= reconstruct(shares));
}

} // verus!
