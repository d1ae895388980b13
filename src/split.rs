//! Splitting a secret into shares.
use vstd::prelude::*;
use vstd::string::StringSliceAdditionalSpecFns;

use crate::combine::{
    byte_views, column, combine_outcome, equal_lengths, has_zero_x, reconstruct, share_x,
    x_coordinates,
};
use crate::field::{lemma_add_laws, lemma_identities};
use crate::interpolation::lemma_interpolation_identity;
use crate::error::ShamirError;
use crate::polynomial::{distinct, lagrange, poly_eval, Polynomial};

verus! {

broadcast use vstd::seq_lib::group_to_multiset_ensures;

/// A byte string that can be split.
pub trait Secret {
    /// The secret's bytes, in order.
    spec fn secret_bytes(&self) -> Seq<u8>;

    /// Whether the secret has no bytes.
    fn is_empty(&self) -> (r: bool)
        ensures
            r == (self.secret_bytes().len() == 0),
    ;

    /// The number of bytes in the secret.
    fn len(&self) -> (r: usize)
        ensures
            r == self.secret_bytes().len(),
    ;

    /// The secret's bytes, without a copy.
    fn bytes(&self) -> (r: &[u8])
        ensures
            r@ == self.secret_bytes(),
    ;
}

impl<'a> Secret for &'a [u8] {
    open spec fn secret_bytes(&self) -> Seq<u8> {
        (**self)@
    }

    fn is_empty(&self) -> (r: bool) {
        (**self).len() == 0
    }

    fn len(&self) -> (r: usize) {
        (**self).len()
    }

    fn bytes(&self) -> (r: &[u8]) {
        *self
    }
}

impl<'a, const N: usize> Secret for &'a [u8; N] {
    open spec fn secret_bytes(&self) -> Seq<u8> {
        (**self)@
    }

    fn is_empty(&self) -> (r: bool) {
        self.as_slice().len() == 0
    }

    fn len(&self) -> (r: usize) {
        self.as_slice().len()
    }

    fn bytes(&self) -> (r: &[u8]) {
        self.as_slice()
    }
}

impl Secret for Vec<u8> {
    open spec fn secret_bytes(&self) -> Seq<u8> {
        self@
    }

    fn is_empty(&self) -> (r: bool) {
        self.as_slice().len() == 0
    }

    fn len(&self) -> (r: usize) {
        self.as_slice().len()
    }

    fn bytes(&self) -> (r: &[u8]) {
        self.as_slice()
    }
}

impl<'a> Secret for &'a Vec<u8> {
    open spec fn secret_bytes(&self) -> Seq<u8> {
        (**self)@
    }

    fn is_empty(&self) -> (r: bool) {
        self.as_slice().len() == 0
    }

    fn len(&self) -> (r: usize) {
        self.as_slice().len()
    }

    fn bytes(&self) -> (r: &[u8]) {
        self.as_slice()
    }
}

impl<'a> Secret for &'a str {
    open spec fn secret_bytes(&self) -> Seq<u8> {
        (**self).spec_bytes()
    }

    fn is_empty(&self) -> (r: bool) {
        (**self).as_bytes().len() == 0
    }

    fn len(&self) -> (r: usize) {
        (**self).as_bytes().len()
    }

    fn bytes(&self) -> (r: &[u8]) {
        (**self).as_bytes()
    }
}

impl Secret for String {
    open spec fn secret_bytes(&self) -> Seq<u8> {
        vstd::utf8::encode_utf8(self@)
    }

    fn is_empty(&self) -> (r: bool) {
        self.as_str().as_bytes().len() == 0
    }

    fn len(&self) -> (r: usize) {
        self.as_str().as_bytes().len()
    }

    fn bytes(&self) -> (r: &[u8]) {
        self.as_str().as_bytes()
    }
}

impl<'a> Secret for &'a String {
    open spec fn secret_bytes(&self) -> Seq<u8> {
        vstd::utf8::encode_utf8((**self)@)
    }

    fn is_empty(&self) -> (r: bool) {
        (**self).as_str().as_bytes().len() == 0
    }

    fn len(&self) -> (r: usize) {
        (**self).as_str().as_bytes().len()
    }

    fn bytes(&self) -> (r: &[u8]) {
        (**self).as_str().as_bytes()
    }
}

/// Declares std's `PhantomPinned`, a marker without data, so that it can stand
/// for an empty secret.
#[verifier::external_type_specification]
#[verifier::external_body]
pub struct ExPhantomPinned(std::marker::PhantomPinned);

impl Secret for std::marker::PhantomPinned {
    open spec fn secret_bytes(&self) -> Seq<u8> {
        Seq::empty()
    }

    fn is_empty(&self) -> (r: bool) {
        true
    }

    fn len(&self) -> (r: usize) {
        0
    }

    fn bytes(&self) -> (r: &[u8]) {
        let none: &[u8] = &[];
        assert(none@ =~= Seq::<u8>::empty());
        none
    }
}

impl<T> Secret for std::marker::PhantomData<T> {
    open spec fn secret_bytes(&self) -> Seq<u8> {
        Seq::empty()
    }

    fn is_empty(&self) -> (r: bool) {
        true
    }

    fn len(&self) -> (r: usize) {
        0
    }

    fn bytes(&self) -> (r: &[u8]) {
        let none: &[u8] = &[];
        assert(none@ =~= Seq::<u8>::empty());
        none
    }
}

/// The parameters that `split` accepts.
pub open spec fn valid_parameters(secret_len: int, parts: int, threshold: int) -> bool {
    &&& 2 <= threshold <= 255
    &&& threshold <= parts <= 255
    &&& secret_len >= 1
}

/// The polynomial for secret byte `s`: the byte as constant term, then the
/// random coefficients set aside for it.
pub open spec fn byte_polynomial(secret: Seq<u8>, coefficients: Seq<Seq<u8>>, s: int) -> Seq<u8> {
    seq![secret[s]] + coefficients[s]
}

/// The share at the x-coordinate `x`: each byte's polynomial evaluated at `x`,
/// then `x` itself.
pub open spec fn share_at(secret: Seq<u8>, coefficients: Seq<Seq<u8>>, x: u8) -> Seq<u8> {
    Seq::new(secret.len(), |s: int| poly_eval(byte_polynomial(secret, coefficients, s), x)).push(x)
}

/// Byte `s` of every share is the value of `c` at the share's x-coordinate.
pub open spec fn on_polynomial(shares: Seq<Seq<u8>>, s: int, c: Seq<u8>) -> bool {
    forall|i: int| 0 <= i < shares.len() ==> #[trigger] shares[i][s] == poly_eval(c, share_x(shares[i]))
}

/// Byte `s` of every share lies on a polynomial of `threshold` coefficients whose
/// constant term is byte `s` of the secret.
pub open spec fn byte_on_polynomial(shares: Seq<Seq<u8>>, secret: Seq<u8>, threshold: int, s: int) -> bool {
    exists|c: Seq<u8>| c.len() == threshold && c[0] == secret[s] && #[trigger] on_polynomial(shares, s, c)
}

/// What `split` promises of its shares: `parts` shares of one byte more than the
/// secret, with distinct non-zero x-coordinates, where each secret byte is the
/// constant term of a polynomial of `threshold` coefficients through the shares.
pub open spec fn valid_split(shares: Seq<Seq<u8>>, secret: Seq<u8>, parts: int, threshold: int) -> bool {
    &&& shares.len() == parts
    &&& forall|i: int| 0 <= i < parts ==> #[trigger] shares[i].len() == secret.len() + 1
    &&& forall|i: int| 0 <= i < parts ==> #[trigger] share_x(shares[i]) != 0
    &&& distinct(x_coordinates(shares))
    &&& forall|s: int|
        0 <= s < secret.len() ==> #[trigger] byte_on_polynomial(shares, secret, threshold, s)
}

/// Relies on rand::seq::SliceRandom::shuffle with the generator of rand::thread_rng:
/// the elements are permuted in place.
#[verifier::external_body]
fn shuffle(v: &mut Vec<u8>)
    ensures
        final(v)@.len() == old(v)@.len(),
        final(v)@.to_multiset() == old(v)@.to_multiset(),
{
    rand::seq::SliceRandom::shuffle(v.as_mut_slice(), &mut rand::thread_rng());
}

/// Relies on rand::RngCore::fill_bytes with the generator of rand::thread_rng:
/// every byte is overwritten, the length is kept.
#[verifier::external_body]
fn fill_random(buf: &mut Vec<u8>)
    ensures
        final(buf)@.len() == old(buf)@.len(),
{
    rand::RngCore::fill_bytes(&mut rand::thread_rng(), buf.as_mut_slice());
}

/// Splits `secret` with the x-coordinates and random coefficients given: share
/// `i` has x-coordinate `xs[i]`, and the polynomial of secret byte `s` has the
/// coefficients `coefficients[s]` above its constant term.
pub fn split_with_randomness(
    secret: &[u8],
    parts: usize,
    threshold: usize,
    xs: &[u8],
    coefficients: &Vec<Vec<u8>>,
) -> (shares: Vec<Vec<u8>>)
    requires
        valid_parameters(secret@.len() as int, parts as int, threshold as int),
        xs@.len() >= parts,
        coefficients@.len() == secret@.len(),
        forall|s: int|
            0 <= s < secret@.len() ==> #[trigger] coefficients@[s]@.len() == threshold - 1,
    ensures
        byte_views(shares@) == Seq::new(
            parts as nat,
            |i: int| share_at(secret@, byte_views(coefficients@), xs@[i]),
        ),
{
    let ghost cv = byte_views(coefficients@);
    let n = secret.len();
    let mut polynomials: Vec<Polynomial> = Vec::new();
    let mut s: usize = 0;
    while s < n
        invariant
            n == secret@.len(),
            cv == byte_views(coefficients@),
            coefficients@.len() == n,
            s <= n,
            polynomials@.len() == s,
            forall|t: int|
                0 <= t < s ==> #[trigger] polynomials@[t]@ == byte_polynomial(secret@, cv, t),
        decreases n - s,
    {
        let row = &coefficients[s];
        let mut c: Vec<u8> = Vec::new();
        c.push(secret[s]);
        let mut t: usize = 0;
        while t < row.len()
            invariant
                n == secret@.len(),
                s < n,
                t <= row@.len(),
                c@ == seq![secret@[s as int]] + row@.take(t as int),
            decreases row@.len() - t,
        {
            c.push(row[t]);
            t = t + 1;
            assert(c@ =~= seq![secret@[s as int]] + row@.take(t as int));
        }
        assert(row@.take(row@.len() as int) =~= row@);
        assert(cv[s as int] == row@);
        polynomials.push(Polynomial::new(c));
        s = s + 1;
    }
    let mut shares: Vec<Vec<u8>> = Vec::new();
    let mut i: usize = 0;
    while i < parts
        invariant
            n == secret@.len(),
            polynomials@.len() == n,
            forall|t: int|
                0 <= t < n ==> #[trigger] polynomials@[t]@ == byte_polynomial(secret@, cv, t),
            xs@.len() >= parts,
            i <= parts,
            byte_views(shares@) =~= Seq::new(i as nat, |k: int| share_at(secret@, cv, xs@[k])),
        decreases parts - i,
    {
        let x = xs[i];
        let mut row: Vec<u8> = Vec::new();
        let mut s: usize = 0;
        while s < n
            invariant
                n == secret@.len(),
                polynomials@.len() == n,
                forall|t: int|
                    0 <= t < n ==> #[trigger] polynomials@[t]@ == byte_polynomial(secret@, cv, t),
                s <= n,
                row@ =~= Seq::new(
                    s as nat,
                    |t: int| poly_eval(byte_polynomial(secret@, cv, t), x),
                ),
            decreases n - s,
        {
            let y = polynomials[s].evaluate(x);
            row.push(y);
            s = s + 1;
        }
        row.push(x);
        assert(row@ =~= share_at(secret@, cv, x));
        let ghost before = shares@;
        shares.push(row);
        assert(byte_views(shares@) =~= byte_views(before).push(row@));
        i = i + 1;
    }
    shares
}

/// The non-zero field elements in increasing order.
pub open spec fn nonzero_bytes() -> Seq<u8> {
    Seq::new(255, |i: int| (i + 1) as u8)
}

proof fn lemma_permutation_distinct_nonzero(p: Seq<u8>)
    requires
        p.to_multiset() == nonzero_bytes().to_multiset(),
    ensures
        p.no_duplicates(),
        forall|i: int| 0 <= i < p.len() ==> #[trigger] p[i] != 0,
{
    let q = nonzero_bytes();
    assert(q.no_duplicates());
    q.lemma_multiset_has_no_duplicates();
    p.lemma_multiset_has_no_duplicates_conv();
    assert forall|i: int| 0 <= i < p.len() implies #[trigger] p[i] != 0 by {
        assert(p.contains(p[i]));
        assert(p.to_multiset().count(p[i]) > 0);
        assert(q.to_multiset().count(p[i]) > 0);
        assert(q.contains(p[i]));
        let j = choose|j: int| 0 <= j < q.len() && q[j] == p[i];
        assert(q[j] != 0);
    }
}

/// Splits `secret` into `parts` shares, any `threshold` of which give it back.
/// The x-coordinates are a random selection of distinct non-zero bytes, and the
/// coefficients above each constant term are random bytes.
pub fn split<T: Secret>(secret: T, parts: usize, threshold: usize) -> (r: Result<
    Vec<Vec<u8>>,
    ShamirError,
>)
    ensures
        match r {
            Ok(shares) => valid_parameters(
                secret.secret_bytes().len() as int,
                parts as int,
                threshold as int,
            ) && valid_split(
                byte_views(shares@),
                secret.secret_bytes(),
                parts as int,
                threshold as int,
            ),
            Err(e) => !valid_parameters(
                secret.secret_bytes().len() as int,
                parts as int,
                threshold as int,
            ) && e == ShamirError::InvalidParameters,
        },
{
    if parts < threshold || parts > 255 || threshold < 2 || threshold > 255 || secret.is_empty() {
        return Err(ShamirError::InvalidParameters);
    }
    let bytes = secret.bytes();
    let mut xs: Vec<u8> = Vec::new();
    let mut k: usize = 1;
    while k <= 255
        invariant
            1 <= k <= 256,
            xs@ =~= nonzero_bytes().take(k - 1),
        decreases 256 - k,
    {
        xs.push(k as u8);
        k = k + 1;
    }
    assert(xs@ =~= nonzero_bytes());
    shuffle(&mut xs);
    proof {
        lemma_permutation_distinct_nonzero(xs@);
    }
    let n = bytes.len();
    let mut coefficients: Vec<Vec<u8>> = Vec::new();
    let mut s: usize = 0;
    while s < n
        invariant
            n == bytes@.len(),
            2 <= threshold <= 255,
            s <= n,
            coefficients@.len() == s,
            forall|t: int| 0 <= t < s ==> #[trigger] coefficients@[t]@.len() == threshold - 1,
        decreases n - s,
    {
        let mut row: Vec<u8> = vec![0u8; threshold - 1];
        fill_random(&mut row);
        coefficients.push(row);
        s = s + 1;
    }
    let shares = split_with_randomness(bytes, parts, threshold, xs.as_slice(), &coefficients);
    proof {
        let views = byte_views(shares@);
        let sb = bytes@;
        let cv = byte_views(coefficients@);
        assert forall|i: int| 0 <= i < parts implies #[trigger] share_x(views[i]) == xs@[i] by {
            assert(views[i] == share_at(sb, cv, xs@[i]));
        }
        assert forall|i: int| 0 <= i < parts implies #[trigger] views[i].len() == sb.len() + 1 by {
            assert(views[i] == share_at(sb, cv, xs@[i]));
        }
        assert forall|i: int| 0 <= i < parts implies #[trigger] share_x(views[i]) != 0 by {
            assert(share_x(views[i]) == xs@[i]);
        }
        assert(x_coordinates(views) =~= xs@.take(parts as int));
        assert forall|s: int| 0 <= s < sb.len() implies #[trigger] byte_on_polynomial(
            views,
            sb,
            threshold as int,
            s,
        ) by {
            let c = byte_polynomial(sb, cv, s);
            assert(coefficients@[s]@.len() == threshold - 1);
            assert(c.len() == threshold);
            assert forall|i: int| 0 <= i < views.len() implies #[trigger] views[i][s] == poly_eval(
                c,
                share_x(views[i]),
            ) by {
                assert(views[i] == share_at(sb, cv, xs@[i]));
                assert(share_x(views[i]) == xs@[i]);
            }
            assert(on_polynomial(views, s, c));
        }
    }
    Ok(shares)
}

/// Any `threshold` or more distinct shares of a split combine to the secret:
/// `picked` lists the positions of the shares taken, in any order.
pub proof fn lemma_round_trip(
    shares: Seq<Seq<u8>>,
    secret: Seq<u8>,
    parts: int,
    threshold: int,
    picked: Seq<int>,
)
    requires
        valid_parameters(secret.len() as int, parts, threshold),
        valid_split(shares, secret, parts, threshold),
        picked.len() >= threshold,
        picked.no_duplicates(),
        forall|m: int| 0 <= m < picked.len() ==> 0 <= #[trigger] picked[m] < parts,
    ensures
        combine_outcome(picked.map_values(|j: int| shares[j])) == Ok::<Seq<u8>, ShamirError>(
            secret,
        ),
{
    let t = picked.map_values(|j: int| shares[j]);
    let xt = x_coordinates(t);
    assert forall|m: int| 0 <= m < t.len() implies #[trigger] t[m].len() == secret.len() + 1 by {
        assert(t[m] == shares[picked[m]]);
    }
    assert(equal_lengths(t));
    assert forall|m: int| 0 <= m < t.len() implies #[trigger] share_x(t[m]) != 0 by {
        assert(t[m] == shares[picked[m]]);
    }
    assert(!has_zero_x(t));
    assert forall|a: int, b: int| 0 <= a < xt.len() && 0 <= b < xt.len() && a != b implies xt[a]
        != xt[b] by {
        assert(xt[a] == x_coordinates(shares)[picked[a]]);
        assert(xt[b] == x_coordinates(shares)[picked[b]]);
    }
    assert forall|s: int| 0 <= s < secret.len() implies #[trigger] reconstruct(t)[s]
        == secret[s] by {
        assert(byte_on_polynomial(shares, secret, threshold, s));
        let c = choose|c: Seq<u8>|
            c.len() == threshold && c[0] == secret[s] && #[trigger] on_polynomial(shares, s, c);
        assert(column(t, s) =~= Seq::new(xt.len(), |k: int| poly_eval(c, xt[k]))) by {
            assert forall|k: int| 0 <= k < xt.len() implies column(t, s)[k] == poly_eval(
                c,
                xt[k],
            ) by {
                assert(t[k] == shares[picked[k]]);
                assert(shares[picked[k]][s] == poly_eval(c, share_x(shares[picked[k]])));
            }
        }
        lemma_interpolation_identity(c, xt, 0);
        lemma_identities(poly_eval(c.drop_first(), 0));
        lemma_add_laws(0, c[0], 0);
        lemma_identities(c[0]);
        assert(lagrange(xt, column(t, s), 0) == poly_eval(c, 0));
    }
    assert(reconstruct(t) =~= secret);
}

} // verus!
