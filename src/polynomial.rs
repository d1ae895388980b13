//! Polynomials over GF(2^8): evaluation and Lagrange interpolation.
use vstd::prelude::*;

use crate::field::{
    field_add, field_div, field_mul, gf_add, gf_div, gf_inv, gf_mul, lemma_add_laws, lemma_identities,
    lemma_mul_commutative, lemma_mul_inverse,
};

verus! {

/// The value at `x` of the polynomial with coefficients `c` (lowest degree first).
pub open spec fn poly_eval(c: Seq<u8>, x: u8) -> u8
    decreases c.len(),
{
    if c.len() == 0 {
        0
    } else {
        gf_add(gf_mul(poly_eval(c.drop_first(), x), x), c[0])
    }
}

/// The product of the factors `(x - xs[j]) / (xs[i] - xs[j])` over `j < n`, `j != i`.
pub open spec fn basis_prefix(xs: Seq<u8>, i: int, x: u8, n: int) -> u8
    decreases n,
{
    if n <= 0 {
        1
    } else if n - 1 == i {
        basis_prefix(xs, i, x, n - 1)
    } else {
        gf_mul(
            basis_prefix(xs, i, x, n - 1),
            gf_div(gf_add(x, xs[n - 1]), gf_add(xs[i], xs[n - 1])),
        )
    }
}

/// The `i`-th Lagrange basis polynomial of the nodes `xs`, at `x`.
pub open spec fn lagrange_basis(xs: Seq<u8>, i: int, x: u8) -> u8 {
    basis_prefix(xs, i, x, xs.len() as int)
}

/// The sum of `ys[i] * L_i(x)` over `i < n`.
pub open spec fn lagrange_prefix(xs: Seq<u8>, ys: Seq<u8>, x: u8, n: int) -> u8
    decreases n,
{
    if n <= 0 {
        0
    } else {
        gf_add(lagrange_prefix(xs, ys, x, n - 1), gf_mul(ys[n - 1], lagrange_basis(xs, n - 1, x)))
    }
}

/// The value at `x` of the polynomial of degree below `xs.len()` through the
/// points `(xs[i], ys[i])`.
pub open spec fn lagrange(xs: Seq<u8>, ys: Seq<u8>, x: u8) -> u8 {
    lagrange_prefix(xs, ys, x, xs.len() as int)
}

/// The elements of `s` are pairwise distinct.
pub open spec fn distinct(s: Seq<u8>) -> bool {
    forall|i: int, j: int| 0 <= i < s.len() && 0 <= j < s.len() && i != j ==> s[i] != s[j]
}

proof fn lemma_basis_at_node(xs: Seq<u8>, i: int, k: int, n: int)
    requires
        distinct(xs),
        0 <= i < xs.len(),
        0 <= k < xs.len(),
        0 <= n <= xs.len(),
    ensures
        i == k ==> basis_prefix(xs, i, xs[k], n) == 1,
        i != k && k < n ==> basis_prefix(xs, i, xs[k], n) == 0,
    decreases n,
{
    if n > 0 {
        lemma_basis_at_node(xs, i, k, n - 1);
        if n - 1 != i {
            let prev = basis_prefix(xs, i, xs[k], n - 1);
            let num = gf_add(xs[k], xs[n - 1]);
            let den = gf_add(xs[i], xs[n - 1]);
            let factor = gf_div(num, den);
            lemma_add_laws(xs[k], xs[n - 1], 0);
            lemma_add_laws(xs[i], xs[n - 1], 0);
            if i == k {
                lemma_mul_inverse(den);
                lemma_identities(1);
            } else if k == n - 1 {
                lemma_identities(gf_inv(den));
                lemma_mul_commutative(0, gf_inv(den));
                lemma_identities(prev);
            } else if k < n - 1 {
                lemma_identities(factor);
                lemma_mul_commutative(0, factor);
            }
        }
    }
}

proof fn lemma_lagrange_prefix_at_node(xs: Seq<u8>, ys: Seq<u8>, k: int, n: int)
    requires
        distinct(xs),
        xs.len() == ys.len(),
        0 <= k < xs.len(),
        0 <= n <= xs.len(),
    ensures
        lagrange_prefix(xs, ys, xs[k], n) == if k < n {
            ys[k]
        } else {
            0
        },
    decreases n,
{
    if n > 0 {
        lemma_lagrange_prefix_at_node(xs, ys, k, n - 1);
        lemma_basis_at_node(xs, n - 1, k, xs.len() as int);
        let prev = lagrange_prefix(xs, ys, xs[k], n - 1);
        lemma_identities(ys[n - 1]);
        lemma_identities(prev);
        lemma_add_laws(0, ys[n - 1], 0);
    }
}

/// Interpolation passes through its nodes: at `xs[k]` it gives `ys[k]`.
pub proof fn lemma_interpolation_at_nodes(xs: Seq<u8>, ys: Seq<u8>, k: int)
    requires
        distinct(xs),
        xs.len() == ys.len(),
        0 <= k < xs.len(),
    ensures
        lagrange(xs, ys, xs[k]) == ys[k],
{
    lemma_lagrange_prefix_at_node(xs, ys, k, xs.len() as int);
}

/// A polynomial over GF(2^8), by its coefficients from the constant term up.
pub struct Polynomial {
    coefficients: Vec<u8>,
}

impl View for Polynomial {
    type V = Seq<u8>;

    closed spec fn view(&self) -> Seq<u8> {
        self.coefficients@
    }
}

impl Polynomial {
    /// The polynomial with the given coefficients, constant term first.
    pub fn new(coefficients: Vec<u8>) -> (r: Polynomial)
        ensures
            r@ == coefficients@,
    {
        Polynomial { coefficients }
    }

    /// The polynomial's value at `x`, by Horner's method.
    pub fn evaluate(&self, x: u8) -> (r: u8)
        ensures
            r == poly_eval(self@, x),
    {
        let c = &self.coefficients;
        let mut y: u8 = 0;
        let mut i: usize = c.len();
        while i > 0
            invariant
                i <= c@.len(),
                y == poly_eval(c@.subrange(i as int, c@.len() as int), x),
            decreases i,
        {
            i = i - 1;
            assert(c@.subrange(i as int, c@.len() as int).drop_first() =~= c@.subrange(
                i + 1,
                c@.len() as int,
            ));
            y = field_add(field_mul(y, x), c[i]);
        }
        assert(c@.subrange(0, c@.len() as int) =~= c@);
        y
    }

    /// The value at `x` of the polynomial through the points `(xs[i], ys[i])`,
    /// by Lagrange interpolation. The nodes must be pairwise distinct.
    pub fn interpolate(xs: &Vec<u8>, ys: &Vec<u8>, x: u8) -> (r: u8)
        requires
            xs@.len() == ys@.len(),
            distinct(xs@),
        ensures
            r == lagrange(xs@, ys@, x),
    {
        let n = xs.len();
        let mut result: u8 = 0;
        let mut i: usize = 0;
        while i < n
            invariant
                n == xs@.len(),
                n == ys@.len(),
                distinct(xs@),
                i <= n,
                result == lagrange_prefix(xs@, ys@, x, i as int),
            decreases n - i,
        {
            let mut basis: u8 = 1;
            let mut j: usize = 0;
            while j < n
                invariant
                    n == xs@.len(),
                    distinct(xs@),
                    i < n,
                    j <= n,
                    basis == basis_prefix(xs@, i as int, x, j as int),
                decreases n - j,
            {
                if j != i {
                    proof {
                        lemma_add_laws(xs@[i as int], xs@[j as int], 0);
                    }
                    let factor = field_div(field_add(x, xs[j]), field_add(xs[i], xs[j]));
                    basis = field_mul(basis, factor);
                }
                j = j + 1;
            }
            result = field_add(result, field_mul(ys[i], basis));
            i = i + 1;
        }
        result
    }
}

} // verus!
