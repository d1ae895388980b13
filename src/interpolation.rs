//! Why Lagrange interpolation is exact: through `n` distinct nodes it gives back
//! every polynomial of fewer than `n` coefficients, everywhere.
use vstd::prelude::*;

use crate::field::{
    gf_add, gf_inv, gf_mul, lemma_add_laws, lemma_identities, lemma_mul_associative,
    lemma_mul_commutative, lemma_mul_distributive, lemma_mul_distributive_left,
    lemma_mul_inverse, lemma_mul_swap_right,
};
use crate::polynomial::{
    basis_prefix, distinct, lagrange, lagrange_prefix, lemma_interpolation_at_nodes, poly_eval,
};

verus! {

proof fn lemma_zero(a: u8)
    ensures
        gf_mul(0, a) == 0,
        gf_mul(a, 0) == 0,
        gf_add(0, a) == a,
        gf_add(a, 0) == a,
{
    lemma_identities(a);
    lemma_mul_commutative(0, a);
    lemma_add_laws(0, a, 0);
}

/// A product is zero only when a factor is.
proof fn lemma_no_zero_divisors(a: u8, b: u8)
    requires
        a != 0,
        gf_mul(a, b) == 0,
    ensures
        b == 0,
{
    lemma_mul_inverse(a);
    lemma_mul_commutative(a, gf_inv(a));
    lemma_mul_associative(gf_inv(a), a, b);
    lemma_identities(b);
    lemma_mul_commutative(1, b);
    lemma_zero(gf_inv(a));
}

/// The quotient of `q` by `x + r`.
pub open spec fn quotient(q: Seq<u8>, r: u8) -> Seq<u8>
    decreases q.len(),
{
    if q.len() <= 1 {
        seq![]
    } else {
        seq![poly_eval(q.drop_first(), r)] + quotient(q.drop_first(), r)
    }
}

/// `q(x) = (x + r) * quotient(q, r)(x) + q(r)`.
proof fn lemma_quotient(q: Seq<u8>, r: u8, x: u8)
    ensures
        quotient(q, r).len() == if q.len() == 0 {
            0
        } else {
            q.len() - 1
        },
        poly_eval(q, x) == gf_add(gf_mul(gf_add(x, r), poly_eval(quotient(q, r), x)), poly_eval(q, r)),
    decreases q.len(),
{
    let u = gf_add(x, r);
    if q.len() == 0 {
        lemma_zero(u);
        lemma_zero(0);
    } else if q.len() == 1 {
        assert(poly_eval(q.drop_first(), x) == 0);
        assert(poly_eval(q.drop_first(), r) == 0);
        assert(quotient(q, r) =~= seq![]);
        assert(poly_eval(quotient(q, r), x) == 0);
        lemma_zero(x);
        lemma_zero(r);
        lemma_zero(u);
        lemma_zero(q[0]);
    } else {
        let q1 = q.drop_first();
        lemma_quotient(q1, r, x);
        let d1 = quotient(q1, r);
        let d = quotient(q, r);
        let a = poly_eval(q1, r);
        assert(d.drop_first() =~= d1);
        let e1 = poly_eval(d1, x);
        let p = gf_mul(gf_mul(u, e1), x);
        let ax = gf_mul(a, x);
        let ar = gf_mul(a, r);
        let q0 = q[0];
        lemma_mul_distributive_left(gf_mul(u, e1), a, x);
        lemma_mul_distributive(u, gf_mul(e1, x), a);
        lemma_mul_associative(u, e1, x);
        lemma_mul_distributive_left(x, r, a);
        lemma_mul_commutative(x, a);
        lemma_mul_commutative(r, a);
        let lhs = poly_eval(q, x);
        let ed = poly_eval(d, x);
        let eq_r = poly_eval(q, r);
        assert(lhs == (p ^ ax) ^ q0);
        assert(gf_mul(u, ed) == p ^ (ax ^ ar));
        assert(eq_r == ar ^ q0);
        assert((p ^ ax) ^ q0 == (p ^ (ax ^ ar)) ^ (ar ^ q0)) by (bit_vector);
    }
}

/// A polynomial of at most `xs.len()` coefficients that vanishes at the distinct
/// nodes `xs` vanishes everywhere.
proof fn lemma_vanishing(q: Seq<u8>, xs: Seq<u8>, x: u8)
    requires
        distinct(xs),
        q.len() <= xs.len(),
        forall|k: int| 0 <= k < xs.len() ==> #[trigger] poly_eval(q, xs[k]) == 0,
    ensures
        poly_eval(q, x) == 0,
    decreases xs.len(),
{
    if q.len() > 0 {
        let n = xs.len() as int;
        let r = xs[n - 1];
        let d = quotient(q, r);
        let ys = xs.take(n - 1);
        assert(poly_eval(q, xs[n - 1]) == 0);
        assert forall|k: int| 0 <= k < ys.len() implies #[trigger] poly_eval(d, ys[k]) == 0 by {
            lemma_quotient(q, r, xs[k]);
            assert(poly_eval(q, xs[k]) == 0);
            let m = gf_mul(gf_add(xs[k], r), poly_eval(d, xs[k]));
            lemma_zero(m);
            lemma_add_laws(xs[k], r, 0);
            lemma_no_zero_divisors(gf_add(xs[k], r), poly_eval(d, xs[k]));
        }
        lemma_quotient(q, r, x);
        lemma_vanishing(d, ys, x);
        lemma_zero(gf_add(x, r));
        lemma_zero(0);
    }
}

/// Coefficient-wise sum.
pub open spec fn poly_sum(a: Seq<u8>, b: Seq<u8>) -> Seq<u8>
    decreases a.len() + b.len(),
{
    if a.len() == 0 {
        b
    } else if b.len() == 0 {
        a
    } else {
        seq![gf_add(a[0], b[0])] + poly_sum(a.drop_first(), b.drop_first())
    }
}

/// Every coefficient multiplied by `s`.
pub open spec fn poly_scale(a: Seq<u8>, s: u8) -> Seq<u8>
    decreases a.len(),
{
    if a.len() == 0 {
        a
    } else {
        seq![gf_mul(a[0], s)] + poly_scale(a.drop_first(), s)
    }
}

/// The product with `x + r`.
pub open spec fn poly_times_linear(a: Seq<u8>, r: u8) -> Seq<u8> {
    poly_sum(seq![0u8] + a, poly_scale(a, r))
}

proof fn lemma_poly_sum(a: Seq<u8>, b: Seq<u8>, x: u8)
    ensures
        poly_sum(a, b).len() == if a.len() >= b.len() {
            a.len()
        } else {
            b.len()
        },
        poly_eval(poly_sum(a, b), x) == gf_add(poly_eval(a, x), poly_eval(b, x)),
    decreases a.len() + b.len(),
{
    if a.len() == 0 {
        lemma_zero(poly_eval(b, x));
    } else if b.len() == 0 {
        lemma_zero(poly_eval(a, x));
    } else {
        let a1 = a.drop_first();
        let b1 = b.drop_first();
        lemma_poly_sum(a1, b1, x);
        let s = poly_sum(a, b);
        assert(s.drop_first() =~= poly_sum(a1, b1));
        let ea = poly_eval(a1, x);
        let eb = poly_eval(b1, x);
        lemma_mul_distributive_left(ea, eb, x);
        let pa = gf_mul(ea, x);
        let pb = gf_mul(eb, x);
        let a0 = a[0];
        let b0 = b[0];
        assert((pa ^ pb) ^ (a0 ^ b0) == (pa ^ a0) ^ (pb ^ b0)) by (bit_vector);
    }
}

proof fn lemma_poly_scale(a: Seq<u8>, s: u8, x: u8)
    ensures
        poly_scale(a, s).len() == a.len(),
        poly_eval(poly_scale(a, s), x) == gf_mul(poly_eval(a, x), s),
    decreases a.len(),
{
    if a.len() == 0 {
        lemma_zero(s);
    } else {
        let a1 = a.drop_first();
        lemma_poly_scale(a1, s, x);
        assert(poly_scale(a, s).drop_first() =~= poly_scale(a1, s));
        let e = poly_eval(a1, x);
        lemma_mul_swap_right(e, s, x);
        lemma_mul_distributive_left(gf_mul(e, x), a[0], s);
    }
}

proof fn lemma_poly_times_linear(a: Seq<u8>, r: u8, x: u8)
    ensures
        poly_times_linear(a, r).len() == a.len() + 1,
        poly_eval(poly_times_linear(a, r), x) == gf_mul(poly_eval(a, x), gf_add(x, r)),
{
    let shifted = seq![0u8] + a;
    assert(shifted.drop_first() =~= a);
    lemma_zero(gf_mul(poly_eval(a, x), x));
    lemma_poly_scale(a, r, x);
    lemma_poly_sum(shifted, poly_scale(a, r), x);
    lemma_mul_distributive(poly_eval(a, x), x, r);
}

/// The coefficients of the `i`-th basis product over the first `n` nodes.
pub open spec fn basis_coefficients(xs: Seq<u8>, i: int, n: int) -> Seq<u8>
    decreases n,
{
    if n <= 0 {
        seq![1u8]
    } else if n - 1 == i {
        basis_coefficients(xs, i, n - 1)
    } else {
        poly_scale(
            poly_times_linear(basis_coefficients(xs, i, n - 1), xs[n - 1]),
            gf_inv(gf_add(xs[i], xs[n - 1])),
        )
    }
}

proof fn lemma_basis_coefficients(xs: Seq<u8>, i: int, n: int, x: u8)
    requires
        0 <= i < xs.len(),
        0 <= n <= xs.len(),
    ensures
        basis_coefficients(xs, i, n).len() == if n > i {
            n
        } else {
            n + 1
        },
        poly_eval(basis_coefficients(xs, i, n), x) == basis_prefix(xs, i, x, n),
    decreases n,
{
    if n <= 0 {
        let one = seq![1u8];
        assert(poly_eval(one.drop_first(), x) == 0);
        lemma_zero(x);
        lemma_zero(1);
        assert(poly_eval(one, x) == 1);
    } else if n - 1 == i {
        lemma_basis_coefficients(xs, i, n - 1, x);
    } else {
        lemma_basis_coefficients(xs, i, n - 1, x);
        let prev = basis_coefficients(xs, i, n - 1);
        let w = gf_inv(gf_add(xs[i], xs[n - 1]));
        lemma_poly_times_linear(prev, xs[n - 1], x);
        lemma_poly_scale(poly_times_linear(prev, xs[n - 1]), w, x);
        lemma_mul_associative(poly_eval(prev, x), gf_add(x, xs[n - 1]), w);
        assert(poly_eval(basis_coefficients(xs, i, n), x) == gf_mul(
            poly_eval(prev, x),
            gf_mul(gf_add(x, xs[n - 1]), w),
        ));
    }
}

/// The coefficients of the first `n` terms of the Lagrange sum.
pub open spec fn lagrange_coefficients(xs: Seq<u8>, ys: Seq<u8>, n: int) -> Seq<u8>
    decreases n,
{
    if n <= 0 {
        seq![]
    } else {
        poly_sum(
            lagrange_coefficients(xs, ys, n - 1),
            poly_scale(basis_coefficients(xs, n - 1, xs.len() as int), ys[n - 1]),
        )
    }
}

proof fn lemma_lagrange_coefficients(xs: Seq<u8>, ys: Seq<u8>, n: int, x: u8)
    requires
        0 <= n <= xs.len(),
        xs.len() == ys.len(),
    ensures
        lagrange_coefficients(xs, ys, n).len() <= xs.len(),
        poly_eval(lagrange_coefficients(xs, ys, n), x) == lagrange_prefix(xs, ys, x, n),
    decreases n,
{
    if n > 0 {
        lemma_lagrange_coefficients(xs, ys, n - 1, x);
        let b = basis_coefficients(xs, n - 1, xs.len() as int);
        lemma_basis_coefficients(xs, n - 1, xs.len() as int, x);
        lemma_poly_scale(b, ys[n - 1], x);
        lemma_poly_sum(lagrange_coefficients(xs, ys, n - 1), poly_scale(b, ys[n - 1]), x);
        lemma_mul_commutative(poly_eval(b, x), ys[n - 1]);
    }
}

/// Interpolation through distinct nodes is exact on every polynomial with no
/// more coefficients than there are nodes: fed the polynomial's values at the
/// nodes, it gives the polynomial's value at any point.
pub proof fn lemma_interpolation_identity(c: Seq<u8>, xs: Seq<u8>, x: u8)
    requires
        distinct(xs),
        c.len() <= xs.len(),
    ensures
        lagrange(xs, Seq::new(xs.len(), |k: int| poly_eval(c, xs[k])), x) == poly_eval(c, x),
{
    let n = xs.len() as int;
    let ys = Seq::new(xs.len(), |k: int| poly_eval(c, xs[k]));
    let l = lagrange_coefficients(xs, ys, n);
    let q = poly_sum(l, c);
    lemma_lagrange_coefficients(xs, ys, n, x);
    lemma_poly_sum(l, c, x);
    assert forall|k: int| 0 <= k < xs.len() implies #[trigger] poly_eval(q, xs[k]) == 0 by {
        lemma_lagrange_coefficients(xs, ys, n, xs[k]);
        lemma_poly_sum(l, c, xs[k]);
        lemma_interpolation_at_nodes(xs, ys, k);
        lemma_add_laws(ys[k], ys[k], 0);
    }
    lemma_vanishing(q, xs, x);
    lemma_add_laws(lagrange(xs, ys, x), poly_eval(c, x), 0);
}

/// Interpolation depends on the points alone, not on the order they come in:
/// listing the same distinct nodes and values in the order `perm` gives the
/// same value at every `x`.
pub proof fn lemma_lagrange_reorder(xs: Seq<u8>, ys: Seq<u8>, perm: Seq<int>, x: u8)
    requires
        distinct(xs),
        xs.len() == ys.len(),
        perm.len() == xs.len(),
        perm.no_duplicates(),
        forall|k: int| 0 <= k < perm.len() ==> 0 <= #[trigger] perm[k] < xs.len(),
    ensures
        lagrange(
            Seq::new(xs.len(), |k: int| xs[perm[k]]),
            Seq::new(xs.len(), |k: int| ys[perm[k]]),
            x,
        ) == lagrange(xs, ys, x),
{
    let n = xs.len() as int;
    let xs2 = Seq::new(xs.len(), |k: int| xs[perm[k]]);
    let ys2 = Seq::new(xs.len(), |k: int| ys[perm[k]]);
    let c = lagrange_coefficients(xs, ys, n);
    lemma_lagrange_coefficients(xs, ys, n, x);
    assert forall|k: int| 0 <= k < n implies #[trigger] poly_eval(c, xs[k]) == ys[k] by {
        lemma_lagrange_coefficients(xs, ys, n, xs[k]);
        lemma_interpolation_at_nodes(xs, ys, k);
    }
    assert(distinct(xs2)) by {
        assert forall|a: int, b: int|
            0 <= a < n && 0 <= b < n && a != b implies xs2[a] != xs2[b] by {
            assert(perm[a] != perm[b]);
        }
    }
    assert(Seq::new(xs.len(), |k: int| poly_eval(c, xs[k])) =~= ys);
    assert forall|k: int| 0 <= k < n implies #[trigger] ys2[k] == poly_eval(c, xs2[k]) by {
        assert(poly_eval(c, xs[perm[k]]) == ys[perm[k]]);
    }
    assert(Seq::new(xs2.len(), |k: int| poly_eval(c, xs2[k])) =~= ys2);
    lemma_interpolation_identity(c, xs, x);
    lemma_interpolation_identity(c, xs2, x);
}

proof fn lemma_eval_at_zero(c: Seq<u8>)
    requires
        c.len() > 0,
    ensures
        poly_eval(c, 0) == c[0],
{
    lemma_zero(poly_eval(c.drop_first(), 0));
    lemma_zero(c[0]);
}

proof fn lemma_eval_zeros(m: nat, x: u8)
    ensures
        poly_eval(Seq::new(m, |i: int| 0u8), x) == 0,
    decreases m,
{
    let z = Seq::new(m, |i: int| 0u8);
    if m > 0 {
        assert(z.drop_first() =~= Seq::new((m - 1) as nat, |i: int| 0u8));
        lemma_eval_zeros((m - 1) as nat, x);
        lemma_zero(x);
        lemma_zero(0);
    }
}

/// Trailing zero coefficients do not change a polynomial's values.
proof fn lemma_eval_padded(c: Seq<u8>, m: nat, x: u8)
    ensures
        poly_eval(c + Seq::new(m, |i: int| 0u8), x) == poly_eval(c, x),
    decreases c.len(),
{
    let z = Seq::new(m, |i: int| 0u8);
    if c.len() == 0 {
        assert(c + z =~= z);
        lemma_eval_zeros(m, x);
    } else {
        assert((c + z).drop_first() =~= c.drop_first() + z);
        lemma_eval_padded(c.drop_first(), m, x);
    }
}

/// A polynomial of at most 256 coefficients that is zero at every point has only
/// zero coefficients.
proof fn lemma_zero_everywhere(q: Seq<u8>)
    requires
        q.len() <= 256,
        forall|x: u8| #[trigger] poly_eval(q, x) == 0,
    ensures
        forall|i: int| 0 <= i < q.len() ==> q[i] == 0,
    decreases q.len(),
{
    if q.len() > 0 {
        let q1 = q.drop_first();
        assert(poly_eval(q, 0) == 0);
        lemma_eval_at_zero(q);
        let nz = Seq::new(255, |i: int| (i + 1) as u8);
        assert(distinct(nz));
        assert forall|k: int| 0 <= k < nz.len() implies #[trigger] poly_eval(q1, nz[k]) == 0 by {
            let x = nz[k];
            assert(poly_eval(q, x) == 0);
            lemma_zero(gf_mul(poly_eval(q1, x), x));
            lemma_mul_commutative(poly_eval(q1, x), x);
            lemma_no_zero_divisors(x, poly_eval(q1, x));
        }
        assert forall|x: u8| #[trigger] poly_eval(q1, x) == 0 by {
            lemma_vanishing(q1, nz, x);
        }
        lemma_zero_everywhere(q1);
        assert forall|i: int| 0 <= i < q.len() implies q[i] == 0 by {
            if i > 0 {
                assert(q[i] == q1[i - 1]);
            }
        }
    }
}

proof fn lemma_poly_sum_coefficients(a: Seq<u8>, b: Seq<u8>)
    requires
        a.len() == b.len(),
    ensures
        poly_sum(a, b).len() == a.len(),
        forall|i: int| 0 <= i < a.len() ==> #[trigger] poly_sum(a, b)[i] == gf_add(a[i], b[i]),
    decreases a.len(),
{
    if a.len() > 0 {
        lemma_poly_sum_coefficients(a.drop_first(), b.drop_first());
        assert forall|i: int| 0 <= i < a.len() implies #[trigger] poly_sum(a, b)[i] == gf_add(
            a[i],
            b[i],
        ) by {
            if i > 0 {
                assert(poly_sum(a, b)[i] == poly_sum(a.drop_first(), b.drop_first())[i - 1]);
            }
        }
    }
}

/// Fewer shares than the threshold say nothing of a secret byte `b`: at distinct
/// non-zero x-coordinates `xs`, with as many random coefficients as there are
/// x-coordinates, every combination `ys` of values comes from exactly one choice
/// of the coefficients, whatever `b` is. Uniformly drawn coefficients thus give
/// uniformly distributed values, independent of the secret.
pub proof fn lemma_threshold_secrecy(b: u8, xs: Seq<u8>, ys: Seq<u8>)
    requires
        distinct(xs),
        forall|k: int| 0 <= k < xs.len() ==> #[trigger] xs[k] != 0,
        ys.len() == xs.len(),
        xs.len() <= 254,
    ensures
        exists|row: Seq<u8>|
            row.len() == xs.len() && forall|k: int|
                0 <= k < xs.len() ==> #[trigger] poly_eval(seq![b] + row, xs[k]) == ys[k],
        forall|r1: Seq<u8>, r2: Seq<u8>|
            r1.len() == xs.len() && r2.len() == xs.len() && (forall|k: int|
                0 <= k < xs.len() ==> #[trigger] poly_eval(seq![b] + r1, xs[k]) == ys[k]) && (
            forall|k: int| 0 <= k < xs.len() ==> #[trigger] poly_eval(seq![b] + r2, xs[k]) == ys[k])
                ==> r1 == r2,
{
    let n = xs.len() as int;
    let nodes = seq![0u8] + xs;
    let vals = seq![b] + ys;
    assert(distinct(nodes)) by {
        assert forall|i: int, j: int|
            0 <= i < n + 1 && 0 <= j < n + 1 && i != j implies nodes[i] != nodes[j] by {
            if i > 0 {
                assert(nodes[i] == xs[i - 1]);
            }
            if j > 0 {
                assert(nodes[j] == xs[j - 1]);
            }
        }
    }
    // Existence: the interpolating polynomial, padded to `n + 1` coefficients.
    let l = lagrange_coefficients(nodes, vals, n + 1);
    lemma_lagrange_coefficients(nodes, vals, n + 1, 0);
    let m = (n + 1 - l.len()) as nat;
    let c = l + Seq::new(m, |i: int| 0u8);
    assert forall|k: int| 0 <= k < n + 1 implies #[trigger] poly_eval(c, nodes[k]) == vals[k] by {
        lemma_eval_padded(l, m, nodes[k]);
        lemma_lagrange_coefficients(nodes, vals, n + 1, nodes[k]);
        lemma_interpolation_at_nodes(nodes, vals, k);
    }
    assert(poly_eval(c, nodes[0]) == vals[0]);
    lemma_eval_at_zero(c);
    let row = c.drop_first();
    assert(seq![b] + row =~= c);
    assert forall|k: int| 0 <= k < n implies #[trigger] poly_eval(seq![b] + row, xs[k]) == ys[k] by {
        assert(poly_eval(c, nodes[k + 1]) == vals[k + 1]);
    }
    // Uniqueness: two choices differ by a polynomial that vanishes everywhere.
    assert forall|r1: Seq<u8>, r2: Seq<u8>|
        r1.len() == n && r2.len() == n && (forall|k: int|
            0 <= k < n ==> #[trigger] poly_eval(seq![b] + r1, xs[k]) == ys[k]) && (forall|k: int|
            0 <= k < n ==> #[trigger] poly_eval(seq![b] + r2, xs[k]) == ys[k]) implies r1 == r2 by {
        let c1 = seq![b] + r1;
        let c2 = seq![b] + r2;
        let q = poly_sum(c1, c2);
        lemma_poly_sum_coefficients(c1, c2);
        assert forall|k: int| 0 <= k < n + 1 implies #[trigger] poly_eval(q, nodes[k]) == 0 by {
            lemma_poly_sum(c1, c2, nodes[k]);
            if k == 0 {
                lemma_eval_at_zero(c1);
                lemma_eval_at_zero(c2);
            } else {
                assert(nodes[k] == xs[k - 1]);
                assert(poly_eval(c1, xs[k - 1]) == ys[k - 1]);
                assert(poly_eval(c2, xs[k - 1]) == ys[k - 1]);
            }
            lemma_add_laws(poly_eval(c1, nodes[k]), poly_eval(c2, nodes[k]), 0);
        }
        assert forall|x: u8| #[trigger] poly_eval(q, x) == 0 by {
            lemma_vanishing(q, nodes, x);
        }
        lemma_zero_everywhere(q);
        assert forall|i: int| 0 <= i < n implies r1[i] == r2[i] by {
            assert(q[i + 1] == 0);
            lemma_add_laws(c1[i + 1], c2[i + 1], 0);
        }
        assert(r1 =~= r2);
    }
}

} // verus!
