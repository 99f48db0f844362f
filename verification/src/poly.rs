//! Polynomials over GF(2^8), written as coefficient sequences from the highest
//! degree down to the constant term, and the Lagrange interpolation theorem.
use vstd::prelude::*;
use crate::field::{
    gf_div, gf_inv, gf_mul, group_xor, lemma_xor_zero, lemma_xor_commutes, lemma_xor_associates, lemma_inverse, lemma_mul_one, lemma_mul_associates, lemma_mul_commutes, lemma_mul_distributes,
    lemma_mul_zero, lemma_no_zero_divisors, lemma_xor_cancel, lemma_xor_swap,
};

verus! {

broadcast use group_xor;

/// Horner evaluation of `p` at `x`.
pub open spec fn poly_eval(p: Seq<u8>, x: u8) -> u8
    decreases p.len(),
{
    if p.len() == 0 {
        0
    } else {
        gf_mul(poly_eval(p.drop_last(), x), x) ^ p.last()
    }
}

/// The constant term of `p` (zero for the empty polynomial).
pub open spec fn constant_term(p: Seq<u8>) -> u8 {
    if p.len() == 0 { 0 } else { p.last() }
}

/// Coefficient-wise sum of two polynomials of the same length.
pub open spec fn poly_add(p: Seq<u8>, q: Seq<u8>) -> Seq<u8> {
    Seq::new(p.len(), |k: int| p[k] ^ q[k])
}

/// The polynomial `c * p`.
pub open spec fn poly_scale(c: u8, p: Seq<u8>) -> Seq<u8> {
    Seq::new(p.len(), |k: int| gf_mul(c, p[k]))
}

/// `n` zero coefficients.
pub open spec fn zeros(n: nat) -> Seq<u8> {
    Seq::new(n, |k: int| 0u8)
}

/// The polynomial `(alpha * t + beta) * q(t)`.
pub open spec fn mul_linear(q: Seq<u8>, alpha: u8, beta: u8) -> Seq<u8> {
    poly_add(poly_scale(alpha, q.push(0u8)), poly_scale(beta, seq![0u8] + q))
}

/// The values of `p` at each of the points `xs`.
pub open spec fn evaluations(p: Seq<u8>, xs: Seq<u8>) -> Seq<u8> {
    Seq::new(xs.len(), |k: int| poly_eval(p, xs[k]))
}

// ---------------------------------------------------------------------------
// Lagrange interpolation, in the form the library computes it.

/// The product over `j < m` with `xs[j] != xs[i]` of `(t - xs[j]) / (xs[i] - xs[j])`,
/// taken in index order. At `t = 0` each factor is `xs[j] / (xs[j] - xs[i])`.
pub open spec fn lagrange_basis(xs: Seq<u8>, i: int, m: nat, t: u8) -> u8
    decreases m,
{
    if m == 0 {
        1
    } else {
        let j = m - 1;
        let b = lagrange_basis(xs, i, (m - 1) as nat, t);
        if xs[j] != xs[i] {
            gf_mul(b, gf_div(t ^ xs[j], xs[j] ^ xs[i]))
        } else {
            b
        }
    }
}

/// The sum over `i < m` of `basis_i(t) * ys[i]`, taken in index order.
pub open spec fn lagrange_sum(xs: Seq<u8>, ys: Seq<u8>, m: nat, t: u8) -> u8
    decreases m,
{
    if m == 0 {
        0
    } else {
        let i = m - 1;
        lagrange_sum(xs, ys, (m - 1) as nat, t) ^ gf_mul(lagrange_basis(xs, i, xs.len(), t), ys[i])
    }
}

/// The value at `t` of the Lagrange interpolant through the points `(xs[i], ys[i])`.
pub open spec fn interpolate_at(xs: Seq<u8>, ys: Seq<u8>, t: u8) -> u8 {
    lagrange_sum(xs, ys, xs.len(), t)
}

// ---------------------------------------------------------------------------
// Evaluation lemmas

pub proof fn lemma_eval_empty(x: u8)
    ensures poly_eval(Seq::<u8>::empty(), x) == 0,
{
}

/// At zero a polynomial evaluates to its constant term.
pub proof fn lemma_eval_at_zero(p: Seq<u8>)
    ensures poly_eval(p, 0) == constant_term(p),
{
    if p.len() > 0 {
        lemma_mul_zero(poly_eval(p.drop_last(), 0));
        lemma_xor_zero(p.last());
    }
}

pub proof fn lemma_eval_add(p: Seq<u8>, q: Seq<u8>, t: u8)
    requires p.len() == q.len(),
    ensures
        poly_add(p, q).len() == p.len(),
        poly_eval(poly_add(p, q), t) == poly_eval(p, t) ^ poly_eval(q, t),
    decreases p.len(),
{
    if p.len() > 0 {
        lemma_eval_add(p.drop_last(), q.drop_last(), t);
        assert(poly_add(p, q).drop_last() =~= poly_add(p.drop_last(), q.drop_last()));
        let a = poly_eval(p.drop_last(), t);
        let b = poly_eval(q.drop_last(), t);
        lemma_mul_distributes(t, a, b);
        lemma_xor_swap(gf_mul(a, t), gf_mul(b, t), p.last(), q.last());
    }
}

pub proof fn lemma_eval_scale(c: u8, p: Seq<u8>, t: u8)
    ensures
        poly_scale(c, p).len() == p.len(),
        poly_eval(poly_scale(c, p), t) == gf_mul(c, poly_eval(p, t)),
    decreases p.len(),
{
    if p.len() == 0 {
        lemma_mul_zero(c);
    } else {
        lemma_eval_scale(c, p.drop_last(), t);
        assert(poly_scale(c, p).drop_last() =~= poly_scale(c, p.drop_last()));
        let a = poly_eval(p.drop_last(), t);
        lemma_mul_associates(c, a, t);
        lemma_mul_distributes(c, gf_mul(a, t), p.last());
    }
}

pub proof fn lemma_eval_zeros(n: nat, t: u8)
    ensures poly_eval(zeros(n), t) == 0,
    decreases n,
{
    if n > 0 {
        lemma_eval_zeros((n - 1) as nat, t);
        assert(zeros(n).drop_last() =~= zeros((n - 1) as nat));
        lemma_mul_zero(t);
    }
}

/// Leading zero coefficients do not change the value.
pub proof fn lemma_eval_leading_zeros(n: nat, p: Seq<u8>, t: u8)
    ensures poly_eval(zeros(n) + p, t) == poly_eval(p, t),
    decreases p.len(),
{
    if p.len() == 0 {
        assert(zeros(n) + p =~= zeros(n));
        lemma_eval_zeros(n, t);
    } else {
        lemma_eval_leading_zeros(n, p.drop_last(), t);
        assert((zeros(n) + p).drop_last() =~= zeros(n) + p.drop_last());
    }
}

pub proof fn lemma_eval_mul_linear(q: Seq<u8>, alpha: u8, beta: u8, t: u8)
    ensures
        mul_linear(q, alpha, beta).len() == q.len() + 1,
        poly_eval(mul_linear(q, alpha, beta), t) == gf_mul(poly_eval(q, t), gf_mul(alpha, t) ^ beta),
{
    let v = poly_eval(q, t);
    assert(q.push(0u8).drop_last() =~= q);
    lemma_xor_zero(gf_mul(v, t));
    assert(poly_eval(q.push(0u8), t) == gf_mul(v, t));
    assert(seq![0u8] + q =~= zeros(1) + q);
    lemma_eval_leading_zeros(1, q, t);
    lemma_eval_scale(alpha, q.push(0u8), t);
    lemma_eval_scale(beta, seq![0u8] + q, t);
    lemma_eval_add(poly_scale(alpha, q.push(0u8)), poly_scale(beta, seq![0u8] + q), t);
    lemma_mul_distributes(v, gf_mul(alpha, t), beta);
    lemma_mul_associates(alpha, v, t);
    lemma_mul_associates(v, alpha, t);
    lemma_mul_commutes(alpha, v);
    lemma_mul_commutes(beta, v);
}

// ---------------------------------------------------------------------------
// Division by a linear factor and the root bound

/// The quotient of `p` by `(t - a)`, by synthetic division.
pub open spec fn synthetic_quotient(p: Seq<u8>, a: u8) -> Seq<u8>
    decreases p.len(),
{
    if p.len() <= 1 {
        Seq::<u8>::empty()
    } else {
        synthetic_quotient(p.drop_last(), a).push(poly_eval(p.drop_last(), a))
    }
}

/// `p(t) = (t - a) * q(t) + p(a)`.
pub proof fn lemma_synthetic_division(p: Seq<u8>, a: u8, t: u8)
    requires p.len() >= 1,
    ensures
        synthetic_quotient(p, a).len() == p.len() - 1,
        poly_eval(p, t) == gf_mul(t ^ a, poly_eval(synthetic_quotient(p, a), t)) ^ poly_eval(p, a),
    decreases p.len(),
{
    let q = synthetic_quotient(p, a);
    if p.len() == 1 {
        assert(p.drop_last() =~= Seq::<u8>::empty());
        assert(q =~= Seq::<u8>::empty());
        assert(poly_eval(p.drop_last(), t) == 0);
        assert(poly_eval(p.drop_last(), a) == 0);
        assert(poly_eval(q, t) == 0);
        lemma_mul_zero(t);
        lemma_mul_zero(a);
        lemma_mul_zero(t ^ a);
        lemma_xor_zero(p.last());
    } else {
        let p1 = p.drop_last();
        let q1 = synthetic_quotient(p1, a);
        lemma_synthetic_division(p1, a, t);
        assert(q.drop_last() =~= q1);
        let qv = poly_eval(q1, t);
        let e = poly_eval(p1, a);
        let c = p.last();
        let s = t ^ a;
        // q(t) = q1(t) * t + e
        assert(poly_eval(q, t) == gf_mul(qv, t) ^ e);
        // p(t) = p1(t) * t + c, with p1(t) = s * qv + e
        lemma_mul_distributes(t, gf_mul(s, qv), e);
        lemma_mul_distributes(s, gf_mul(qv, t), e);
        lemma_mul_associates(s, qv, t);
        // s * e = t * e + a * e
        lemma_mul_distributes(e, t, a);
        lemma_mul_commutes(t, e);
        lemma_mul_commutes(a, e);
        lemma_mul_commutes(s, e);
        lemma_xor_cancel(gf_mul(a, e), gf_mul(t, e));
        let x = gf_mul(gf_mul(s, qv), t);
        let y = gf_mul(e, t);
        let z = gf_mul(e, a);
        assert(x ^ (y ^ z) ^ (z ^ c) == x ^ y ^ c) by {
            assert(x ^ (y ^ z) ^ (z ^ c) == x ^ y ^ c) by (bit_vector);
        }
    }
}

/// A polynomial with fewer coefficients than it has distinct roots is zero everywhere.
pub proof fn lemma_roots_force_zero(p: Seq<u8>, roots: Seq<u8>, t: u8)
    requires
        roots.no_duplicates(),
        p.len() <= roots.len(),
        forall|k: int| 0 <= k < roots.len() ==> #[trigger] poly_eval(p, roots[k]) == 0,
    ensures
        poly_eval(p, t) == 0,
    decreases roots.len(),
{
    if p.len() > 0 {
        let a = roots.last();
        let q = synthetic_quotient(p, a);
        let rest = roots.drop_last();
        lemma_synthetic_division(p, a, t);
        assert(poly_eval(p, roots[roots.len() - 1]) == 0);
        assert forall|k: int| 0 <= k < rest.len() implies #[trigger] poly_eval(q, rest[k]) == 0 by {
            lemma_synthetic_division(p, a, rest[k]);
            assert(roots[k] == rest[k]);
            assert(poly_eval(p, roots[k]) == 0);
            lemma_xor_zero(gf_mul(rest[k] ^ a, poly_eval(q, rest[k])));
            assert(roots[k] != roots[roots.len() - 1]);
            lemma_xor_cancel(rest[k], a);
            assert(rest[k] != a);
            lemma_no_zero_divisors(rest[k] ^ a, poly_eval(q, rest[k]));
        }
        assert(rest.no_duplicates());
        lemma_roots_force_zero(q, rest, t);
        lemma_mul_zero(t ^ a);
    }
}

// ---------------------------------------------------------------------------
// The interpolant as a polynomial

/// The coefficients of `t |-> lagrange_basis(xs, i, m, t)`.
pub open spec fn basis_poly(xs: Seq<u8>, i: int, m: nat) -> Seq<u8>
    decreases m,
{
    if m == 0 {
        seq![1u8]
    } else {
        let j = m - 1;
        let q = basis_poly(xs, i, (m - 1) as nat);
        if xs[j] != xs[i] {
            let d = gf_inv(xs[j] ^ xs[i]);
            mul_linear(q, d, gf_mul(xs[j], d))
        } else {
            q
        }
    }
}

/// The coefficients of `t |-> lagrange_sum(xs, ys, m, t)`, padded to `xs.len()` terms.
pub open spec fn interp_poly(xs: Seq<u8>, ys: Seq<u8>, m: nat) -> Seq<u8>
    decreases m,
{
    if m == 0 {
        zeros(xs.len())
    } else {
        let i = m - 1;
        poly_add(interp_poly(xs, ys, (m - 1) as nat), poly_scale(ys[i], basis_poly(xs, i, xs.len())))
    }
}

proof fn lemma_basis_poly(xs: Seq<u8>, i: int, m: nat, t: u8)
    requires
        xs.no_duplicates(),
        0 <= i < xs.len(),
        m <= xs.len(),
    ensures
        basis_poly(xs, i, m).len() == if i < m { m as int } else { m + 1int },
        poly_eval(basis_poly(xs, i, m), t) == lagrange_basis(xs, i, m, t),
    decreases m,
{
    if m == 0 {
        assert(seq![1u8].drop_last() =~= Seq::<u8>::empty());
        lemma_eval_empty(t);
        lemma_mul_zero(t);
        lemma_xor_zero(1u8);
    } else {
        let j = m - 1;
        lemma_basis_poly(xs, i, (m - 1) as nat, t);
        let q = basis_poly(xs, i, (m - 1) as nat);
        if xs[j] != xs[i] {
            let d = gf_inv(xs[j] ^ xs[i]);
            lemma_eval_mul_linear(q, d, gf_mul(xs[j], d), t);
            // (t - xs[j]) / (xs[j] - xs[i]) = d * t + xs[j] * d
            lemma_mul_distributes(d, t, xs[j]);
            lemma_mul_commutes(t, d);
        } else {
            assert(j == i);
        }
    }
}

proof fn lemma_interp_poly(xs: Seq<u8>, ys: Seq<u8>, m: nat, t: u8)
    requires
        xs.no_duplicates(),
        m <= xs.len(),
    ensures
        interp_poly(xs, ys, m).len() == xs.len(),
        poly_eval(interp_poly(xs, ys, m), t) == lagrange_sum(xs, ys, m, t),
    decreases m,
{
    if m == 0 {
        lemma_eval_zeros(xs.len(), t);
    } else {
        let i = m - 1;
        let b = basis_poly(xs, i, xs.len());
        lemma_interp_poly(xs, ys, (m - 1) as nat, t);
        lemma_basis_poly(xs, i, xs.len(), t);
        lemma_eval_scale(ys[i], b, t);
        lemma_eval_add(interp_poly(xs, ys, (m - 1) as nat), poly_scale(ys[i], b), t);
        lemma_mul_commutes(ys[i], lagrange_basis(xs, i, xs.len(), t));
    }
}

// ---------------------------------------------------------------------------
// The interpolant at the nodes

/// The basis for node `i` is one at `xs[i]`.
proof fn lemma_basis_at_own_node(xs: Seq<u8>, i: int, m: nat)
    requires
        0 <= i < xs.len(),
        m <= xs.len(),
    ensures
        lagrange_basis(xs, i, m, xs[i]) == 1,
    decreases m,
{
    if m > 0 {
        let j = m - 1;
        lemma_basis_at_own_node(xs, i, (m - 1) as nat);
        if xs[j] != xs[i] {
            let u = xs[j] ^ xs[i];
            lemma_xor_commutes(xs[i], xs[j]);
            lemma_xor_cancel(xs[j], xs[i]);
            lemma_inverse(u);
            lemma_mul_one(gf_div(xs[i] ^ xs[j], u));
        }
    }
}

/// The basis for node `i` vanishes at every other node `xs[k]` with `k < m`.
proof fn lemma_basis_at_other_node(xs: Seq<u8>, i: int, k: int, m: nat)
    requires
        xs.no_duplicates(),
        0 <= i < xs.len(),
        0 <= k < m <= xs.len(),
        i != k,
    ensures
        lagrange_basis(xs, i, m, xs[k]) == 0,
    decreases m,
{
    let j = m - 1;
    let b = lagrange_basis(xs, i, (m - 1) as nat, xs[k]);
    if k == j {
        assert(xs[j] != xs[i]);
        lemma_mul_zero(gf_inv(xs[j] ^ xs[i]));
        lemma_mul_zero(b);
    } else {
        lemma_basis_at_other_node(xs, i, k, (m - 1) as nat);
        lemma_mul_zero(gf_div(xs[k] ^ xs[j], xs[j] ^ xs[i]));
    }
}

proof fn lemma_sum_at_node(xs: Seq<u8>, ys: Seq<u8>, k: int, m: nat)
    requires
        xs.no_duplicates(),
        0 <= k < xs.len(),
        m <= xs.len(),
    ensures
        lagrange_sum(xs, ys, m, xs[k]) == if k < m { ys[k] } else { 0u8 },
    decreases m,
{
    if m > 0 {
        let i = m - 1;
        lemma_sum_at_node(xs, ys, k, (m - 1) as nat);
        let prev = lagrange_sum(xs, ys, (m - 1) as nat, xs[k]);
        if i == k {
            lemma_basis_at_own_node(xs, i, xs.len());
            lemma_mul_one(ys[i]);
            lemma_xor_zero(ys[k]);
        } else {
            lemma_basis_at_other_node(xs, i, k, xs.len());
            lemma_mul_zero(ys[i]);
            lemma_xor_zero(prev);
        }
    }
}

/// Lagrange interpolation is exact: through distinct points `xs`, the interpolant of
/// the values of any polynomial with at most `xs.len()` coefficients is that polynomial,
/// so its value at every `t` is the polynomial's value there.
pub proof fn lemma_interpolation_exact(xs: Seq<u8>, p: Seq<u8>, t: u8)
    requires
        xs.no_duplicates(),
        p.len() <= xs.len(),
    ensures
        interpolate_at(xs, evaluations(p, xs), t) == poly_eval(p, t),
{
    let n = xs.len();
    let ys = evaluations(p, xs);
    let interp = interp_poly(xs, ys, n);
    let padded = zeros((n - p.len()) as nat) + p;
    let r = poly_add(padded, interp);
    lemma_interp_poly(xs, ys, n, t);
    lemma_eval_leading_zeros((n - p.len()) as nat, p, t);
    lemma_eval_add(padded, interp, t);
    assert forall|k: int| 0 <= k < xs.len() implies #[trigger] poly_eval(r, xs[k]) == 0 by {
        lemma_interp_poly(xs, ys, n, xs[k]);
        lemma_sum_at_node(xs, ys, k, n);
        lemma_eval_leading_zeros((n - p.len()) as nat, p, xs[k]);
        lemma_eval_add(padded, interp, xs[k]);
    }
    lemma_roots_force_zero(r, xs, t);
    lemma_xor_cancel(poly_eval(p, t), poly_eval(interp, t));
}

/// Through distinct points there is a polynomial with as many coefficients as points whose
/// value at every `t` is the Lagrange interpolant's.
pub proof fn lemma_interpolant_exists(xs: Seq<u8>, ys: Seq<u8>) -> (p: Seq<u8>)
    requires
        xs.no_duplicates(),
        ys.len() == xs.len(),
    ensures
        p.len() == xs.len(),
        forall|k: int| 0 <= k < xs.len() ==> poly_eval(p, #[trigger] xs[k]) == ys[k],
        forall|t: u8| #[trigger] poly_eval(p, t) == interpolate_at(xs, ys, t),
{
    let p = interp_poly(xs, ys, xs.len());
    lemma_interp_poly(xs, ys, xs.len(), 0);
    assert forall|k: int| 0 <= k < xs.len() implies poly_eval(p, #[trigger] xs[k]) == ys[k] by {
        lemma_interp_poly(xs, ys, xs.len(), xs[k]);
        lemma_sum_at_node(xs, ys, k, xs.len());
    }
    assert forall|t: u8| #[trigger] poly_eval(p, t) == interpolate_at(xs, ys, t) by {
        lemma_interp_poly(xs, ys, xs.len(), t);
    }
    p
}

/// At zero the basis for node `i` is nonzero when every other node is nonzero.
pub proof fn lemma_basis_at_zero_nonzero(xs: Seq<u8>, i: int, m: nat)
    requires
        0 <= i < xs.len(),
        m <= xs.len(),
        forall|j: int| 0 <= j < xs.len() && j != i ==> #[trigger] xs[j] != 0,
    ensures
        lagrange_basis(xs, i, m, 0) != 0,
    decreases m,
{
    if m > 0 {
        let j = m - 1;
        lemma_basis_at_zero_nonzero(xs, i, (m - 1) as nat);
        let b = lagrange_basis(xs, i, (m - 1) as nat, 0);
        if xs[j] != xs[i] {
            let xj = xs[j];
            let u = xj ^ xs[i];
            assert(j != i);
            assert(xj != 0);
            lemma_xor_cancel(xj, xs[i]);
            assert(u != 0);
            lemma_xor_zero(xj);
            assert(0u8 ^ xj == xj);
            let v = gf_inv(u);
            lemma_inverse(u);
            lemma_mul_zero(u);
            assert(v != 0);
            let f = gf_mul(xj, v);
            lemma_no_zero_divisors(xj, v);
            assert(f != 0);
            assert(gf_div(0u8 ^ xj, u) == f);
            lemma_no_zero_divisors(b, f);
            assert(lagrange_basis(xs, i, m, 0) == gf_mul(b, f));
        }
    }
}

/// The interpolant is linear in the values: changing the value at node `i` by `d` changes
/// the value at zero by `basis_i(0) * d`.
pub proof fn lemma_interpolation_shift(xs: Seq<u8>, ys: Seq<u8>, i: int, d: u8)
    requires
        0 <= i < xs.len(),
        ys.len() == xs.len(),
    ensures
        interpolate_at(xs, ys.update(i, ys[i] ^ d), 0) == interpolate_at(xs, ys, 0) ^ gf_mul(
            lagrange_basis(xs, i, xs.len(), 0),
            d,
        ),
{
    lemma_sum_shift(xs, ys, i, d, xs.len());
}

proof fn lemma_sum_shift(xs: Seq<u8>, ys: Seq<u8>, i: int, d: u8, m: nat)
    requires
        0 <= i < xs.len(),
        ys.len() == xs.len(),
        m <= xs.len(),
    ensures
        lagrange_sum(xs, ys.update(i, ys[i] ^ d), m, 0) == lagrange_sum(xs, ys, m, 0) ^ (if i < m {
            gf_mul(lagrange_basis(xs, i, xs.len(), 0), d)
        } else {
            0u8
        }),
    decreases m,
{
    let zs = ys.update(i, ys[i] ^ d);
    let e = gf_mul(lagrange_basis(xs, i, xs.len(), 0), d);
    if m == 0 {
        lemma_xor_zero(0u8);
    } else {
        let k = m - 1;
        lemma_sum_shift(xs, ys, i, d, (m - 1) as nat);
        let bk = lagrange_basis(xs, k, xs.len(), 0);
        let s = lagrange_sum(xs, ys, (m - 1) as nat, 0);
        let sz = lagrange_sum(xs, zs, (m - 1) as nat, 0);
        assert(lagrange_sum(xs, zs, m, 0) == sz ^ gf_mul(bk, zs[k]));
        assert(lagrange_sum(xs, ys, m, 0) == s ^ gf_mul(bk, ys[k]));
        let t = gf_mul(bk, ys[k]);
        if k == i {
            assert(sz == s ^ 0u8);
            lemma_xor_zero(s);
            assert(zs[k] == ys[i] ^ d);
            lemma_mul_distributes(bk, ys[i], d);
            assert(gf_mul(bk, zs[k]) == t ^ e);
            lemma_xor_associates(s, t, e);
        } else {
            assert(zs[k] == ys[k]);
            if i < k {
                assert(sz == s ^ e);
                lemma_xor_associates(s, e, t);
                lemma_xor_associates(s, t, e);
                lemma_xor_commutes(e, t);
            } else {
                assert(sz == s ^ 0u8);
                lemma_xor_zero(s);
                lemma_xor_zero(s ^ t);
            }
        }
    }
}

/// `q` with leading zero coefficients up to `n` coefficients.
pub open spec fn pad_to(q: Seq<u8>, n: nat) -> Seq<u8> {
    zeros((n - q.len()) as nat) + q
}

/// The sum of two polynomials of any lengths, the shorter padded with leading zeros.
pub open spec fn poly_sum(p: Seq<u8>, q: Seq<u8>) -> Seq<u8> {
    let n = if p.len() >= q.len() { p.len() } else { q.len() };
    poly_add(pad_to(p, n), pad_to(q, n))
}

/// Padding keeps the value and the constant term.
pub proof fn lemma_pad_to(q: Seq<u8>, n: nat, t: u8)
    requires
        q.len() <= n,
    ensures
        pad_to(q, n).len() == n,
        poly_eval(pad_to(q, n), t) == poly_eval(q, t),
        constant_term(pad_to(q, n)) == constant_term(q),
{
    lemma_eval_leading_zeros((n - q.len()) as nat, q, t);
    if q.len() > 0 {
        assert(pad_to(q, n).last() == q.last());
    }
}

/// The sum's value is the sum of the values, its constant term the sum of the constant
/// terms, and it is as long as the longer summand.
pub proof fn lemma_poly_sum(p: Seq<u8>, q: Seq<u8>, t: u8)
    ensures
        poly_sum(p, q).len() == if p.len() >= q.len() { p.len() } else { q.len() },
        poly_eval(poly_sum(p, q), t) == poly_eval(p, t) ^ poly_eval(q, t),
        constant_term(poly_sum(p, q)) == constant_term(p) ^ constant_term(q),
{
    let n = if p.len() >= q.len() { p.len() } else { q.len() };
    lemma_pad_to(p, n, t);
    lemma_pad_to(q, n, t);
    lemma_eval_add(pad_to(p, n), pad_to(q, n), t);
    if n == 0 {
        lemma_xor_zero(0u8);
    }
}

} // verus!
