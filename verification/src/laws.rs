//! Properties of the library as a whole: recovery of a dealt secret, and what renewal
//! does to the polynomials behind a share.
use vstd::prelude::*;
use crate::field::{
    gf_mul, group_xor, lemma_no_zero_divisors, lemma_xor_associates, lemma_xor_cancel,
    lemma_xor_commutes, lemma_xor_zero,
    GF256,
};
use crate::math::{
    conflicting, distinct_shares, interpolate_shares, lemma_distinct_shares, lemma_distinct_shares_of_distinct,
    same_length, share_column, share_of, share_xs,
};
use crate::poly::{
    constant_term, evaluations, lemma_eval_at_zero,
    lemma_basis_at_zero_nonzero, lemma_interpolant_exists, lemma_interpolation_exact,
    lemma_interpolation_shift, lemma_poly_sum, lagrange_basis, poly_eval, poly_sum,
};
use crate::share::{add_renewals, lemma_add_renewals_len, lemma_field_bytes_injective, Share};
use crate::{dealt_for, poly_len, recover_result};

verus! {

broadcast use group_xor;

/// Shares at distinct points of polynomials that each have at most as many coefficients
/// as there are shares interpolate to the polynomials' constant terms.
proof fn lemma_distinct_points_interpolate(shares: Seq<Share>, polys: Seq<Seq<u8>>, secret: Seq<u8>)
    requires
        shares.len() > 0,
        share_xs(shares).no_duplicates(),
        forall|i: int| 0 <= i < shares.len() ==> share_of(#[trigger] shares[i], polys),
        polys.len() == secret.len(),
        forall|b: int| 0 <= b < polys.len() ==> (#[trigger] polys[b]).len() <= shares.len(),
        forall|b: int| 0 <= b < polys.len() ==> constant_term(#[trigger] polys[b]) == secret[b],
    ensures
        same_length(shares),
        interpolate_shares(shares) == secret,
{
    let xs = share_xs(shares);
    assert forall|i: int| 0 <= i < shares.len() implies #[trigger] shares[i].y@.len() == shares[0].y@.len() by {
        assert(share_of(shares[i], polys));
        assert(share_of(shares[0], polys));
        assert(shares[i].y_bytes().len() == shares[i].y@.len());
        assert(shares[0].y_bytes().len() == shares[0].y@.len());
    }
    assert(share_of(shares[0], polys));
    assert(shares[0].y_bytes().len() == shares[0].y@.len());
    assert(shares[0].y@.len() == polys.len());
    assert forall|b: int| 0 <= b < polys.len() implies #[trigger] interpolate_shares(shares)[b] == secret[b] by {
        assert(share_column(shares, b) =~= evaluations(polys[b], xs)) by {
            assert forall|i: int| 0 <= i < shares.len() implies #[trigger] share_column(shares, b)[i]
                == evaluations(polys[b], xs)[i] by {
                assert(share_of(shares[i], polys));
                assert(shares[i].y_bytes().len() == shares[i].y@.len());
                assert(shares[i].y_bytes()[b] == shares[i].y@[b].0);
            }
        }
        lemma_interpolation_exact(xs, polys[b], 0);
        lemma_eval_at_zero(polys[b]);
    }
    assert(share_of(shares[0], polys));
    assert(shares[0].y_bytes().len() == shares[0].y@.len());
    assert(interpolate_shares(shares) =~= secret);
}

/// Recovery is exact: shares of polynomials, clones and repeated points included, whose
/// distinct points are at least as many as each polynomial's coefficients, recover the
/// polynomials' constant terms from one share per distinct point. When there are at least
/// `threshold` distinct points, `Sharks(threshold).recover` accepts the shares and returns
/// exactly that.
pub proof fn lemma_recover_yields_secret(
    threshold: u8,
    shares: Seq<Share>,
    polys: Seq<Seq<u8>>,
    secret: Seq<u8>,
)
    requires
        shares.len() > 0,
        share_xs(shares).to_set().len() >= threshold,
        forall|i: int| 0 <= i < shares.len() ==> share_of(#[trigger] shares[i], polys),
        polys.len() == secret.len(),
        forall|b: int| 0 <= b < polys.len() ==> (#[trigger] polys[b]).len() <= share_xs(shares).to_set().len(),
        forall|b: int| 0 <= b < polys.len() ==> constant_term(#[trigger] polys[b]) == secret[b],
    ensures
        same_length(shares),
        !conflicting(shares),
        share_xs(shares).to_set().len() >= threshold,
        interpolate_shares(distinct_shares(shares)) == secret,
        recover_result(threshold, shares) == Ok::<Seq<u8>, Seq<char>>(secret),
{
    let ds = distinct_shares(shares);
    assert forall|i: int, j: int| 0 <= i < shares.len() && 0 <= j < shares.len() && (#[trigger] shares[i]).x
        == (#[trigger] shares[j]).x implies shares[i].y@ == shares[j].y@ by {
        assert(share_of(shares[i], polys));
        assert(share_of(shares[j], polys));
        lemma_field_bytes_injective(shares[i].y@, shares[j].y@);
    }
    lemma_distinct_shares(shares);
    assert forall|k: int| 0 <= k < ds.len() implies share_of(#[trigger] ds[k], polys) by {
        assert(shares.contains(ds[k]));
        let i = choose|i: int| 0 <= i < shares.len() && shares[i] == ds[k];
        assert(share_of(shares[i], polys));
    }
    lemma_distinct_points_interpolate(ds, polys, secret);
    assert(share_of(shares[0], polys));
    assert(shares[0].y_bytes().len() == shares[0].y@.len());
    assert forall|i: int| 0 <= i < shares.len() implies #[trigger] shares[i].y@.len() == shares[0].y@.len() by {
        assert(share_of(shares[i], polys));
        assert(shares[i].y_bytes().len() == shares[i].y@.len());
    }
}

/// A nonempty sequence has at least one distinct point.
proof fn lemma_some_point(shares: Seq<Share>)
    requires
        shares.len() > 0,
    ensures
        share_xs(shares).to_set().len() >= 1,
{
    let xs = share_xs(shares);
    vstd::seq_lib::seq_to_set_is_finite(xs);
    assert(xs.to_set().contains(xs[0]));
    if xs.to_set().len() == 0 {
        assert(xs.to_set() =~= Set::<u8>::empty());
    }
}

/// Shares of a dealt secret recover it: if `polys` were dealt for `secret` with threshold
/// `k`, any nonempty collection of their shares, clones included, with at least `k`
/// distinct points recovers `secret`.
pub proof fn lemma_dealt_shares_recover(k: u8, shares: Seq<Share>, polys: Seq<Seq<u8>>, secret: Seq<u8>)
    requires
        dealt_for(polys, secret, k),
        shares.len() > 0,
        share_xs(shares).to_set().len() >= k,
        forall|i: int| 0 <= i < shares.len() ==> share_of(#[trigger] shares[i], polys),
    ensures
        same_length(shares),
        interpolate_shares(distinct_shares(shares)) == secret,
        recover_result(k, shares) == Ok::<Seq<u8>, Seq<char>>(secret),
{
    lemma_some_point(shares);
    assert forall|b: int| 0 <= b < polys.len() implies (#[trigger] polys[b]).len() <= share_xs(shares).to_set().len() by {
        assert(polys[b].len() == poly_len(k));
    }
    lemma_recover_yields_secret(k, shares, polys, secret);
}

/// Dealing then recovering gives the secret back: the shares that an evaluator of polynomials
/// dealt for `secret` with threshold `k` hands out in a row (at `x = start, start + 1, ...`),
/// at least `k` and at least one of them, recover `secret`.
pub proof fn lemma_dealt_run_recovers(k: u8, start: nat, shares: Seq<Share>, polys: Seq<Seq<u8>>, secret: Seq<u8>)
    requires
        dealt_for(polys, secret, k),
        shares.len() > 0,
        shares.len() >= k,
        forall|i: int| 0 <= i < shares.len() ==> {
            &&& (#[trigger] shares[i]).x.0 == start + i
            &&& share_of(shares[i], polys)
        },
    ensures
        same_length(shares),
        share_xs(shares).to_set().len() >= k,
        interpolate_shares(distinct_shares(shares)) == secret,
        recover_result(k, shares) == Ok::<Seq<u8>, Seq<char>>(secret),
{
    let xs = share_xs(shares);
    assert forall|a: int, b: int| 0 <= a < xs.len() && 0 <= b < xs.len() && a != b implies xs[a] != xs[b] by {
        assert(shares[a].x.0 == start + a);
        assert(shares[b].x.0 == start + b);
    }
    xs.unique_seq_to_set();
    lemma_dealt_shares_recover(k, shares, polys, secret);
}

/// The polynomials `polys` plus, term by term, the first `m` of the lists `qs`.
pub open spec fn renewed_polys(polys: Seq<Seq<u8>>, qs: Seq<Seq<Seq<u8>>>, m: nat) -> Seq<Seq<u8>>
    decreases m,
{
    if m == 0 {
        polys
    } else {
        let prev = renewed_polys(polys, qs, (m - 1) as nat);
        Seq::new(polys.len(), |b: int| poly_sum(prev[b], qs[m - 1][b]))
    }
}

/// Whether `qs` are lists of renewal polynomials for `count` bytes: one polynomial per
/// byte, each with at most `bound` coefficients and constant term zero.
pub open spec fn renewal_polys_for(qs: Seq<Seq<Seq<u8>>>, count: nat, bound: nat) -> bool {
    forall|j: int| 0 <= j < qs.len() ==> {
        &&& (#[trigger] qs[j]).len() == count
        &&& forall|b: int| 0 <= b < count ==> {
            &&& (#[trigger] qs[j][b]).len() <= bound
            &&& constant_term(qs[j][b]) == 0
        }
    }
}

/// Renewal adds polynomials: renewing a share of `polys` with renewal shares, at the same
/// point, of the polynomial lists `qs[j]` (of any lengths) gives a share of the term-by-term
/// sums. When all the polynomials have at most `bound` coefficients, so do the sums; when
/// the renewal polynomials have constant term zero, the sums keep the constant terms.
pub proof fn lemma_renewal_adds_polynomials(
    share: Share,
    renewals: Seq<Share>,
    polys: Seq<Seq<u8>>,
    qs: Seq<Seq<Seq<u8>>>,
    bound: nat,
)
    requires
        share_of(share, polys),
        qs.len() == renewals.len(),
        forall|j: int| 0 <= j < renewals.len() ==> {
            &&& (#[trigger] renewals[j]).x == share.x
            &&& share_of(renewals[j], qs[j])
            &&& qs[j].len() == polys.len()
        },
    ensures
        ({
            let sums = renewed_polys(polys, qs, renewals.len());
            &&& sums.len() == polys.len()
            &&& add_renewals(share.y_bytes(), renewals, renewals.len()) == Seq::new(
                polys.len(),
                |b: int| poly_eval(sums[b], share.x.0),
            )
            &&& (forall|b: int| 0 <= b < polys.len() ==> (#[trigger] polys[b]).len() <= bound)
                && (forall|j: int, b: int| 0 <= j < qs.len() && 0 <= b < polys.len()
                ==> (#[trigger] qs[j][b]).len() <= bound)
                ==> forall|b: int| 0 <= b < polys.len() ==> (#[trigger] sums[b]).len() <= bound
            &&& (forall|j: int, b: int| 0 <= j < qs.len() && 0 <= b < polys.len()
                ==> constant_term(#[trigger] qs[j][b]) == 0)
                ==> forall|b: int| 0 <= b < polys.len() ==> constant_term(#[trigger] sums[b])
                == constant_term(polys[b])
        }),
{
    lemma_renewal_prefix(share, renewals, polys, qs, renewals.len());
    lemma_renewal_sums_shape(polys, qs, qs.len(), bound);
}

proof fn lemma_renewal_prefix(
    share: Share,
    renewals: Seq<Share>,
    polys: Seq<Seq<u8>>,
    qs: Seq<Seq<Seq<u8>>>,
    m: nat,
)
    requires
        share_of(share, polys),
        m <= renewals.len(),
        qs.len() == renewals.len(),
        forall|j: int| 0 <= j < renewals.len() ==> {
            &&& (#[trigger] renewals[j]).x == share.x
            &&& share_of(renewals[j], qs[j])
            &&& qs[j].len() == polys.len()
        },
    ensures
        renewed_polys(polys, qs, m).len() == polys.len(),
        add_renewals(share.y_bytes(), renewals, m) == Seq::new(
            polys.len(),
            |b: int| poly_eval(renewed_polys(polys, qs, m)[b], share.x.0),
        ),
    decreases m,
{
    if m > 0 {
        let j = m - 1;
        lemma_renewal_prefix(share, renewals, polys, qs, (m - 1) as nat);
        let prev = renewed_polys(polys, qs, (m - 1) as nat);
        let sums = renewed_polys(polys, qs, m);
        let x = share.x.0;
        let r = renewals[j];
        assert(r.x == share.x);
        assert(share_of(r, qs[j]));
        lemma_add_renewals_len(share.y_bytes(), renewals, (m - 1) as nat);
        assert(add_renewals(share.y_bytes(), renewals, m) =~= Seq::new(
            polys.len(),
            |b: int| poly_eval(sums[b], x),
        )) by {
            assert forall|b: int| 0 <= b < polys.len() implies #[trigger] add_renewals(share.y_bytes(), renewals, m)[b]
                == poly_eval(sums[b], x) by {
                lemma_poly_sum(prev[b], qs[j][b], x);
                assert(qs[j].len() == polys.len());
                assert(r.y_bytes()[b] == poly_eval(qs[j][b], x));
            }
        }
    }
}

/// The renewed polynomials stay within `bound` coefficients when every summand does, and
/// keep the constant terms when the renewal polynomials have constant term zero.
proof fn lemma_renewal_sums_shape(polys: Seq<Seq<u8>>, qs: Seq<Seq<Seq<u8>>>, m: nat, bound: nat)
    requires
        m <= qs.len(),
    ensures
        renewed_polys(polys, qs, m).len() == polys.len(),
        (forall|b: int| 0 <= b < polys.len() ==> (#[trigger] polys[b]).len() <= bound)
            && (forall|j: int, b: int| 0 <= j < qs.len() && 0 <= b < polys.len()
            ==> (#[trigger] qs[j][b]).len() <= bound)
            ==> forall|b: int| 0 <= b < polys.len() ==> (#[trigger] renewed_polys(polys, qs, m)[b]).len() <= bound,
        (forall|j: int, b: int| 0 <= j < qs.len() && 0 <= b < polys.len()
            ==> constant_term(#[trigger] qs[j][b]) == 0)
            ==> forall|b: int| 0 <= b < polys.len() ==> constant_term(#[trigger] renewed_polys(polys, qs, m)[b])
            == constant_term(polys[b]),
    decreases m,
{
    if m > 0 {
        let j = m - 1;
        lemma_renewal_sums_shape(polys, qs, (m - 1) as nat, bound);
        let prev = renewed_polys(polys, qs, (m - 1) as nat);
        let sums = renewed_polys(polys, qs, m);
        assert forall|b: int| 0 <= b < polys.len() implies {
            &&& (#[trigger] sums[b]).len() == if prev[b].len() >= qs[j][b].len() { prev[b].len() } else { qs[j][b].len() }
            &&& constant_term(sums[b]) == constant_term(prev[b]) ^ constant_term(qs[j][b])
        } by {
            lemma_poly_sum(prev[b], qs[j][b], 0);
        }
        if (forall|b: int| 0 <= b < polys.len() ==> (#[trigger] polys[b]).len() <= bound)
            && (forall|jj: int, b: int| 0 <= jj < qs.len() && 0 <= b < polys.len()
            ==> (#[trigger] qs[jj][b]).len() <= bound) {
            assert forall|b: int| 0 <= b < polys.len() implies (#[trigger] sums[b]).len() <= bound by {
                assert(qs[j][b].len() <= bound);
                assert(prev[b].len() <= bound);
            }
        }
        if forall|jj: int, b: int| 0 <= jj < qs.len() && 0 <= b < polys.len()
            ==> constant_term(#[trigger] qs[jj][b]) == 0 {
            assert forall|b: int| 0 <= b < polys.len() implies constant_term(#[trigger] sums[b])
                == constant_term(polys[b]) by {
                assert(constant_term(qs[j][b]) == 0);
                lemma_xor_zero(constant_term(prev[b]));
            }
        }
    }
}

/// Whether `new_shares` are `old_shares` renewed in one round: every player renews its share,
/// at its own point, with one renewal share from each of the renewal polynomial lists `qs`.
pub open spec fn renewal_round(
    old_shares: Seq<Share>,
    new_shares: Seq<Share>,
    renewals: Seq<Seq<Share>>,
    qs: Seq<Seq<Seq<u8>>>,
) -> bool {
    &&& new_shares.len() == old_shares.len()
    &&& renewals.len() == old_shares.len()
    &&& forall|i: int| 0 <= i < old_shares.len() ==> {
        &&& (#[trigger] new_shares[i]).x == old_shares[i].x
        &&& renewals[i].len() == qs.len()
        &&& new_shares[i].y_bytes() == add_renewals(old_shares[i].y_bytes(), renewals[i], qs.len())
    }
    &&& forall|i: int, j: int| 0 <= i < old_shares.len() && 0 <= j < qs.len() ==> {
        &&& (#[trigger] renewals[i][j]).x == old_shares[i].x
        &&& share_of(renewals[i][j], qs[j])
    }
}

/// A renewal round turns shares of `polys` into shares, at the same points, of the renewed
/// polynomials, which keep the constant terms and stay within `bound` coefficients when
/// `polys` and the renewal polynomials do. Rounds chain.
pub proof fn lemma_renewal_round(
    old_shares: Seq<Share>,
    new_shares: Seq<Share>,
    renewals: Seq<Seq<Share>>,
    polys: Seq<Seq<u8>>,
    qs: Seq<Seq<Seq<u8>>>,
    bound: nat,
)
    requires
        forall|i: int| 0 <= i < old_shares.len() ==> share_of(#[trigger] old_shares[i], polys),
        forall|b: int| 0 <= b < polys.len() ==> (#[trigger] polys[b]).len() <= bound,
        renewal_round(old_shares, new_shares, renewals, qs),
        renewal_polys_for(qs, polys.len(), bound),
    ensures
        ({
            let sums = renewed_polys(polys, qs, qs.len());
            &&& sums.len() == polys.len()
            &&& forall|b: int| 0 <= b < polys.len() ==> {
                &&& (#[trigger] sums[b]).len() <= bound
                &&& constant_term(sums[b]) == constant_term(polys[b])
            }
            &&& forall|i: int| 0 <= i < new_shares.len() ==> share_of(#[trigger] new_shares[i], sums)
            &&& share_xs(new_shares) == share_xs(old_shares)
        }),
{
    let m = qs.len();
    let sums = renewed_polys(polys, qs, m);
    assert forall|i: int| 0 <= i < new_shares.len() implies share_of(#[trigger] new_shares[i], sums) by {
        let old = old_shares[i];
        assert(share_of(old, polys));
        assert(new_shares[i].x == old.x);
        assert forall|j: int| 0 <= j < renewals[i].len() implies {
            &&& (#[trigger] renewals[i][j]).x == old.x
            &&& share_of(renewals[i][j], qs[j])
            &&& qs[j].len() == polys.len()
        } by {
            assert(renewals[i][j].x == old_shares[i].x);
        }
        lemma_renewal_prefix(old, renewals[i], polys, qs, m);
    }
    assert(share_xs(new_shares) =~= share_xs(old_shares)) by {
        assert forall|i: int| 0 <= i < new_shares.len() implies #[trigger] share_xs(new_shares)[i] == share_xs(old_shares)[i] by {
            assert(new_shares[i].x == old_shares[i].x);
        }
    }
    assert forall|j: int, b: int| 0 <= j < qs.len() && 0 <= b < polys.len() implies {
        &&& (#[trigger] qs[j][b]).len() <= bound
        &&& constant_term(qs[j][b]) == 0
    } by {
        assert(qs[j].len() == polys.len());
    }
    lemma_renewal_sums_shape(polys, qs, m, bound);
}

/// Proactive renewal keeps the secret over any number of rounds: shares of polynomials
/// dealt for `secret`, renewed round after round with renewal polynomials of constant term
/// zero, all polynomials with at most `bound` coefficients and at least `bound` distinct
/// points, still recover `secret`.
pub proof fn lemma_renewal_rounds_keep_secret(
    threshold: u8,
    states: Seq<Seq<Share>>,
    renewals: Seq<Seq<Seq<Share>>>,
    qss: Seq<Seq<Seq<Seq<u8>>>>,
    polys: Seq<Seq<u8>>,
    secret: Seq<u8>,
    bound: nat,
)
    requires
        states.len() == renewals.len() + 1,
        qss.len() == renewals.len(),
        states[0].len() > 0,
        share_xs(states[0]).to_set().len() >= threshold,
        share_xs(states[0]).to_set().len() >= bound,
        forall|i: int| 0 <= i < states[0].len() ==> share_of(#[trigger] states[0][i], polys),
        polys.len() == secret.len(),
        forall|b: int| 0 <= b < polys.len() ==> (#[trigger] polys[b]).len() <= bound,
        forall|b: int| 0 <= b < polys.len() ==> constant_term(#[trigger] polys[b]) == secret[b],
        forall|r: int| 0 <= r < renewals.len() ==> {
            &&& renewal_round(states[r], #[trigger] states[r + 1], renewals[r], qss[r])
            &&& renewal_polys_for(qss[r], polys.len(), bound)
        },
    ensures
        recover_result(threshold, states[renewals.len() as int]) == Ok::<Seq<u8>, Seq<char>>(secret),
        interpolate_shares(distinct_shares(states[renewals.len() as int])) == secret,
{
    let last = renewals.len();
    let p = lemma_rounds_prefix(states, renewals, qss, polys, bound, last);
    assert(share_xs(states[last as int]).len() == share_xs(states[0]).len());
    lemma_recover_yields_secret(threshold, states[last as int], p, secret);
}

/// After `r` rounds the shares are shares, at the original points, of polynomials within
/// `bound` coefficients with the original constant terms.
proof fn lemma_rounds_prefix(
    states: Seq<Seq<Share>>,
    renewals: Seq<Seq<Seq<Share>>>,
    qss: Seq<Seq<Seq<Seq<u8>>>>,
    polys: Seq<Seq<u8>>,
    bound: nat,
    r: nat,
) -> (p: Seq<Seq<u8>>)
    requires
        r <= renewals.len(),
        states.len() == renewals.len() + 1,
        qss.len() == renewals.len(),
        forall|i: int| 0 <= i < states[0].len() ==> share_of(#[trigger] states[0][i], polys),
        forall|b: int| 0 <= b < polys.len() ==> (#[trigger] polys[b]).len() <= bound,
        forall|k: int| 0 <= k < renewals.len() ==> {
            &&& renewal_round(states[k], #[trigger] states[k + 1], renewals[k], qss[k])
            &&& renewal_polys_for(qss[k], polys.len(), bound)
        },
    ensures
        p.len() == polys.len(),
        forall|b: int| 0 <= b < polys.len() ==> {
            &&& (#[trigger] p[b]).len() <= bound
            &&& constant_term(p[b]) == constant_term(polys[b])
        },
        forall|i: int| 0 <= i < states[r as int].len() ==> share_of(#[trigger] states[r as int][i], p),
        share_xs(states[r as int]) == share_xs(states[0]),
    decreases r,
{
    if r == 0 {
        polys
    } else {
        let k = r - 1;
        let prev = lemma_rounds_prefix(states, renewals, qss, polys, bound, (r - 1) as nat);
        assert(renewal_round(states[k], states[k + 1], renewals[k], qss[k]));
        assert(renewal_polys_for(qss[k], polys.len(), bound));
        lemma_renewal_round(states[k], states[k + 1], renewals[k], prev, qss[k], bound);
        let sums = renewed_polys(prev, qss[k], qss[k].len());
        assert forall|b: int| 0 <= b < polys.len() implies {
            &&& (#[trigger] sums[b]).len() <= bound
            &&& constant_term(sums[b]) == constant_term(polys[b])
        } by {
            assert(constant_term(prev[b]) == constant_term(polys[b]));
        }
        sums
    }
}

/// Whether one of `shares` is at `x` with values `ys`.
pub open spec fn has_point(shares: Seq<Share>, x: u8, ys: Seq<GF256>) -> bool {
    exists|i: int| 0 <= i < shares.len() && (#[trigger] shares[i]).x.0 == x && shares[i].y@ == ys
}

/// Recovery depends only on the points given: two nonempty collections of shares that hold
/// the same points (in any order, with any clones), where equal `x` means equal values,
/// have the same distinct points and recover the same secret.
pub proof fn lemma_recovery_depends_only_on_points(a: Seq<Share>, b: Seq<Share>)
    requires
        a.len() > 0,
        b.len() > 0,
        same_length(a),
        forall|i: int, j: int| 0 <= i < a.len() && 0 <= j < a.len() && (#[trigger] a[i]).x == (#[trigger] a[j]).x
            ==> a[i].y@ == a[j].y@,
        forall|i: int| 0 <= i < b.len() ==> has_point(a, (#[trigger] b[i]).x.0, b[i].y@),
        forall|i: int| 0 <= i < a.len() ==> has_point(b, (#[trigger] a[i]).x.0, a[i].y@),
    ensures
        share_xs(a).to_set() == share_xs(b).to_set(),
        same_length(b),
        interpolate_shares(distinct_shares(a)) == interpolate_shares(distinct_shares(b)),
{
    let xa = share_xs(a);
    let xb = share_xs(b);
    assert forall|x: u8| xa.to_set().contains(x) implies xb.to_set().contains(x) by {
        let i = choose|i: int| 0 <= i < xa.len() && xa[i] == x;
        assert(has_point(b, a[i].x.0, a[i].y@));
        let j = choose|j: int| 0 <= j < b.len() && (#[trigger] b[j]).x.0 == a[i].x.0 && b[j].y@ == a[i].y@;
        assert(xb[j] == x);
    }
    assert forall|x: u8| xb.to_set().contains(x) implies xa.to_set().contains(x) by {
        let i = choose|i: int| 0 <= i < xb.len() && xb[i] == x;
        assert(has_point(a, b[i].x.0, b[i].y@));
        let j = choose|j: int| 0 <= j < a.len() && (#[trigger] a[j]).x.0 == b[i].x.0 && a[j].y@ == b[i].y@;
        assert(xa[j] == x);
    }
    assert(xa.to_set() =~= xb.to_set());
    // every share of `b` carries the values of a share of `a`
    assert forall|i: int| 0 <= i < b.len() implies #[trigger] b[i].y@.len() == a[0].y@.len() by {
        assert(has_point(a, b[i].x.0, b[i].y@));
        let j = choose|j: int| 0 <= j < a.len() && (#[trigger] a[j]).x.0 == b[i].x.0 && a[j].y@ == b[i].y@;
        assert(a[j].y@.len() == a[0].y@.len());
    }
    assert(same_length(b));
    let da = distinct_shares(a);
    let db = distinct_shares(b);
    lemma_distinct_shares(a);
    lemma_distinct_shares(b);
    let n = da.len();
    assert(db.len() == n);
    let len = a[0].y@.len();
    assert(da[0] == a[0]);
    assert(db[0] == b[0]);
    assert(interpolate_shares(da).len() == len);
    assert(interpolate_shares(db).len() == len);
    assert forall|c: int| 0 <= c < len implies #[trigger] interpolate_shares(da)[c] == interpolate_shares(db)[c] by {
        let xsa = share_xs(da);
        let ysa = share_column(da, c);
        let xsb = share_xs(db);
        let p = lemma_interpolant_exists(xsa, ysa);
        assert(share_column(db, c) =~= evaluations(p, xsb)) by {
            assert forall|k: int| 0 <= k < db.len() implies #[trigger] share_column(db, c)[k] == evaluations(p, xsb)[k] by {
                assert(b.contains(db[k]));
                let ib = choose|ib: int| 0 <= ib < b.len() && b[ib] == db[k];
                assert(has_point(a, b[ib].x.0, b[ib].y@));
                let ia = choose|ia: int| 0 <= ia < a.len() && (#[trigger] a[ia]).x.0 == b[ib].x.0 && a[ia].y@ == b[ib].y@;
                assert(xa.to_set().contains(xa[ia]));
                assert(xsa.to_set().contains(xa[ia]));
                let m = choose|m: int| 0 <= m < xsa.len() && xsa[m] == xa[ia];
                assert(a.contains(da[m]));
                let ja = choose|ja: int| 0 <= ja < a.len() && a[ja] == da[m];
                assert(a[ja].x == a[ia].x);
                assert(a[ja].y@ == a[ia].y@);
                assert(poly_eval(p, xsa[m]) == ysa[m]);
                assert(a[ia].y@.len() == len);
            }
        }
        lemma_interpolation_exact(xsb, p, 0);
    }
    assert(interpolate_shares(da) =~= interpolate_shares(db));
}

/// Changing one share shifts the recovered secret: when the shares have distinct, nonzero
/// points and one share's values change by `delta` (as a renewal changes them) while the
/// others stay, each recovered byte changes by `basis * delta[c]` with a nonzero `basis`, so
/// exactly the bytes with a nonzero change come out different. Mixing an old share with
/// renewed ones is such a change.
pub proof fn lemma_changed_share_shifts_recovery(shares: Seq<Share>, changed: Seq<Share>, i: int, delta: Seq<u8>)
    requires
        0 <= i < shares.len(),
        changed.len() == shares.len(),
        share_xs(shares).no_duplicates(),
        forall|j: int| 0 <= j < shares.len() ==> (#[trigger] shares[j]).x.0 != 0,
        same_length(shares),
        delta.len() == shares[0].y@.len(),
        forall|j: int| 0 <= j < shares.len() && j != i ==> (#[trigger] changed[j]).x == shares[j].x
            && changed[j].y@ == shares[j].y@,
        changed[i].x == shares[i].x,
        changed[i].y_bytes() == Seq::new(delta.len(), |c: int| shares[i].y_bytes()[c] ^ delta[c]),
    ensures
        share_xs(changed) == share_xs(shares),
        same_length(changed),
        interpolate_shares(distinct_shares(changed)).len() == delta.len(),
        interpolate_shares(distinct_shares(shares)).len() == delta.len(),
        lagrange_basis(share_xs(shares), i, shares.len(), 0) != 0,
        forall|c: int| 0 <= c < delta.len() ==> #[trigger] interpolate_shares(distinct_shares(changed))[c]
            == interpolate_shares(distinct_shares(shares))[c] ^ gf_mul(
                lagrange_basis(share_xs(shares), i, shares.len(), 0),
                delta[c],
            ),
        forall|c: int| 0 <= c < delta.len() ==> (#[trigger] interpolate_shares(distinct_shares(changed))[c]
            != interpolate_shares(distinct_shares(shares))[c] <==> delta[c] != 0),
{
    let xs = share_xs(shares);
    assert(share_xs(changed) =~= xs) by {
        assert forall|j: int| 0 <= j < shares.len() implies #[trigger] share_xs(changed)[j] == xs[j] by {
            if j != i {
                assert(changed[j].x == shares[j].x);
            }
        }
    }
    lemma_distinct_shares_of_distinct(shares);
    lemma_distinct_shares_of_distinct(changed);
    assert(shares[i].y_bytes().len() == shares[i].y@.len());
    assert(shares[i].y@.len() == shares[0].y@.len());
    assert(changed[i].y_bytes().len() == changed[i].y@.len());
    assert forall|j: int| 0 <= j < changed.len() implies #[trigger] changed[j].y@.len() == changed[0].y@.len() by {
        if j != i {
            assert(changed[j].y@ == shares[j].y@);
        }
        if i != 0 {
            assert(changed[0].y@ == shares[0].y@);
        }
    }
    if i != 0 {
        assert(changed[0].y@ == shares[0].y@);
    }
    let basis = lagrange_basis(xs, i, shares.len(), 0);
    assert forall|j: int| 0 <= j < xs.len() && j != i implies #[trigger] xs[j] != 0 by {
        assert(shares[j].x.0 != 0);
    }
    lemma_basis_at_zero_nonzero(xs, i, shares.len());
    assert forall|c: int| 0 <= c < delta.len() implies #[trigger] interpolate_shares(changed)[c]
        == interpolate_shares(shares)[c] ^ gf_mul(basis, delta[c]) by {
        let ys = share_column(shares, c);
        assert(share_column(changed, c) =~= ys.update(i, ys[i] ^ delta[c])) by {
            assert forall|j: int| 0 <= j < shares.len() implies #[trigger] share_column(changed, c)[j]
                == ys.update(i, ys[i] ^ delta[c])[j] by {
                if j != i {
                    assert(changed[j].y@ == shares[j].y@);
                    assert(shares[j].y@.len() == shares[0].y@.len());
                } else {
                    assert(changed[i].y_bytes()[c] == changed[i].y@[c].0);
                    assert(shares[i].y_bytes()[c] == shares[i].y@[c].0);
                }
            }
        }
        lemma_interpolation_shift(xs, ys, i, delta[c]);
    }
    assert forall|c: int| 0 <= c < delta.len() implies (#[trigger] interpolate_shares(changed)[c]
        != interpolate_shares(shares)[c] <==> delta[c] != 0) by {
        let v = interpolate_shares(shares)[c];
        lemma_no_zero_divisors(basis, delta[c]);
        lemma_xor_cancel(v ^ gf_mul(basis, delta[c]), v);
        lemma_xor_commutes(v, gf_mul(basis, delta[c]));
        lemma_xor_cancel(gf_mul(basis, delta[c]), v);
        lemma_xor_zero(v);
    }
}

/// The sum of a sequence of bytes, first to last.
pub open spec fn xor_fold(v: Seq<u8>) -> u8
    decreases v.len(),
{
    if v.len() == 0 {
        0
    } else {
        xor_fold(v.drop_last()) ^ v.last()
    }
}

/// Whether `perm` is a permutation of the indices below `n`: it maps them one to one onto
/// themselves.
pub open spec fn is_permutation(perm: Seq<int>, n: nat) -> bool {
    &&& perm.len() == n
    &&& forall|k: int| 0 <= k < n ==> 0 <= #[trigger] perm[k] < n
    &&& forall|k1: int, k2: int| 0 <= k1 < n && 0 <= k2 < n && k1 != k2 ==> #[trigger] perm[k1]
        != #[trigger] perm[k2]
    &&& forall|i: int| 0 <= i < n ==> #[trigger] in_image(perm, n, i)
}

/// Whether some index below `n` is mapped to `i`.
pub open spec fn in_image(perm: Seq<int>, n: nat, i: int) -> bool {
    exists|k: int| 0 <= k < n && #[trigger] perm[k] == i
}

proof fn lemma_xor_fold_remove(v: Seq<u8>, q: int)
    requires
        0 <= q < v.len(),
    ensures
        xor_fold(v) == xor_fold(v.remove(q)) ^ v[q],
    decreases v.len(),
{
    let last = v.last();
    if q == v.len() - 1 {
        assert(v.remove(q) =~= v.drop_last());
    } else {
        let dl = v.drop_last();
        lemma_xor_fold_remove(dl, q);
        assert(v.remove(q).drop_last() =~= dl.remove(q));
        assert(v.remove(q).last() == last);
        let f = xor_fold(dl.remove(q));
        lemma_xor_associates(f, v[q], last);
        lemma_xor_associates(f, last, v[q]);
        lemma_xor_commutes(v[q], last);
    }
}

proof fn lemma_xor_fold_permutation(v: Seq<u8>, w: Seq<u8>, perm: Seq<int>)
    requires
        w.len() == v.len(),
        is_permutation(perm, v.len()),
        forall|k: int| 0 <= k < w.len() ==> #[trigger] w[k] == v[perm[k]],
    ensures
        xor_fold(w) == xor_fold(v),
    decreases v.len(),
{
    let n = v.len();
    if n > 0 {
        let q = perm[n - 1];
        let v2 = v.remove(q);
        let w2 = w.drop_last();
        let perm2 = Seq::new((n - 1) as nat, |k: int| if perm[k] < q { perm[k] } else { perm[k] - 1 });
        assert forall|k: int| 0 <= k < n - 1 implies 0 <= #[trigger] perm2[k] < n - 1 by {
            assert(perm[k] != perm[n - 1]);
        }
        assert forall|k1: int, k2: int| 0 <= k1 < n - 1 && 0 <= k2 < n - 1 && k1 != k2 implies #[trigger] perm2[k1]
            != #[trigger] perm2[k2] by {
            assert(perm[k1] != perm[k2]);
            assert(perm[k1] != perm[n - 1]);
            assert(perm[k2] != perm[n - 1]);
        }
        assert forall|i2: int| 0 <= i2 < n - 1 implies #[trigger] in_image(perm2, (n - 1) as nat, i2) by {
            let i = if i2 < q { i2 } else { i2 + 1 };
            assert(in_image(perm, n, i));
            let k = choose|k: int| 0 <= k < n && #[trigger] perm[k] == i;
            assert(k != n - 1);
            assert(perm2[k] == i2);
        }
        assert forall|k: int| 0 <= k < w2.len() implies #[trigger] w2[k] == v2[perm2[k]] by {
            assert(w[k] == v[perm[k]]);
            assert(perm[k] != perm[n - 1]);
        }
        lemma_xor_fold_permutation(v2, w2, perm2);
        lemma_xor_fold_remove(v, q);
        assert(w[n - 1] == v[q]);
    }
}

/// The values that the first `m` renewal shares add at position `b`.
pub open spec fn renewal_column(rs: Seq<Share>, b: int, m: nat) -> Seq<u8> {
    Seq::new(m, |j: int| rs[j].y_bytes()[b])
}

proof fn lemma_add_renewals_fold(y: Seq<u8>, rs: Seq<Share>, m: nat, b: int)
    requires
        0 <= b < y.len(),
    ensures
        add_renewals(y, rs, m)[b] == y[b] ^ xor_fold(renewal_column(rs, b, m)),
    decreases m,
{
    if m == 0 {
        lemma_xor_zero(y[b]);
    } else {
        lemma_add_renewals_fold(y, rs, (m - 1) as nat, b);
        lemma_add_renewals_len(y, rs, (m - 1) as nat);
        assert(renewal_column(rs, b, m).drop_last() =~= renewal_column(rs, b, (m - 1) as nat));
        lemma_xor_associates(y[b], xor_fold(renewal_column(rs, b, (m - 1) as nat)), rs[m - 1].y_bytes()[b]);
    }
}

/// Renewals commute: adding renewal shares in any order gives the same values.
pub proof fn lemma_renewals_commute(y: Seq<u8>, rs: Seq<Share>, ts: Seq<Share>, perm: Seq<int>)
    requires
        ts.len() == rs.len(),
        is_permutation(perm, rs.len()),
        forall|k: int| 0 <= k < ts.len() ==> #[trigger] ts[k] == rs[perm[k]],
    ensures
        add_renewals(y, ts, ts.len()) == add_renewals(y, rs, rs.len()),
{
    lemma_add_renewals_len(y, ts, ts.len());
    lemma_add_renewals_len(y, rs, rs.len());
    assert forall|b: int| 0 <= b < y.len() implies #[trigger] add_renewals(y, ts, ts.len())[b]
        == add_renewals(y, rs, rs.len())[b] by {
        lemma_add_renewals_fold(y, ts, ts.len(), b);
        lemma_add_renewals_fold(y, rs, rs.len(), b);
        let v = renewal_column(rs, b, rs.len());
        let w = renewal_column(ts, b, ts.len());
        assert forall|k: int| 0 <= k < w.len() implies #[trigger] w[k] == v[perm[k]] by {
            assert(ts[k] == rs[perm[k]]);
        }
        lemma_xor_fold_permutation(v, w, perm);
    }
    assert(add_renewals(y, ts, ts.len()) =~= add_renewals(y, rs, rs.len()));
}

/// Renewals compose: renewing with `a` and then with `b` adds the same values as renewing
/// once with `a` followed by `b`.
pub proof fn lemma_renewals_compose(y: Seq<u8>, a: Seq<Share>, b: Seq<Share>)
    ensures
        add_renewals(add_renewals(y, a, a.len()), b, b.len()) == add_renewals(y, a + b, a.len() + b.len()),
{
    lemma_renewals_compose_prefix(y, a, b, b.len());
}

proof fn lemma_renewals_compose_prefix(y: Seq<u8>, a: Seq<Share>, b: Seq<Share>, m: nat)
    requires
        m <= b.len(),
    ensures
        add_renewals(add_renewals(y, a, a.len()), b, m) == add_renewals(y, a + b, a.len() + m),
    decreases m,
{
    let ab = a + b;
    if m == 0 {
        lemma_renewals_same_prefix(y, a, ab, a.len());
    } else {
        lemma_renewals_compose_prefix(y, a, b, (m - 1) as nat);
        lemma_add_renewals_len(y, a, a.len());
        assert(ab[a.len() + m - 1] == b[m - 1]);
    }
}

/// Only the first `m` renewal shares matter.
proof fn lemma_renewals_same_prefix(y: Seq<u8>, rs: Seq<Share>, ts: Seq<Share>, m: nat)
    requires
        m <= rs.len(),
        m <= ts.len(),
        forall|j: int| 0 <= j < m ==> #[trigger] rs[j] == ts[j],
    ensures
        add_renewals(y, rs, m) == add_renewals(y, ts, m),
    decreases m,
{
    if m > 0 {
        lemma_renewals_same_prefix(y, rs, ts, (m - 1) as nat);
        assert(rs[m - 1] == ts[m - 1]);
    }
}

/// Recovery does not depend on the order of the shares: any permutation of them gives the
/// same result, secret or error alike.
pub proof fn lemma_recover_permutation(k: u8, a: Seq<Share>, b: Seq<Share>, perm: Seq<int>)
    requires
        b.len() == a.len(),
        is_permutation(perm, a.len()),
        forall|i: int| 0 <= i < b.len() ==> #[trigger] b[i] == a[perm[i]],
    ensures
        recover_result(k, b) == recover_result(k, a),
{
    let n = a.len();
    // every share of `a` is a share of `b`
    assert forall|i: int| 0 <= i < n implies b.contains(#[trigger] a[i]) by {
        assert(in_image(perm, n, i));
        let j = choose|j: int| 0 <= j < n && #[trigger] perm[j] == i;
        assert(b[j] == a[perm[j]]);
    }
    if n > 0 {
        assert(in_image(perm, n, 0));
        let j0 = choose|j: int| 0 <= j < n && #[trigger] perm[j] == 0;
        assert(b[j0] == a[0]);
        assert(b[0] == a[perm[0]]);
        if same_length(a) {
            assert forall|i: int| 0 <= i < n implies #[trigger] b[i].y@.len() == b[0].y@.len() by {
                assert(b[i] == a[perm[i]]);
            }
        }
        if same_length(b) {
            assert forall|i: int| 0 <= i < n implies #[trigger] a[i].y@.len() == a[0].y@.len() by {
                let j = choose|j: int| 0 <= j < n && #[trigger] b[j] == a[i];
            }
        }
    }
    assert(same_length(a) == same_length(b));
    if conflicting(a) {
        let (i1, i2) = choose|i1: int, i2: int| 0 <= i1 < n && 0 <= i2 < n && (#[trigger] a[i1]).x
            == (#[trigger] a[i2]).x && a[i1].y@ != a[i2].y@;
        let j1 = choose|j: int| 0 <= j < n && #[trigger] b[j] == a[i1];
        let j2 = choose|j: int| 0 <= j < n && #[trigger] b[j] == a[i2];
        assert(b[j1].x == b[j2].x && b[j1].y@ != b[j2].y@);
    }
    if conflicting(b) {
        let (j1, j2) = choose|j1: int, j2: int| 0 <= j1 < n && 0 <= j2 < n && (#[trigger] b[j1]).x
            == (#[trigger] b[j2]).x && b[j1].y@ != b[j2].y@;
        assert(b[j1] == a[perm[j1]]);
        assert(b[j2] == a[perm[j2]]);
        assert(a[perm[j1]].x == a[perm[j2]].x && a[perm[j1]].y@ != a[perm[j2]].y@);
    }
    assert(conflicting(a) == conflicting(b));
    if n > 0 && same_length(a) && !conflicting(a) {
        assert forall|i: int| 0 <= i < n implies has_point(a, (#[trigger] b[i]).x.0, b[i].y@) by {
            assert(b[i] == a[perm[i]]);
        }
        assert forall|i: int| 0 <= i < n implies has_point(b, (#[trigger] a[i]).x.0, a[i].y@) by {
            let j = choose|j: int| 0 <= j < n && #[trigger] b[j] == a[i];
            assert(b[j].x.0 == a[i].x.0 && b[j].y@ == a[i].y@);
        }
        assert forall|i: int, j: int| 0 <= i < n && 0 <= j < n && (#[trigger] a[i]).x == (#[trigger] a[j]).x
            implies a[i].y@ == a[j].y@ by {}
        lemma_recovery_depends_only_on_points(a, b);
    } else if n > 0 {
        // the points are the same either way
        assert(share_xs(a).to_set() =~= share_xs(b).to_set()) by {
            assert forall|x: u8| share_xs(a).to_set().contains(x) implies share_xs(b).to_set().contains(x) by {
                let i = choose|i: int| 0 <= i < n && share_xs(a)[i] == x;
                let j = choose|j: int| 0 <= j < n && #[trigger] b[j] == a[i];
                assert(share_xs(b)[j] == x);
            }
            assert forall|x: u8| share_xs(b).to_set().contains(x) implies share_xs(a).to_set().contains(x) by {
                let j = choose|j: int| 0 <= j < n && share_xs(b)[j] == x;
                assert(b[j] == a[perm[j]]);
                assert(share_xs(a)[perm[j]] == x);
            }
        }
    }
}

/// Too few shares are refused: whatever the shares, fewer distinct points than the
/// threshold (or no shares at all) never recover a secret, and when the shares are
/// otherwise sound the refusal says that there are not enough of them.
pub proof fn lemma_too_few_shares_refused(k: u8, shares: Seq<Share>)
    requires
        shares.len() == 0 || share_xs(shares).to_set().len() < k,
    ensures
        recover_result(k, shares) is Err,
        same_length(shares) && !conflicting(shares) ==> recover_result(k, shares)
            == Err::<Seq<u8>, Seq<char>>("Not enough shares to recover original secret"@),
{
}

/// Enough sound shares are accepted: equal lengths, no two different shares at one point,
/// and at least `k` distinct points (and at least one share) always give a secret.
pub proof fn lemma_enough_shares_accepted(k: u8, shares: Seq<Share>)
    requires
        shares.len() > 0,
        same_length(shares),
        !conflicting(shares),
        share_xs(shares).to_set().len() >= k,
    ensures
        recover_result(k, shares) is Ok,
{
}

/// Renewal accepts exactly the renewal shares that have as many values as the share and
/// the same point: all of them are added exactly when each one matches, and a renewal share
/// of another length (longer or shorter) stops the renewal before it is added.
pub proof fn lemma_renewal_accepts_matching_shares(x: u8, len: nat, rs: Seq<Share>)
    ensures
        crate::share::fitting_prefix(x, len, rs) == rs.len() <==> forall|j: int| 0 <= j < rs.len()
            ==> (#[trigger] rs[j]).y@.len() == len && rs[j].x.0 == x,
        forall|j: int| 0 <= j < rs.len() && (#[trigger] rs[j]).y@.len() != len ==> crate::share::fitting_prefix(x, len, rs) <= j,
        forall|j: int| 0 <= j < crate::share::fitting_prefix(x, len, rs) ==> (#[trigger] rs[j]).y@.len() == len
            && rs[j].x.0 == x,
{
    crate::share::lemma_fitting_prefix_bounds(x, len, rs);
    let f = crate::share::fitting_prefix(x, len, rs);
    if forall|j: int| 0 <= j < rs.len() ==> (#[trigger] rs[j]).y@.len() == len && rs[j].x.0 == x {
        if f < rs.len() {
            assert(rs[f as int].y@.len() == len && rs[f as int].x.0 == x);
        }
    }
    assert forall|j: int| 0 <= j < rs.len() && (#[trigger] rs[j]).y@.len() != len implies f <= j by {
        if f > j {
            assert(crate::share::renewal_fits(x, len, rs[j]));
        }
    }
    assert forall|j: int| 0 <= j < f implies (#[trigger] rs[j]).y@.len() == len && rs[j].x.0 == x by {
        assert(crate::share::renewal_fits(x, len, rs[j]));
    }
}

/// The byte layout of a share: its point, then each of its values in order.
pub proof fn lemma_encoding_layout(share: Share)
    ensures
        share.encoding().len() == share.y@.len() + 1,
        share.encoding()[0] == share.x.0,
        forall|i: int| 0 <= i < share.y@.len() ==> share.encoding()[i + 1] == (#[trigger] share.y@[i]).0,
{
}

/// The byte encoding determines the share: equal encodings mean equal `x` and values.
pub proof fn lemma_encoding_determines_share(a: Share, b: Share)
    requires
        a.encoding() == b.encoding(),
    ensures
        a.x == b.x,
        a.y_bytes() == b.y_bytes(),
{
    assert(a.encoding()[0] == a.x.0);
    assert(b.encoding()[0] == b.x.0);
    assert(a.y_bytes() =~= a.encoding().drop_first());
    assert(b.y_bytes() =~= b.encoding().drop_first());
}

} // verus!
