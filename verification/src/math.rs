//! Polynomial generation, evaluation and interpolation for shares.
use vstd::prelude::*;
use crate::field::{group_xor, lemma_xor_zero, GF256};
use crate::poly::{interpolate_at, lagrange_basis, lagrange_sum, poly_eval};
use crate::share::{field_bytes, Share};

verus! {

broadcast use group_xor;

/// The `x` of every share.
pub open spec fn share_xs(shares: Seq<Share>) -> Seq<u8> {
    Seq::new(shares.len(), |i: int| shares[i].x.0)
}

/// The `b`-th value of every share.
pub open spec fn share_column(shares: Seq<Share>, b: int) -> Seq<u8> {
    Seq::new(shares.len(), |i: int| shares[i].y@[b].0)
}

/// Whether every share has as many values as the first.
pub open spec fn same_length(shares: Seq<Share>) -> bool {
    forall|i: int| 0 <= i < shares.len() ==> #[trigger] shares[i].y@.len() == shares[0].y@.len()
}

/// The secret that Lagrange interpolation at zero gives, byte by byte.
pub open spec fn interpolate_shares(shares: Seq<Share>) -> Seq<u8> {
    Seq::new(
        if shares.len() == 0 { 0 } else { shares[0].y@.len() },
        |b: int| interpolate_at(share_xs(shares), share_column(shares, b), 0),
    )
}

/// The shares whose `x` does not occur among the shares before them, in order: one share
/// per distinct `x`, the first one given.
pub open spec fn distinct_shares(shares: Seq<Share>) -> Seq<Share>
    decreases shares.len(),
{
    if shares.len() == 0 {
        Seq::<Share>::empty()
    } else {
        let prev = distinct_shares(shares.drop_last());
        if share_xs(shares.drop_last()).contains(shares.last().x.0) {
            prev
        } else {
            prev.push(shares.last())
        }
    }
}

/// Whether two of the shares are at the same `x` with different values.
pub open spec fn conflicting(shares: Seq<Share>) -> bool {
    exists|i: int, j: int|
        0 <= i < shares.len() && 0 <= j < shares.len() && (#[trigger] shares[i]).x == (#[trigger] shares[j]).x
            && shares[i].y@ != shares[j].y@
}

/// One share per distinct `x`: the points are distinct, there are as many as there are
/// distinct `x` values, each is one of the given shares, and the first share is kept.
pub proof fn lemma_distinct_shares(shares: Seq<Share>)
    ensures
        share_xs(distinct_shares(shares)).no_duplicates(),
        share_xs(distinct_shares(shares)).to_set() == share_xs(shares).to_set(),
        distinct_shares(shares).len() == share_xs(shares).to_set().len(),
        forall|k: int| 0 <= k < distinct_shares(shares).len() ==> shares.contains(
            #[trigger] distinct_shares(shares)[k],
        ),
        shares.len() > 0 ==> distinct_shares(shares).len() > 0 && distinct_shares(shares)[0] == shares[0],
    decreases shares.len(),
{
    let ds = distinct_shares(shares);
    if shares.len() == 0 {
        assert(share_xs(shares).to_set() =~= Set::<u8>::empty());
        assert(share_xs(ds).to_set() =~= Set::<u8>::empty());
    } else {
        let p = shares.drop_last();
        let dp = distinct_shares(p);
        let last = shares.last();
        let x = last.x.0;
        lemma_distinct_shares(p);
        assert(share_xs(shares) =~= share_xs(p).push(x));
        share_xs(p).lemma_push_to_set_commute(x);
        vstd::seq_lib::seq_to_set_is_finite(share_xs(p));
        assert forall|k: int| 0 <= k < dp.len() implies shares.contains(#[trigger] dp[k]) by {
            assert(p.contains(dp[k]));
            let i = choose|i: int| 0 <= i < p.len() && p[i] == dp[k];
            assert(shares[i] == dp[k]);
        }
        if share_xs(p).contains(x) {
            assert(share_xs(p).to_set().contains(x));
            assert(share_xs(p).to_set().insert(x) =~= share_xs(p).to_set());
            if p.len() == 0 {
                assert(false);
            }
        } else {
            assert(!share_xs(p).to_set().contains(x));
            assert(!share_xs(dp).to_set().contains(x));
            assert(share_xs(ds) =~= share_xs(dp).push(x));
            share_xs(dp).lemma_push_to_set_commute(x);
            assert forall|a: int, b: int| 0 <= a < share_xs(ds).len() && 0 <= b < share_xs(ds).len() && a != b
                implies share_xs(ds)[a] != share_xs(ds)[b] by {
                if a < dp.len() && b < dp.len() {
                    assert(share_xs(dp)[a] != share_xs(dp)[b]);
                } else if a < dp.len() {
                    assert(share_xs(dp).contains(share_xs(dp)[a]));
                } else if b < dp.len() {
                    assert(share_xs(dp).contains(share_xs(dp)[b]));
                }
            }
            assert(ds[dp.len() as int] == last);
            assert(shares.contains(last)) by {
                assert(shares[shares.len() - 1] == last);
            }
            if p.len() == 0 {
                assert(dp =~= Seq::<Share>::empty());
            } else {
                assert(ds[0] == dp[0]);
            }
        }
    }
}

/// Shares whose points are already distinct are kept as they are.
pub proof fn lemma_distinct_shares_of_distinct(shares: Seq<Share>)
    requires
        share_xs(shares).no_duplicates(),
    ensures
        distinct_shares(shares) == shares,
    decreases shares.len(),
{
    if shares.len() > 0 {
        let p = shares.drop_last();
        let xs = share_xs(shares);
        assert(share_xs(p) =~= xs.drop_last());
        assert(share_xs(p).no_duplicates());
        lemma_distinct_shares_of_distinct(p);
        if share_xs(p).contains(shares.last().x.0) {
            let j = choose|j: int| 0 <= j < share_xs(p).len() && share_xs(p)[j] == shares.last().x.0;
            assert(xs[j] == xs[xs.len() - 1]);
        }
        assert(p.push(shares.last()) =~= shares);
    }
}

/// Interpolation reads only the points and values of the shares.
pub proof fn lemma_interpolate_same_points(a: Seq<Share>, b: Seq<Share>)
    requires
        a.len() == b.len(),
        forall|k: int| 0 <= k < a.len() ==> (#[trigger] a[k]).x == b[k].x && a[k].y@ == b[k].y@,
    ensures
        interpolate_shares(a) == interpolate_shares(b),
        same_length(a) == same_length(b),
{
    assert(share_xs(a) =~= share_xs(b));
    assert forall|c: int| #![trigger share_column(a, c)] true implies share_column(a, c) == share_column(b, c) by {
        assert(share_column(a, c) =~= share_column(b, c));
    }
    if a.len() > 0 {
        assert(a[0].y@ == b[0].y@);
        if same_length(a) {
            assert forall|i: int| 0 <= i < b.len() implies #[trigger] b[i].y@.len() == b[0].y@.len() by {
                assert(a[i].y@ == b[i].y@);
                assert(a[i].y@.len() == a[0].y@.len());
            }
        }
        if same_length(b) {
            assert forall|i: int| 0 <= i < a.len() implies #[trigger] a[i].y@.len() == a[0].y@.len() by {
                assert(a[i].y@ == b[i].y@);
                assert(b[i].y@.len() == b[0].y@.len());
            }
        }
    }
    assert(interpolate_shares(a) =~= interpolate_shares(b));
}

/// Whether `share` holds, at its `x`, the value of each of `polys`.
pub open spec fn share_of(share: Share, polys: Seq<Seq<u8>>) -> bool {
    share.y_bytes() == Seq::new(polys.len(), |b: int| poly_eval(polys[b], share.x.0))
}

/// The coefficients, as bytes, of a list of polynomials.
pub open spec fn polys_bytes(polys: Seq<Vec<GF256>>) -> Seq<Seq<u8>> {
    polys.map_values(|p: Vec<GF256>| field_bytes(p@))
}

/// Finds the value at zero of the Lagrange interpolant through the shares, for each
/// byte position: `sum_i y_i * prod_{j : x_j != x_i} x_j / (x_j - x_i)`.
pub fn interpolate(shares: &[Share]) -> (secret: Vec<u8>)
    requires
        shares@.len() > 0,
        same_length(shares@),
    ensures
        secret@ == interpolate_shares(shares@),
{
    let ghost xs = share_xs(shares@);
    let n = shares.len();
    let len = shares[0].y.len();
    let mut secret: Vec<u8> = Vec::new();
    let mut b: usize = 0;
    while b < len
        invariant
            0 <= b <= len,
            n == shares@.len(),
            len == shares@[0].y@.len(),
            same_length(shares@),
            xs == share_xs(shares@),
            secret@.len() == b,
            forall|c: int| 0 <= c < b ==> #[trigger] secret@[c] == interpolate_at(xs, share_column(shares@, c), 0),
        decreases len - b,
    {
        let ghost ys = share_column(shares@, b as int);
        let mut acc = GF256(0);
        let mut i: usize = 0;
        while i < n
            invariant
                0 <= i <= n,
                b < len,
                n == shares@.len(),
                len == shares@[0].y@.len(),
                same_length(shares@),
                xs == share_xs(shares@),
                ys == share_column(shares@, b as int),
                acc.0 == lagrange_sum(xs, ys, i as nat, 0),
            decreases n - i,
        {
            let mut basis = GF256(1);
            let mut j: usize = 0;
            while j < n
                invariant
                    0 <= j <= n,
                    i < n,
                    n == shares@.len(),
                    xs == share_xs(shares@),
                    basis.0 == lagrange_basis(xs, i as int, j as nat, 0),
                decreases n - j,
            {
                if shares[j].x != shares[i].x {
                    let xj = shares[j].x;
                    basis = basis.times(xj.divide(xj.minus(shares[i].x)));
                    proof {
                        lemma_xor_zero(xs[j as int]);
                    }
                }
                j = j + 1;
            }
            assert(shares@[i as int].y@.len() == len);
            acc = acc.plus(basis.times(shares[i].y[b]));
            i = i + 1;
        }
        secret.push(acc.0);
        b = b + 1;
    }
    proof {
        assert(secret@ =~= interpolate_shares(shares@));
    }
    secret
}

/// Evaluates `p` at `x` by Horner's rule.
pub fn evaluate(p: &Vec<GF256>, x: GF256) -> (value: GF256)
    ensures
        value.0 == poly_eval(field_bytes(p@), x.0),
{
    let ghost coeffs = field_bytes(p@);
    let mut acc = GF256(0);
    let mut i: usize = 0;
    while i < p.len()
        invariant
            0 <= i <= p@.len(),
            coeffs == field_bytes(p@),
            acc.0 == poly_eval(coeffs.take(i as int), x.0),
        decreases p@.len() - i,
    {
        proof {
            assert(coeffs.take(i + 1).drop_last() =~= coeffs.take(i as int));
        }
        acc = acc.times(x).plus(p[i]);
        i = i + 1;
    }
    proof {
        assert(coeffs.take(p@.len() as int) =~= coeffs);
    }
    acc
}

/// Draws a value uniformly from `lo..=hi` with `rand::Rng::gen_range`, which panics on an
/// empty range.
#[verifier::external_body]
fn random_byte_in<R: rand::Rng>(rng: &mut R, lo: u8, hi: u8) -> (v: u8)
    requires
        lo <= hi,
    ensures
        lo <= v <= hi,
{
    rng.gen_range(lo..=hi)
}

/// Generates `k` polynomial coefficients, the last one `s` and the others drawn at random
/// from 1..=255 (a single coefficient, `s`, when `k` is zero). Coefficients go from the
/// highest degree down to the constant term.
pub fn random_polynomial<R: rand::Rng>(s: GF256, k: u8, rng: &mut R) -> (poly: Vec<GF256>)
    ensures
        poly@.len() == if k == 0 { 1 } else { k as int },
        poly@.last() == s,
        forall|i: int| 0 <= i < poly@.len() - 1 ==> #[trigger] poly@[i].0 != 0,
{
    let count = k as usize;
    let mut poly: Vec<GF256> = Vec::new();
    let mut i: usize = 1;
    while i < count
        invariant
            count == k,
            1 <= i,
            i <= count || i == 1,
            poly@.len() == i - 1,
            forall|j: int| 0 <= j < poly@.len() ==> #[trigger] poly@[j].0 != 0,
        decreases count - i,
    {
        poly.push(GF256(random_byte_in(rng, 1, 255)));
        i = i + 1;
    }
    poly.push(s);
    poly
}

/// The shares of a list of polynomials, at `x = 1, 2, ..., 255` in turn.
pub struct Evaluator {
    polys: Vec<Vec<GF256>>,
    x: u16,
}

impl Evaluator {
    #[verifier::type_invariant]
    spec fn position_in_range(&self) -> bool {
        1 <= self.x <= 256
    }

    /// The polynomials, one per secret byte, as coefficient bytes.
    pub closed spec fn polynomials(&self) -> Seq<Seq<u8>> {
        polys_bytes(self.polys@)
    }

    /// The `x` of the next share; past 255 there are no more shares.
    pub closed spec fn next_x(&self) -> nat {
        self.x as nat
    }

    /// Returns the next share, the values of every polynomial at the next `x`.
    pub fn next(&mut self) -> (share: Option<Share>)
        ensures
            final(self).polynomials() == old(self).polynomials(),
            old(self).next_x() <= 255 ==> {
                &&& share matches Some(s)
                &&& s.x.0 == old(self).next_x()
                &&& share_of(s, old(self).polynomials())
                &&& final(self).next_x() == old(self).next_x() + 1
            },
            old(self).next_x() > 255 ==> share is None && final(self).next_x() == old(self).next_x(),
    {
        proof {
            use_type_invariant(&*self);
        }
        if self.x > 255 {
            return None;
        }
        let x = GF256(self.x as u8);
        let mut y: Vec<GF256> = Vec::new();
        let mut b: usize = 0;
        while b < self.polys.len()
            invariant
                0 <= b <= self.polys@.len(),
                x.0 == old(self).x,
                self.polys == old(self).polys,
                y@.len() == b,
                forall|c: int| 0 <= c < b ==> #[trigger] y@[c].0 == poly_eval(
                    field_bytes(self.polys@[c]@),
                    x.0,
                ),
            decreases self.polys@.len() - b,
        {
            let v = evaluate(&self.polys[b], x);
            y.push(v);
            b = b + 1;
        }
        let share = Share { x, y };
        proof {
            assert(share.y_bytes() =~= Seq::new(
                self.polynomials().len(),
                |c: int| poly_eval(self.polynomials()[c], share.x.0),
            ));
        }
        self.x = self.x + 1;
        Some(share)
    }

    /// Returns the next `n` shares, or as many as remain.
    pub fn take(self, n: usize) -> (shares: Vec<Share>)
        ensures
            shares@.len() == if n <= 256 - self.next_x() { n as int } else { 256 - self.next_x() },
            forall|k: int| 0 <= k < shares@.len() ==> {
                &&& #[trigger] shares@[k].x.0 == self.next_x() + k
                &&& share_of(shares@[k], self.polynomials())
            },
    {
        proof {
            use_type_invariant(&self);
        }
        let ghost start = self.next_x();
        let ghost polys = self.polynomials();
        let mut evaluator = self;
        let mut shares: Vec<Share> = Vec::new();
        let mut done = false;
        while shares.len() < n && !done
            invariant
                shares@.len() <= n,
                evaluator.polynomials() == polys,
                1 <= start <= 256,
                done ==> evaluator.next_x() == 256,
                !done ==> evaluator.next_x() == start + shares@.len(),
                done ==> shares@.len() == 256 - start,
                done ==> shares@.len() < n,
                !done ==> start + shares@.len() <= 256,
                forall|k: int| 0 <= k < shares@.len() ==> {
                    &&& #[trigger] shares@[k].x.0 == start + k
                    &&& share_of(shares@[k], polys)
                },
            decreases n - shares@.len() + (if done { 0int } else { 1int }),
        {
            proof {
                use_type_invariant(&evaluator);
            }
            match evaluator.next() {
                Some(s) => {
                    shares.push(s);
                },
                None => {
                    done = true;
                },
            }
        }
        shares
    }
}

/// Returns an evaluator over the shares of `polys`, starting at `x = 1` and ending at
/// `x = 255`. Each polynomial corresponds to one byte of the secret.
pub fn get_evaluator(polys: Vec<Vec<GF256>>) -> (evaluator: Evaluator)
    ensures
        evaluator.polynomials() == polys_bytes(polys@),
        evaluator.next_x() == 1,
{
    Evaluator { polys, x: 1 }
}

} // verus!
