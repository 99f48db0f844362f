//! Shamir's Secret Sharing over GF(2^8), with proactive renewal of shares.
pub mod field;
mod keys;
pub mod laws;
pub mod math;
pub mod poly;
pub mod share;

use vstd::prelude::*;

pub use crate::field::GF256;
pub use crate::math::Evaluator;
pub use crate::share::Share;

use crate::keys::KeySet;
use crate::math::{get_evaluator, interpolate, random_polynomial};

verus! {

broadcast use vstd::seq_lib::seq_to_set_is_finite;

#[verifier::external_type_specification]
#[verifier::external_body]
pub struct ExThreadRng(rand::rngs::ThreadRng);

/// The generator of the current thread, from `rand::thread_rng`.
#[verifier::external_body]
fn thread_rng() -> rand::rngs::ThreadRng {
    rand::thread_rng()
}

/// Tuple struct which implements methods to generate shares and recover secrets over a 256 bits Galois Field.
/// Its only parameter is the minimum shares threshold.
pub struct Sharks(pub u8);

/// The number of coefficients of each polynomial that a threshold of `k` gives.
pub open spec fn poly_len(k: u8) -> nat {
    if k == 0 { 1 } else { k as nat }
}

/// Whether `polys` are polynomials dealt for `secret` with threshold `k`: one per byte, each
/// with `poly_len(k)` coefficients, the byte as constant term and nonzero coefficients above it.
pub open spec fn dealt_for(polys: Seq<Seq<u8>>, secret: Seq<u8>, k: u8) -> bool {
    &&& polys.len() == secret.len()
    &&& forall|b: int| 0 <= b < polys.len() ==> {
        &&& #[trigger] polys[b].len() == poly_len(k)
        &&& crate::poly::constant_term(polys[b]) == secret[b]
        &&& forall|j: int| 0 <= j < polys[b].len() - 1 ==> #[trigger] polys[b][j] != 0
    }
}

proof fn lemma_dealt_extend(polys: Seq<Vec<GF256>>, poly: Vec<GF256>, secret: Seq<u8>, s: u8, k: u8)
    requires
        dealt_for(crate::math::polys_bytes(polys), secret, k),
        poly@.len() == poly_len(k),
        poly@.last().0 == s,
        forall|j: int| 0 <= j < poly@.len() - 1 ==> #[trigger] poly@[j].0 != 0,
    ensures
        dealt_for(crate::math::polys_bytes(polys.push(poly)), secret.push(s), k),
{
    let pb = crate::math::polys_bytes(polys.push(poly));
    let b = polys.len() as int;
    assert(pb[b] == crate::share::field_bytes(poly@));
    assert forall|j: int| 0 <= j < pb[b].len() - 1 implies #[trigger] pb[b][j] != 0 by {
        assert(pb[b][j] == poly@[j].0);
    }
    assert forall|c: int| 0 <= c < b implies #[trigger] pb[c] == crate::math::polys_bytes(polys)[c] by {
        assert(polys.push(poly)[c] == polys[c]);
    }
}

/// What `Sharks(k).recover` gives for `shares`: the secret, or the error message.
pub open spec fn recover_result(k: u8, shares: Seq<Share>) -> Result<Seq<u8>, Seq<char>> {
    if !crate::math::same_length(shares) {
        Err("All shares must have the same length"@)
    } else if crate::math::conflicting(shares) {
        Err("Shares at the same x must hold the same values"@)
    } else if shares.len() == 0 || crate::math::share_xs(shares).to_set().len() < k {
        Err("Not enough shares to recover original secret"@)
    } else {
        Ok(crate::math::interpolate_shares(crate::math::distinct_shares(shares)))
    }
}

impl Sharks {
    /// Given a `secret` byte slice, returns an `Evaluator` along new shares.
    /// The maximum number of shares that can be generated is 255.
    /// A random number generator has to be provided.
    pub fn dealer_rng<R: rand::Rng>(&self, secret: &[u8], rng: &mut R) -> (dealer: Evaluator)
        ensures
            dealer.next_x() == 1,
            dealt_for(dealer.polynomials(), secret@, self.0),
    {
        let mut polys: Vec<Vec<GF256>> = Vec::new();
        let mut i: usize = 0;
        while i < secret.len()
            invariant
                0 <= i <= secret@.len(),
                dealt_for(crate::math::polys_bytes(polys@), secret@.take(i as int), self.0),
            decreases secret@.len() - i,
        {
            let poly = random_polynomial(GF256(secret[i]), self.0, rng);
            proof {
                lemma_dealt_extend(polys@, poly, secret@.take(i as int), secret@[i as int], self.0);
                assert(secret@.take(i + 1) =~= secret@.take(i as int).push(secret@[i as int]));
            }
            polys.push(poly);
            i = i + 1;
        }
        proof {
            assert(secret@.take(secret@.len() as int) =~= secret@);
        }
        get_evaluator(polys)
    }

    /// Given a `secret` byte slice, returns an `Evaluator` along new shares, drawing the
    /// coefficients from the thread-local generator.
    pub fn dealer(&self, secret: &[u8]) -> (dealer: Evaluator)
        ensures
            dealer.next_x() == 1,
            dealt_for(dealer.polynomials(), secret@, self.0),
    {
        let mut rng = thread_rng();
        self.dealer_rng(secret, &mut rng)
    }

    /// Given a collection of shares, recovers the original secret.
    /// If the shares differ in length an `Err` is returned; if two shares at the same `x`
    /// hold different values an `Err` is returned; if the number of distinct shares is less
    /// than the minimum threshold an `Err` is returned, otherwise an `Ok` containing the
    /// secret, interpolated from one share per distinct `x`. Repeated shares count once, and
    /// the order of the shares does not matter.
    pub fn recover(&self, shares: &[Share]) -> (r: Result<Vec<u8>, &'static str>)
        ensures
            match r {
                Ok(secret) => recover_result(self.0, shares@) == Ok::<Seq<u8>, Seq<char>>(secret@),
                Err(e) => recover_result(self.0, shares@) == Err::<Seq<u8>, Seq<char>>(e@),
            },
            // when it is refused or accepted, stated over the shares directly
            crate::math::share_xs(shares@).to_set().len() < self.0 ==> r is Err,
            shares@.len() == 0 ==> r is Err,
            crate::math::same_length(shares@) && !crate::math::conflicting(shares@) && (shares@.len() == 0
                || crate::math::share_xs(shares@).to_set().len() < self.0) ==> (r matches Err(e)
                && e@ == "Not enough shares to recover original secret"@),
            r is Ok <==> (crate::math::same_length(shares@) && !crate::math::conflicting(shares@)
                && shares@.len() > 0 && crate::math::share_xs(shares@).to_set().len() >= self.0),
    {
        let ghost xs = crate::math::share_xs(shares@);
        let mut share_length: Option<usize> = None;
        let mut i: usize = 0;
        while i < shares.len()
            invariant
                0 <= i <= shares@.len(),
                i == 0 ==> share_length is None,
                i > 0 ==> share_length == Some(shares@[0].y.len()),
                forall|j: int| 0 <= j < i ==> #[trigger] shares@[j].y@.len() == shares@[0].y@.len(),
            decreases shares@.len() - i,
        {
            let share = &shares[i];
            if share_length.is_none() {
                share_length = Some(share.y.len());
            }
            let expected = match share_length {
                Some(l) => l,
                None => 0,
            };
            if share.y.len() != expected {
                return Err("All shares must have the same length");
            }
            i = i + 1;
        }
        assert(crate::math::same_length(shares@));
        let mut keys = KeySet::new();
        let mut values: Vec<Share> = Vec::new();
        let mut i: usize = 0;
        while i < shares.len()
            invariant
                0 <= i <= shares@.len(),
                xs == crate::math::share_xs(shares@),
                crate::math::same_length(shares@),
                !crate::math::conflicting(shares@.take(i as int)),
                crate::keys::key_set_contents(keys) == xs.take(i as int).to_set(),
                values@.len() == crate::math::distinct_shares(shares@.take(i as int)).len(),
                forall|k: int| 0 <= k < values@.len() ==> {
                    let d = #[trigger] crate::math::distinct_shares(shares@.take(i as int))[k];
                    values@[k].x == d.x && values@[k].y@ == d.y@
                },
            decreases shares@.len() - i,
        {
            let share = &shares[i];
            let ghost prefix = shares@.take(i as int);
            let ghost ds = crate::math::distinct_shares(prefix);
            proof {
                assert(xs.take(i + 1) =~= xs.take(i as int).push(xs[i as int]));
                xs.take(i as int).lemma_push_to_set_commute(xs[i as int]);
                assert(shares@.take(i + 1).drop_last() =~= prefix);
                assert(shares@.take(i + 1).last() == shares@[i as int]);
                assert(crate::math::share_xs(prefix) =~= xs.take(i as int));
                crate::math::lemma_distinct_shares(prefix);
            }
            let fresh = keys.insert(share.x.0);
            if fresh {
                values.push(share.copy());
                proof {
                    assert forall|a: int, b: int|
                        0 <= a < i + 1 && 0 <= b < i + 1 && (#[trigger] shares@.take(i + 1)[a]).x
                            == (#[trigger] shares@.take(i + 1)[b]).x
                        implies shares@.take(i + 1)[a].y@ == shares@.take(i + 1)[b].y@ by {
                        if a < i && b < i {
                            assert(prefix[a] == shares@.take(i + 1)[a]);
                            assert(prefix[b] == shares@.take(i + 1)[b]);
                        } else if a < i {
                            assert(xs.take(i as int)[a] == xs[i as int]);
                        } else if b < i {
                            assert(xs.take(i as int)[b] == xs[i as int]);
                        }
                    }
                }
            } else {
                assert(xs.take(i as int).to_set().contains(share.x.0));
                assert(crate::math::share_xs(ds).to_set().contains(share.x.0));
                let ghost m = choose|m: int| 0 <= m < crate::math::share_xs(ds).len()
                    && crate::math::share_xs(ds)[m] == share.x.0;
                let mut j: usize = 0;
                while j < values.len() && values[j].x != share.x
                    invariant
                        0 <= j <= values@.len(),
                        values@.len() == ds.len(),
                        0 <= m < ds.len(),
                        ds[m].x == share.x,
                        forall|k: int| 0 <= k < values@.len() ==> {
                            let d = #[trigger] ds[k];
                            values@[k].x == d.x && values@[k].y@ == d.y@
                        },
                        forall|k: int| 0 <= k < j ==> (#[trigger] values@[k]).x != share.x,
                    decreases values@.len() - j,
                {
                    j = j + 1;
                }
                proof {
                    if j >= values@.len() {
                        assert(values@[m].x == ds[m].x);
                        assert(false);
                    }
                }
                let ghost d = ds[j as int];
                proof {
                    assert(prefix.contains(d));
                }
                let ghost p = choose|p: int| 0 <= p < prefix.len() && prefix[p] == d;
                if !crate::share::same_values(&values[j].y, &share.y) {
                    proof {
                        assert(shares@[p] == prefix[p]);
                        assert(shares@[p].x == shares@[i as int].x);
                        assert(shares@[p].y@ != shares@[i as int].y@);
                        assert(crate::math::conflicting(shares@));
                    }
                    return Err("Shares at the same x must hold the same values");
                }
                proof {
                    assert(shares@[p] == prefix[p]);
                    assert forall|a: int, b: int|
                        0 <= a < i + 1 && 0 <= b < i + 1 && (#[trigger] shares@.take(i + 1)[a]).x
                            == (#[trigger] shares@.take(i + 1)[b]).x
                        implies shares@.take(i + 1)[a].y@ == shares@.take(i + 1)[b].y@ by {
                        if a < i && b < i {
                            assert(prefix[a] == shares@.take(i + 1)[a]);
                            assert(prefix[b] == shares@.take(i + 1)[b]);
                        } else if a < i {
                            assert(prefix[a] == shares@.take(i + 1)[a]);
                            assert(prefix[a].x == prefix[p].x);
                        } else if b < i {
                            assert(prefix[b] == shares@.take(i + 1)[b]);
                            assert(prefix[b].x == prefix[p].x);
                        }
                    }
                }
            }
            i = i + 1;
        }
        proof {
            assert(xs.take(shares@.len() as int) =~= xs);
            assert(shares@.take(shares@.len() as int) =~= shares@);
            crate::math::lemma_distinct_shares(shares@);
        }
        if keys.is_empty() || (keys.len() < self.0 as usize) {
            proof {
                if shares@.len() > 0 {
                    assert(xs.to_set().contains(xs[0]));
                }
            }
            Err("Not enough shares to recover original secret")
        } else {
            proof {
                if shares@.len() == 0 {
                    assert(xs.to_set() =~= Set::<u8>::empty());
                }
                let ds = crate::math::distinct_shares(shares@);
                assert forall|k: int| 0 <= k < ds.len() implies #[trigger] ds[k].y@.len() == shares@[0].y@.len() by {
                    assert(shares@.contains(ds[k]));
                }
                crate::math::lemma_interpolate_same_points(values@, ds);
            }
            Ok(interpolate(values.as_slice()))
        }
    }

    /// Given a share, returns an `Evaluator` along new shares that are for specific use of
    /// proactive protection: evaluations of random polynomials with constant term zero,
    /// one per value of the share (Herzberg et al., 1995).
    /// A random number generator has to be provided.
    pub fn proactive_dealer_rng<R: rand::Rng>(&self, share: &Share, rng: &mut R) -> (dealer: Evaluator)
        ensures
            dealer.next_x() == 1,
            dealt_for(dealer.polynomials(), Seq::new(share.y@.len(), |b: int| 0u8), self.0),
    {
        let ghost zeros = Seq::new(share.y@.len(), |b: int| 0u8);
        let mut polys: Vec<Vec<GF256>> = Vec::new();
        let mut i: usize = 0;
        while i < share.y.len()
            invariant
                0 <= i <= share.y@.len(),
                zeros == Seq::new(share.y@.len(), |b: int| 0u8),
                dealt_for(crate::math::polys_bytes(polys@), zeros.take(i as int), self.0),
            decreases share.y@.len() - i,
        {
            let poly = random_polynomial(GF256(0), self.0, rng);
            proof {
                lemma_dealt_extend(polys@, poly, zeros.take(i as int), 0u8, self.0);
                assert(zeros.take(i + 1) =~= zeros.take(i as int).push(0u8));
            }
            polys.push(poly);
            i = i + 1;
        }
        proof {
            assert(zeros.take(share.y@.len() as int) =~= zeros);
        }
        get_evaluator(polys)
    }

    /// Given a share, returns an `Evaluator` along renewal shares, drawing the coefficients
    /// from the thread-local generator.
    pub fn proactive_dealer(&self, share: &Share) -> (dealer: Evaluator)
        ensures
            dealer.next_x() == 1,
            dealt_for(dealer.polynomials(), Seq::new(share.y@.len(), |b: int| 0u8), self.0),
    {
        let mut rng = thread_rng();
        self.proactive_dealer_rng(share, &mut rng)
    }
}

} // verus!
