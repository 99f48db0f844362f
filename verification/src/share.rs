//! Shares: a point `x` and the values `y` of one polynomial per secret byte.
use vstd::prelude::*;
use crate::field::GF256;

verus! {

/// A share used to reconstruct the secret. Can be serialized to and from a byte array.
#[derive(Clone, Debug)]
pub struct Share {
    pub x: GF256,
    pub y: Vec<GF256>,
}

/// The bytes that a sequence of field elements holds.
pub open spec fn field_bytes(v: Seq<GF256>) -> Seq<u8> {
    v.map_values(|g: GF256| g.0)
}

/// Field elements are determined by their bytes.
pub proof fn lemma_field_bytes_injective(a: Seq<GF256>, b: Seq<GF256>)
    requires
        field_bytes(a) == field_bytes(b),
    ensures
        a == b,
{
    assert(a.len() == field_bytes(a).len());
    assert(b.len() == field_bytes(b).len());
    assert forall|k: int| 0 <= k < a.len() implies a[k] == b[k] by {
        assert(field_bytes(a)[k] == a[k].0);
        assert(field_bytes(b)[k] == b[k].0);
    }
    assert(a =~= b);
}

impl Share {
    /// The values of the share, as bytes.
    pub open spec fn y_bytes(&self) -> Seq<u8> {
        field_bytes(self.y@)
    }

    /// The byte encoding: `x` followed by the bytes of `y`.
    pub open spec fn encoding(&self) -> Seq<u8> {
        seq![self.x.0] + self.y_bytes()
    }
}

// ---------------------------------------------------------------------------
// Renewal

/// Whether `r` can renew a share at `x` with `len` values.
pub open spec fn renewal_fits(x: u8, len: nat, r: Share) -> bool {
    r.y@.len() == len && r.x.0 == x
}

/// How many renewal shares, from the front, fit a share at `x` with `len` values.
pub open spec fn fitting_prefix(x: u8, len: nat, rs: Seq<Share>) -> nat
    decreases rs.len(),
{
    if rs.len() == 0 {
        0
    } else if renewal_fits(x, len, rs[0]) {
        1 + fitting_prefix(x, len, rs.drop_first())
    } else {
        0
    }
}

/// `y` plus the values of the first `k` renewal shares, element by element.
pub open spec fn add_renewals(y: Seq<u8>, rs: Seq<Share>, k: nat) -> Seq<u8>
    decreases k,
{
    if k == 0 {
        y
    } else {
        let prev = add_renewals(y, rs, (k - 1) as nat);
        Seq::new(y.len(), |b: int| prev[b] ^ rs[k - 1].y_bytes()[b])
    }
}

pub proof fn lemma_add_renewals_len(y: Seq<u8>, rs: Seq<Share>, k: nat)
    ensures add_renewals(y, rs, k).len() == y.len(),
    decreases k,
{
    if k > 0 {
        lemma_add_renewals_len(y, rs, (k - 1) as nat);
    }
}

pub proof fn lemma_fitting_prefix_bounds(x: u8, len: nat, rs: Seq<Share>)
    ensures
        fitting_prefix(x, len, rs) <= rs.len(),
        forall|j: int| 0 <= j < fitting_prefix(x, len, rs) ==> renewal_fits(x, len, #[trigger] rs[j]),
        fitting_prefix(x, len, rs) < rs.len() ==> !renewal_fits(x, len, rs[fitting_prefix(x, len, rs) as int]),
    decreases rs.len(),
{
    if rs.len() > 0 && renewal_fits(x, len, rs[0]) {
        let rest = rs.drop_first();
        lemma_fitting_prefix_bounds(x, len, rest);
        assert forall|j: int| 0 <= j < fitting_prefix(x, len, rs) implies renewal_fits(x, len, #[trigger] rs[j]) by {
            if j > 0 {
                assert(rs[j] == rest[j - 1]);
            }
        }
        if fitting_prefix(x, len, rs) < rs.len() {
            assert(rs[fitting_prefix(x, len, rs) as int] == rest[fitting_prefix(x, len, rest) as int]);
        }
    }
}

/// The fitting prefix is the first index at which a renewal share does not fit.
pub proof fn lemma_fitting_prefix_is_first_misfit(x: u8, len: nat, rs: Seq<Share>, k: nat)
    requires
        k <= rs.len(),
        forall|j: int| 0 <= j < k ==> renewal_fits(x, len, #[trigger] rs[j]),
        k == rs.len() || !renewal_fits(x, len, rs[k as int]),
    ensures
        fitting_prefix(x, len, rs) == k,
{
    lemma_fitting_prefix_bounds(x, len, rs);
    let f = fitting_prefix(x, len, rs);
    if f < k {
        assert(renewal_fits(x, len, rs[f as int]));
    }
    if f > k {
        assert(renewal_fits(x, len, rs[k as int]));
    }
}

/// At the first renewal share that does not fit, not every renewal share fits.
proof fn lemma_renew_error_witness(rs: Seq<Share>, k: nat, x: u8, len: nat, share_x: GF256)
    requires
        k < rs.len(),
        share_x.0 == x,
        forall|j: int| 0 <= j < k ==> renewal_fits(x, len, #[trigger] rs[j]),
        !renewal_fits(x, len, rs[k as int]),
    ensures
        forall|j: int| 0 <= j < k ==> (#[trigger] rs[j]).y@.len() == len && rs[j].x == share_x,
        rs[k as int].y@.len() != len || rs[k as int].x != share_x,
        !(forall|j: int| 0 <= j < rs.len() ==> (#[trigger] rs[j]).y@.len() == len && rs[j].x == share_x),
{
    assert forall|j: int| 0 <= j < k implies (#[trigger] rs[j]).y@.len() == len && rs[j].x == share_x by {
        assert(renewal_fits(x, len, rs[j]));
    }
}

impl Share {
    /// Renews this share with the renewal shares that the other players dealt for it,
    /// following the proactive secret sharing protocol of Herzberg et al. (1995).
    ///
    /// The renewal shares are added one after another. The first one whose length differs
    /// from this share's fails with "All shares must have the same length"; the first one
    /// at another `x` fails with "Invalid renewal share supplied". The renewal shares before
    /// the failing one have already been added when the error is returned.
    pub fn renew(&mut self, renewal_shares: &[&Share]) -> (r: Result<(), &'static str>)
        ensures
            final(self).x == old(self).x,
            final(self).y_bytes() == add_renewals(
                old(self).y_bytes(),
                renewal_shares@.map_values(|s: &Share| *s),
                fitting_prefix(old(self).x.0, old(self).y@.len(), renewal_shares@.map_values(|s: &Share| *s)),
            ),
            ({
                let rs = renewal_shares@.map_values(|s: &Share| *s);
                let k = fitting_prefix(old(self).x.0, old(self).y@.len(), rs);
                &&& r is Ok <==> k == rs.len()
                &&& k < rs.len() && rs[k as int].y@.len() != old(self).y@.len() ==> (r matches Err(e)
                    && e@ == "All shares must have the same length"@)
                &&& k < rs.len() && rs[k as int].y@.len() == old(self).y@.len() ==> (r matches Err(e)
                    && e@ == "Invalid renewal share supplied"@)
            }),
            // the same, stated over the renewal shares directly
            ({
                let rs = renewal_shares@.map_values(|s: &Share| *s);
                &&& r is Ok <==> forall|j: int| 0 <= j < rs.len() ==> (#[trigger] rs[j]).y@.len()
                    == old(self).y@.len() && rs[j].x == old(self).x
                &&& exists|k: nat| {
                    &&& k <= rs.len()
                    &&& (k < rs.len() <==> r is Err)
                    &&& forall|j: int| 0 <= j < k ==> (#[trigger] rs[j]).y@.len() == old(self).y@.len()
                        && rs[j].x == old(self).x
                    &&& k < rs.len() ==> (rs[k as int].y@.len() != old(self).y@.len() || rs[k as int].x
                        != old(self).x)
                    &&& final(self).y_bytes() == add_renewals(old(self).y_bytes(), rs, k)
                }
            }),
    {
        let ghost rs = renewal_shares@.map_values(|s: &Share| *s);
        let ghost x0 = self.x.0;
        let ghost y0 = self.y_bytes();
        let share_length = self.y.len();
        let mut idx: usize = 0;
        while idx < renewal_shares.len()
            invariant
                0 <= idx <= renewal_shares.len(),
                rs == renewal_shares@.map_values(|s: &Share| *s),
                self.x.0 == x0,
                self.x == old(self).x,
                x0 == old(self).x.0,
                y0 == old(self).y_bytes(),
                share_length == old(self).y@.len(),
                self.y@.len() == share_length,
                forall|j: int| 0 <= j < idx ==> renewal_fits(x0, share_length as nat, #[trigger] rs[j]),
                self.y_bytes() == add_renewals(y0, rs, idx as nat),
            decreases renewal_shares.len() - idx,
        {
            let renewal_share = renewal_shares[idx];
            assert(rs[idx as int] == *renewal_share);
            if renewal_share.y.len() != share_length {
                proof {
                    lemma_fitting_prefix_is_first_misfit(x0, share_length as nat, rs, idx as nat);
                    lemma_renew_error_witness(rs, idx as nat, x0, share_length as nat, old(self).x);
                }
                return Err("All shares must have the same length");
            } else if renewal_share.x != self.x {
                proof {
                    lemma_fitting_prefix_is_first_misfit(x0, share_length as nat, rs, idx as nat);
                    lemma_renew_error_witness(rs, idx as nat, x0, share_length as nat, old(self).x);
                }
                return Err("Invalid renewal share supplied");
            } else {
                let ghost before = self.y_bytes();
                let mut b: usize = 0;
                while b < share_length
                    invariant
                        0 <= b <= share_length,
                        self.x == old(self).x,
                        self.x.0 == x0,
                        renewal_share.y@.len() == share_length,
                        self.y@.len() == share_length,
                        before.len() == share_length,
                        forall|c: int| 0 <= c < b ==> #[trigger] self.y@[c].0 == before[c] ^ renewal_share.y@[c].0,
                        forall|c: int| b <= c < share_length ==> #[trigger] self.y@[c].0 == before[c],
                    decreases share_length - b,
                {
                    let v = self.y[b].plus(renewal_share.y[b]);
                    self.y[b] = v;
                    b = b + 1;
                }
                proof {
                    lemma_add_renewals_len(y0, rs, idx as nat);
                    assert(self.y_bytes() =~= add_renewals(y0, rs, (idx + 1) as nat));
                }
                idx = idx + 1;
            }
        }
        proof {
            lemma_fitting_prefix_is_first_misfit(x0, share_length as nat, rs, idx as nat);
            assert forall|j: int| 0 <= j < rs.len() implies (#[trigger] rs[j]).y@.len() == old(self).y@.len()
                && rs[j].x == old(self).x by {
                assert(renewal_fits(x0, share_length as nat, rs[j]));
            }
            assert(add_renewals(y0, rs, idx as nat) == add_renewals(y0, rs, rs.len()));
        }
        Ok(())
    }
}

/// Whether two lists of field elements are equal.
pub(crate) fn same_values(a: &Vec<GF256>, b: &Vec<GF256>) -> (same: bool)
    ensures
        same == (a@ == b@),
{
    if a.len() != b.len() {
        return false;
    }
    let mut i: usize = 0;
    while i < a.len()
        invariant
            a@.len() == b@.len(),
            0 <= i <= a@.len(),
            forall|k: int| 0 <= k < i ==> #[trigger] a@[k] == b@[k],
        decreases a@.len() - i,
    {
        if a[i] != b[i] {
            return false;
        }
        i = i + 1;
    }
    proof {
        assert(a@ =~= b@);
    }
    true
}

impl Share {
    /// A copy of this share.
    pub(crate) fn copy(&self) -> (c: Share)
        ensures
            c.x == self.x,
            c.y@ == self.y@,
    {
        let mut y: Vec<GF256> = Vec::new();
        let mut i: usize = 0;
        while i < self.y.len()
            invariant
                0 <= i <= self.y@.len(),
                y@ == self.y@.take(i as int),
            decreases self.y@.len() - i,
        {
            y.push(self.y[i]);
            proof {
                assert(self.y@.take(i + 1) =~= self.y@.take(i as int).push(self.y@[i as int]));
            }
            i = i + 1;
        }
        proof {
            assert(self.y@.take(self.y@.len() as int) =~= self.y@);
        }
        Share { x: self.x, y }
    }
}

// ---------------------------------------------------------------------------
// Byte encoding

impl Share {
    /// The byte encoding of this share: `x` followed by the bytes of `y`.
    pub fn to_bytes(&self) -> (bytes: Vec<u8>)
        ensures
            bytes@ == self.encoding(),
            bytes@.len() == self.y@.len() + 1,
            bytes@[0] == self.x.0,
            forall|i: int| 0 <= i < self.y@.len() ==> bytes@[i + 1] == (#[trigger] self.y@[i]).0,
    {
        let mut bytes: Vec<u8> = Vec::new();
        bytes.push(self.x.0);
        let mut i: usize = 0;
        while i < self.y.len()
            invariant
                0 <= i <= self.y@.len(),
                bytes@ == seq![self.x.0] + self.y_bytes().take(i as int),
            decreases self.y@.len() - i,
        {
            bytes.push(self.y[i].0);
            proof {
                assert(self.y_bytes().take(i + 1) =~= self.y_bytes().take(i as int).push(self.y@[i as int].0));
            }
            i = i + 1;
        }
        proof {
            assert(self.y_bytes().take(self.y@.len() as int) =~= self.y_bytes());
            assert forall|i: int| 0 <= i < self.y@.len() implies bytes@[i + 1] == (#[trigger] self.y@[i]).0 by {
                assert(bytes@[i + 1] == self.y_bytes()[i]);
            }
        }
        bytes
    }

    /// Reads a share from its byte encoding. Fails with "A Share must be at least 2 bytes
    /// long" on fewer than two bytes.
    pub fn from_bytes(s: &[u8]) -> (r: Result<Share, &'static str>)
        ensures
            r is Ok <==> s@.len() >= 2,
            r matches Ok(share) ==> share.encoding() == s@,
            r matches Ok(share) ==> share.x.0 == s@[0] && share.y@.len() == s@.len() - 1
                && forall|i: int| 0 <= i < share.y@.len() ==> (#[trigger] share.y@[i]).0 == s@[i + 1],
            r matches Err(e) ==> e@ == "A Share must be at least 2 bytes long"@,
    {
        if s.len() < 2 {
            Err("A Share must be at least 2 bytes long")
        } else {
            let x = GF256(s[0]);
            let mut y: Vec<GF256> = Vec::new();
            let mut i: usize = 1;
            while i < s.len()
                invariant
                    1 <= i <= s@.len(),
                    field_bytes(y@) == s@.subrange(1, i as int),
                decreases s@.len() - i,
            {
                y.push(GF256(s[i]));
                proof {
                    assert(s@.subrange(1, i + 1) =~= s@.subrange(1, i as int).push(s@[i as int]));
                    assert(field_bytes(y@) =~= field_bytes(y@.drop_last()).push(s@[i as int]));
                }
                i = i + 1;
            }
            let share = Share { x, y };
            proof {
                assert(share.encoding() =~= s@);
                assert forall|i: int| 0 <= i < share.y@.len() implies (#[trigger] share.y@[i]).0 == s@[i + 1] by {
                    assert(share.encoding()[i + 1] == share.y_bytes()[i]);
                }
            }
            Ok(share)
        }
    }
}

/// Obtains a byte vector from a `Share` instance.
impl From<&Share> for Vec<u8> {
    fn from(s: &Share) -> (bytes: Vec<u8>)
        ensures
            bytes@ == s.encoding(),
            bytes@.len() == s.y@.len() + 1,
            bytes@[0] == s.x.0,
            forall|i: int| 0 <= i < s.y@.len() ==> bytes@[i + 1] == (#[trigger] s.y@[i]).0,
    {
        s.to_bytes()
    }
}

/// A `Vec` is not determined by its contents alone, so no spec value stands for the
/// conversion; `Share::to_bytes` states what it returns.
impl vstd::std_specs::convert::FromSpecImpl<&Share> for Vec<u8> {
    open spec fn obeys_from_spec() -> bool {
        false
    }

    open spec fn from_spec(s: &Share) -> Vec<u8> {
        arbitrary()
    }
}

/// Obtains a `Share` instance from a byte slice.
impl core::convert::TryFrom<&[u8]> for Share {
    type Error = &'static str;

    fn try_from(s: &[u8]) -> (r: Result<Share, &'static str>)
        ensures
            r is Ok <==> s@.len() >= 2,
            r matches Ok(share) ==> share.encoding() == s@,
            r matches Ok(share) ==> share.x.0 == s@[0] && share.y@.len() == s@.len() - 1
                && forall|i: int| 0 <= i < share.y@.len() ==> (#[trigger] share.y@[i]).0 == s@[i + 1],
            r matches Err(e) ==> e@ == "A Share must be at least 2 bytes long"@,
    {
        Share::from_bytes(s)
    }
}

/// A `Share` holds a `Vec`, which no spec value pins down; `Share::from_bytes` states what
/// the conversion returns.
impl vstd::std_specs::convert::TryFromSpecImpl<&[u8]> for Share {
    open spec fn obeys_try_from_spec() -> bool {
        false
    }

    open spec fn try_from_spec(s: &[u8]) -> Result<Share, &'static str> {
        if s@.len() < 2 {
            Err("A Share must be at least 2 bytes long")
        } else {
            Ok(arbitrary())
        }
    }
}

} // verus!
