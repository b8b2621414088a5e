//! Fixed-width content fingerprints and the order-independent combiner.
//!
//! A node's fingerprint is an md5 digest; fingerprints of a subtree are
//! merged with byte-wise addition modulo 256, a commutative and associative
//! operator, so that a parent's accumulated fingerprint does not depend on
//! the order of its children.

use vstd::prelude::*;

verus! {

use vstd::arithmetic::div_mod::lemma_add_mod_noop;

/// Number of bytes in a content fingerprint: the width of an md5 digest.
pub const DIGEST_WIDTH: usize = 16;

/// What `md5::compute` returns for a given sequence of characters (the
/// digest of their UTF-8 encoding): a fixed function of the characters
/// alone. Its value is never spelled out here; the library only depends on
/// equal inputs giving equal digests.
pub uninterp spec fn md5_of(s: Seq<char>) -> Seq<u8>;

/// Pads or cuts a byte sequence to exactly `DIGEST_WIDTH` bytes, so that
/// specification-level fingerprints always have a known width. Applied to a
/// real md5 digest (16 bytes) it is the identity.
pub open spec fn fit_width(s: Seq<u8>) -> Seq<u8> {
    Seq::new(DIGEST_WIDTH as nat, |i: int| if 0 <= i < s.len() { s[i] } else { 0u8 })
}

pub proof fn lemma_fit_width_id(s: Seq<u8>)
    requires
        s.len() == DIGEST_WIDTH,
    ensures
        fit_width(s) == s,
{
    assert(fit_width(s) =~= s);
}

/// The all-zero digest: the neutral element of `combine`.
pub open spec fn zero_digest() -> Seq<u8> {
    Seq::new(DIGEST_WIDTH as nat, |i: int| 0u8)
}

/// Byte-wise addition modulo 256: the order-independent combiner for
/// accumulated fingerprints. Commutative and associative on digests of
/// equal width.
pub open spec fn combine(a: Seq<u8>, b: Seq<u8>) -> Seq<u8> {
    Seq::new(a.len(), |i: int| ((a[i] + b[i]) % 256) as u8)
}

pub proof fn lemma_combine_zero(a: Seq<u8>)
    requires
        a.len() == DIGEST_WIDTH,
    ensures
        combine(a, zero_digest()) == a,
{
    assert(combine(a, zero_digest()) =~= a);
}

pub proof fn lemma_combine_comm(a: Seq<u8>, b: Seq<u8>)
    requires
        a.len() == b.len(),
    ensures
        combine(a, b) == combine(b, a),
{
    assert(combine(a, b) =~= combine(b, a));
}

proof fn lemma_mod_add_three(x: int, y: int, z: int)
    requires
        0 <= x < 256,
        0 <= y < 256,
        0 <= z < 256,
    ensures
        ((x + y) % 256 + z) % 256 == (x + (y + z) % 256) % 256,
{
    lemma_add_mod_noop(x + y, z, 256);
    lemma_add_mod_noop(x, y + z, 256);
}

pub proof fn lemma_combine_assoc(a: Seq<u8>, b: Seq<u8>, c: Seq<u8>)
    requires
        a.len() == b.len(),
        b.len() == c.len(),
    ensures
        combine(combine(a, b), c) == combine(a, combine(b, c)),
{
    assert forall|i: int| 0 <= i < a.len() implies combine(combine(a, b), c)[i] == combine(
        a,
        combine(b, c),
    )[i] by {
        lemma_mod_add_three(a[i] as int, b[i] as int, c[i] as int);
        assert(combine(combine(a, b), c)[i] == ((combine(a, b)[i] + c[i]) % 256) as u8);
        assert(combine(a, combine(b, c))[i] == ((a[i] + combine(b, c)[i]) % 256) as u8);
    }
    assert(combine(combine(a, b), c) =~= combine(a, combine(b, c)));
}

/// Every digest in the sequence has the fixed width.
pub open spec fn all_width(ds: Seq<Seq<u8>>) -> bool {
    forall|k: int| 0 <= k < ds.len() ==> (#[trigger] ds[k]).len() == DIGEST_WIDTH
}

/// The combined sum of a sequence of digests. Because `combine` is
/// commutative and associative, the sum depends only on the multiset of
/// digests (`lemma_digest_sum_permuted`).
pub open spec fn digest_sum(ds: Seq<Seq<u8>>) -> Seq<u8>
    decreases ds.len(),
{
    if ds.len() == 0 {
        zero_digest()
    } else {
        combine(ds.first(), digest_sum(ds.drop_first()))
    }
}

pub proof fn lemma_digest_sum_width(ds: Seq<Seq<u8>>)
    requires
        all_width(ds),
    ensures
        digest_sum(ds).len() == DIGEST_WIDTH,
    decreases ds.len(),
{
    if ds.len() > 0 {
        lemma_digest_sum_width(ds.drop_first());
    }
}

/// Summing a sequence of digests equals combining any one element with the
/// sum of the others.
pub proof fn lemma_digest_sum_remove(ds: Seq<Seq<u8>>, j: int)
    requires
        all_width(ds),
        0 <= j < ds.len(),
    ensures
        digest_sum(ds) == combine(ds[j], digest_sum(ds.remove(j))),
    decreases ds.len(),
{
    if j == 0 {
        assert(ds.remove(0) =~= ds.drop_first());
    } else {
        let rest = ds.drop_first();
        assert(all_width(rest));
        lemma_digest_sum_remove(rest, j - 1);
        assert(ds.remove(j).drop_first() =~= rest.remove(j - 1));
        assert(ds.remove(j).first() == ds[0]);
        let x = digest_sum(rest.remove(j - 1));
        lemma_digest_sum_width(rest.remove(j - 1));
        lemma_combine_assoc(ds[0], ds[j], x);
        lemma_combine_comm(ds[0], ds[j]);
        lemma_combine_assoc(ds[j], ds[0], x);
    }
}

/// The digest sum is a function of the multiset of digests alone: permuting
/// them never changes the sum.
pub proof fn lemma_digest_sum_permuted(a: Seq<Seq<u8>>, b: Seq<Seq<u8>>)
    requires
        all_width(a),
        a.to_multiset() == b.to_multiset(),
    ensures
        digest_sum(a) == digest_sum(b),
    decreases a.len(),
{
    broadcast use vstd::seq_lib::group_to_multiset_ensures;

    assert forall|k: int| 0 <= k < b.len() implies (#[trigger] b[k]).len() == DIGEST_WIDTH by {
        assert(b.to_multiset().count(b[k]) > 0);
        assert(a.contains(b[k]));
    }
    if a.len() == 0 {
        assert(a.to_multiset().len() == 0);
        assert(b.to_multiset().len() == b.len());
        assert(b.len() == 0);
    } else {
        let x = a[0];
        assert(a.to_multiset().count(x) > 0);
        assert(b.contains(x));
        let j = choose|j: int| 0 <= j < b.len() && b[j] == x;
        lemma_digest_sum_remove(b, j);
        assert(a.remove(0) =~= a.drop_first());
        assert(a.drop_first().to_multiset() == a.to_multiset().remove(x));
        assert(b.remove(j).to_multiset() == b.to_multiset().remove(x));
        lemma_digest_sum_permuted(a.drop_first(), b.remove(j));
    }
}

/// A fixed-width content fingerprint of one node or of a whole subtree.
pub struct Digest {
    bytes: Vec<u8>,
}

impl View for Digest {
    type V = Seq<u8>;

    closed spec fn view(&self) -> Seq<u8> {
        self.bytes@
    }
}

impl Digest {
    /// A digest always holds exactly `DIGEST_WIDTH` bytes.
    pub open spec fn wf(&self) -> bool {
        self@.len() == DIGEST_WIDTH
    }

    /// The all-zero digest.
    pub fn zero() -> (r: Digest)
        ensures
            r@ == zero_digest(),
            r.wf(),
    {
        let mut bytes: Vec<u8> = Vec::new();
        let mut i: usize = 0;
        while i < DIGEST_WIDTH
            invariant
                i <= DIGEST_WIDTH,
                bytes@.len() == i,
                forall|j: int| 0 <= j < i ==> bytes@[j] == 0u8,
            decreases DIGEST_WIDTH - i,
        {
            bytes.push(0u8);
            i += 1;
        }
        proof {
            assert(bytes@ =~= zero_digest());
        }
        Digest { bytes }
    }

    /// A copy holding the same bytes.
    pub fn duplicate(&self) -> (r: Digest)
        ensures
            r@ == self@,
    {
        let mut bytes: Vec<u8> = Vec::new();
        let mut i: usize = 0;
        while i < self.bytes.len()
            invariant
                i <= self@.len(),
                bytes@.len() == i,
                forall|j: int| 0 <= j < i ==> bytes@[j] == self@[j],
            decreases self@.len() - i,
        {
            bytes.push(self.bytes[i]);
            i += 1;
        }
        proof {
            assert(bytes@ =~= self@);
        }
        Digest { bytes }
    }

    /// True exactly when the two digests hold the same bytes.
    pub fn equals(&self, other: &Digest) -> (r: bool)
        ensures
            r == (self@ == other@),
    {
        if self.bytes.len() != other.bytes.len() {
            return false;
        }
        let mut i: usize = 0;
        while i < self.bytes.len()
            invariant
                i <= self@.len(),
                self@.len() == other@.len(),
                forall|j: int| 0 <= j < i ==> self@[j] == other@[j],
            decreases self@.len() - i,
        {
            if self.bytes[i] != other.bytes[i] {
                return false;
            }
            i += 1;
        }
        proof {
            assert(self@ =~= other@);
        }
        true
    }

    /// Merges another digest into this one with the order-independent
    /// combiner: byte-wise addition modulo 256.
    pub fn concat(self, other: &Digest) -> (r: Digest)
        requires
            self.wf(),
            other.wf(),
        ensures
            r@ == combine(self@, other@),
            r.wf(),
    {
        let ghost a = self@;
        let ghost b = other@;
        let mut bytes = self.bytes;
        let mut i: usize = 0;
        while i < bytes.len()
            invariant
                i <= bytes@.len(),
                bytes@.len() == a.len(),
                a.len() == DIGEST_WIDTH,
                b.len() == DIGEST_WIDTH,
                other@ == b,
                forall|j: int| 0 <= j < i ==> bytes@[j] == combine(a, b)[j],
                forall|j: int| i <= j < a.len() ==> bytes@[j] == a[j],
            decreases bytes@.len() - i,
        {
            let s: u16 = bytes[i] as u16 + other.bytes[i] as u16;
            bytes[i] = (s % 256) as u8;
            i += 1;
        }
        proof {
            assert(bytes@ =~= combine(a, b));
        }
        Digest { bytes }
    }
}

/// Relies on `md5::compute`: the digest has 16 bytes and depends on the
/// input characters alone.
#[verifier::external_body]
pub(crate) fn md5_string(s: &str) -> (r: Digest)
    ensures
        r@ == md5_of(s@),
        r.wf(),
{
    Digest { bytes: md5::compute(s).0.to_vec() }
}

} // verus!
