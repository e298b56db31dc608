//! Content fingerprints: a `Blob` is the 32-byte blake3 digest of a byte
//! sequence, the identity by which every stored object is addressed.
use vstd::prelude::*;

use crate::order::{bytes_eq, bytes_less, bytes_lt};

verus! {

/// Number of bytes in a fingerprint digest.
pub const DIGEST_LEN: usize = 32;

/// The digest of a byte sequence. Two calls on equal inputs yield equal
/// digests, in every process: the digest is a function of the bytes alone.
pub uninterp spec fn digest_of(bytes: Seq<u8>) -> Seq<u8>;

/// Relies on blake3::hash: a 32-byte digest that depends on the input bytes
/// alone.
#[verifier::external_body]
fn blake3_digest(bytes: &[u8]) -> (r: Vec<u8>)
    ensures
        r@ == digest_of(bytes@),
        r@.len() == DIGEST_LEN,
{
    blake3::hash(bytes).as_bytes().to_vec()
}

/// A content fingerprint: the raw digest bytes.
#[derive(Debug)]
pub struct Blob(pub Vec<u8>);

impl View for Blob {
    type V = Seq<u8>;

    open spec fn view(&self) -> Seq<u8> {
        self.0@
    }
}

/// A well-formed fingerprint holds exactly one digest's worth of bytes.
pub open spec fn blob_wf(b: Blob) -> bool {
    b@.len() == DIGEST_LEN
}

impl Clone for Blob {
    fn clone(&self) -> (r: Self)
        ensures
            r@ == self@,
    {
        let mut v: Vec<u8> = Vec::new();
        let n = self.0.len();
        let mut i: usize = 0;
        while i < n
            invariant
                0 <= i <= n,
                self.0@.len() == n,
                v@ =~= self.0@.take(i as int),
            decreases n - i,
        {
            v.push(self.0[i]);
            i = i + 1;
        }
        proof {
            assert(v@ =~= self.0@);
        }
        Blob(v)
    }
}

impl PartialEq for Blob {
    fn eq(&self, other: &Self) -> (r: bool) {
        bytes_eq(self.0.as_slice(), other.0.as_slice())
    }
}

impl Eq for Blob {}

impl vstd::std_specs::cmp::PartialEqSpecImpl for Blob {
    open spec fn obeys_eq_spec() -> bool {
        true
    }

    open spec fn eq_spec(&self, other: &Blob) -> bool {
        self@ == other@
    }
}

impl Blob {
    /// Fingerprints a byte sequence.
    pub fn of_bytes(bytes: &[u8]) -> (r: Blob)
        ensures
            r@ == digest_of(bytes@),
            blob_wf(r),
    {
        Blob(blake3_digest(bytes))
    }

    /// Strict order over the raw digest bytes.
    pub fn lt(&self, other: &Blob) -> (r: bool)
        ensures
            r == bytes_lt(self@, other@),
    {
        bytes_less(self.0.as_slice(), other.0.as_slice())
    }
}

/// The fingerprint function is deterministic: any two digests of the same
/// byte sequence are equal.
pub proof fn lemma_fingerprint_deterministic(bytes: Seq<u8>, d1: Seq<u8>, d2: Seq<u8>)
    requires
        d1 == digest_of(bytes),
        d2 == digest_of(bytes),
    ensures
        d1 == d2,
{
}

} // verus!
