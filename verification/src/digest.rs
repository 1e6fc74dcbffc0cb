//! Content fingerprints.
//!
//! A digest is the fixed-size BLAKE2b fingerprint of a file's byte content.
//! Digest equality is treated as proof of identical content; the collision
//! probability of a 32-byte cryptographic hash is considered negligible.

use vstd::prelude::*;
use crate::bytes::bytes_eq;
use crate::bytes::copy_bytes;

verus! {

/// The 32-byte BLAKE2b fingerprint of a byte sequence.  The hash itself is
/// computed by an outside crate; this name stands for its result, which
/// depends on the input bytes alone.
pub uninterp spec fn blake2b_of(data: Seq<u8>) -> Seq<u8>;

/// Relies on blake2_rfc::blake2b::blake2b with digest length 32 and no key:
/// the result is a function of the input bytes alone, and `as_bytes` yields
/// exactly the 32 bytes asked for.
#[verifier::external_body]
fn blake2b256(data: &Vec<u8>) -> (r: Vec<u8>)
    ensures
        r@ == blake2b_of(data@),
        r@.len() == 32,
{
    blake2_rfc::blake2b::blake2b(32, &[], data.as_slice())
        .as_bytes()
        .to_vec()
}

/// A fixed-size content fingerprint.
pub struct Digest {
    pub bytes: Vec<u8>,
}

impl View for Digest {
    type V = Seq<u8>;

    open spec fn view(&self) -> Seq<u8> {
        self.bytes@
    }
}

impl Digest {
    /// A digest is well formed when it holds exactly 32 bytes.
    pub open spec fn wf(&self) -> bool {
        self.bytes@.len() == 32
    }

    /// Returns whether the two digests are equal, byte for byte.
    pub fn same(&self, other: &Digest) -> (r: bool)
        ensures
            r == (self@ == other@),
    {
        bytes_eq(&self.bytes, &other.bytes)
    }

    /// Returns a fresh digest holding the same bytes.
    pub fn duplicate(&self) -> (d: Digest)
        ensures
            d@ == self@,
    {
        Digest { bytes: copy_bytes(&self.bytes) }
    }
}

/// Computes the digest of a file's full byte content.
pub fn compute_digest(content: &Vec<u8>) -> (d: Digest)
    ensures
        d@ == blake2b_of(content@),
        d.wf(),
{
    Digest { bytes: blake2b256(content) }
}

/// Files with identical byte content have equal digests: the fingerprint is
/// a function of the content alone.
pub proof fn lemma_equal_content_equal_digest(a: Seq<u8>, b: Seq<u8>)
    requires
        a == b,
    ensures
        blake2b_of(a) == blake2b_of(b),
{
}

} // verus!
