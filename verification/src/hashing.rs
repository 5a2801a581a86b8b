//! Content hashing: a 128-bit SipHash-1-3 fingerprint of the canonical
//! JSON byte form. Two documents that are equal up to the order of object
//! members receive the same hash.

use crate::json::{
    canonicalize, is_canon, lemma_content_address_determinism, ser_spec, serialize, similar, wf,
    JsonValue,
};
use siphasher::sip128::{Hasher128, SipHasher13};
use vstd::prelude::*;

verus! {

/// What the 128-bit SipHash-1-3 digest of a byte string is. The digest is
/// computed by the `siphasher` crate and depends on the bytes alone.
pub uninterp spec fn sip_hash_of(bytes: Seq<u8>) -> u128;

/// Relies on siphasher's `SipHasher13` with `finish128`: the digest is a
/// function of the written bytes alone.
#[verifier::external_body]
fn sip128(bytes: &Vec<u8>) -> (r: u128)
    ensures
        r == sip_hash_of(bytes@),
{
    let mut hasher = SipHasher13::new();
    std::hash::Hasher::write(&mut hasher, bytes.as_slice());
    hasher.finish128().as_u128()
}

/// A writer that accumulates everything written to it, so that the digest
/// of the whole stream can be taken at the end.
pub struct HashingWriter {
    buf: Vec<u8>,
}

impl View for HashingWriter {
    type V = Seq<u8>;

    closed spec fn view(&self) -> Seq<u8> {
        self.buf@
    }
}

impl HashingWriter {
    pub fn new() -> (r: HashingWriter)
        ensures
            r@ == Seq::<u8>::empty(),
    {
        HashingWriter { buf: Vec::new() }
    }

    /// Append a chunk; the whole chunk is always accepted.
    pub fn write(&mut self, chunk: &[u8]) -> (n: usize)
        ensures
            final(self)@ == old(self)@ + chunk@,
            n == chunk@.len(),
    {
        self.buf.extend_from_slice(chunk);
        chunk.len()
    }

    /// Nothing is buffered anywhere else, so flushing changes nothing.
    pub fn flush(&mut self)
        ensures
            final(self)@ == old(self)@,
    {
    }

    /// The digest of everything written so far.
    pub fn finish128(self) -> (r: u128)
        ensures
            r == sip_hash_of(self@),
    {
        sip128(&self.buf)
    }
}

/// Canonicalize, serialize and hash a document. Returns the content hash
/// together with the canonical form whose serialization is stored.
pub fn json_hash(value: JsonValue) -> (r: (u128, JsonValue))
    requires
        wf(value),
    ensures
        is_canon(r.1),
        similar(r.1, value),
        r.0 == sip_hash_of(ser_spec(r.1)),
{
    let canon = canonicalize(value);
    let bytes = serialize(&canon);
    let h = sip128(&bytes);
    (h, canon)
}

/// Content-address determinism: documents that are equal up to reordering
/// of object members have canonical forms with identical payload bytes,
/// and therefore identical content hashes.
pub proof fn lemma_content_hash_deterministic(
    j1: JsonValue,
    j2: JsonValue,
    c1: JsonValue,
    c2: JsonValue,
)
    requires
        similar(j1, j2),
        is_canon(c1),
        similar(c1, j1),
        is_canon(c2),
        similar(c2, j2),
    ensures
        ser_spec(c1) == ser_spec(c2),
        sip_hash_of(ser_spec(c1)) == sip_hash_of(ser_spec(c2)),
{
    lemma_content_address_determinism(j1, j2, c1, c2);
}

} // verus!
