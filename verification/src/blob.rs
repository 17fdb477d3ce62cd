//! Blob objects: raw file bytes wrapped as an object payload.

use vstd::prelude::*;

use crate::codec::frame;
use crate::codec::frame_spec;
use crate::codec::ObjectKind;
use crate::oid::hash_hex;
use crate::oid::hex_of;
use crate::oid::sha1_of;

verus! {

/// The hex identifier a blob payload hashes to: the digest of the
/// canonical bytes, never of the payload alone and never of any
/// compressed form.
pub open spec fn blob_id_spec(contents: Seq<u8>) -> Seq<char> {
    hex_of(sha1_of(frame_spec(ObjectKind::Blob, contents)))
}

/// A blob: the bytes of one tracked file, held opaquely. The payload is
/// a byte sequence with no text interpretation, since tracked files need
/// not be valid text.
#[derive(Debug)]
pub struct Blob {
    pub contents: Vec<u8>,
}

impl Blob {
    /// Wraps file bytes as a blob payload. Reading the file itself is the
    /// caller's concern; the object layer only ever sees bytes.
    pub fn new(contents: Vec<u8>) -> (b: Blob)
        ensures
            b.contents@ == contents@,
    {
        Blob { contents }
    }

    /// The canonical bytes: `"blob <len>\0"` followed by the payload,
    /// with the length recomputed from the payload on every call.
    pub fn get_bytes(&self) -> (r: Vec<u8>)
        ensures
            r@ == frame_spec(ObjectKind::Blob, self.contents@),
    {
        frame(ObjectKind::Blob, self.contents.as_slice())
    }

    /// The hex identifier of this blob: the hash of its canonical bytes.
    pub fn compute_hash(&self) -> (r: String)
        ensures
            r@ == blob_id_spec(self.contents@),
            r@.len() == 40,
    {
        let canonical = self.get_bytes();
        hash_hex(canonical.as_slice())
    }
}

/// Hashing is deterministic: identical payloads always map to the
/// identical object identifier, across repeated runs and across
/// processes, since the identifier is a pure function of the payload.
pub proof fn lemma_blob_hash_deterministic(a: Seq<u8>, b: Seq<u8>)
    requires
        a == b,
    ensures
        blob_id_spec(a) == blob_id_spec(b),
{
}

} // verus!
