//! The loose object store: compressed canonical bytes keyed by the hash
//! of those very bytes.
//!
//! Because object keys are content hashes, writing an object whose key
//! is already present is a no-op, never an error: the bytes stored under
//! that key already decompress to the same canonical content. The store
//! here keeps the objects in memory; putting each compressed object into
//! a file at the identifier's shard path is the thin disk mirror of the
//! same rules.

use vstd::prelude::*;

use crate::codec::frame;
use crate::codec::frame_spec;
use crate::codec::spec_parse_object;
use crate::codec::ObjectKind;
use crate::errors::GitError;
use crate::oid::sha1_of;
use crate::oid::ObjectId;
use crate::tree::spec_parse_tree;
use crate::tree::lemma_parse_tree_valid;
use crate::tree::Tree;

verus! {

/// What the deflate encoder emits for an input at best compression: a
/// pure byte-to-byte transform of the input alone, identical across runs.
pub uninterp spec fn deflate_of(data: Seq<u8>) -> Seq<u8>;

/// What the zlib decoder recovers from an input: the stream that was
/// compressed, or nothing for malformed input; a pure function of the
/// input bytes alone.
pub uninterp spec fn inflate_of(data: Seq<u8>) -> Option<Seq<u8>>;

/// Relies on flate2's `bufread::ZlibEncoder` at `Compression::best`:
/// compressing an in-memory slice always succeeds and yields the zlib
/// stream for exactly the input bytes, which the zlib decoder inverts.
#[verifier::external_body]
fn zlib_compress(data: &[u8]) -> (r: Vec<u8>)
    ensures
        r@ == deflate_of(data@),
        inflate_of(r@) == Some(data@),
{
    let mut z = flate2::bufread::ZlibEncoder::new(data, flate2::Compression::best());
    let mut buf = Vec::new();
    std::io::Read::read_to_end(&mut z, &mut buf).expect("compressing into memory cannot fail");
    buf
}

/// Relies on flate2's `bufread::ZlibDecoder`: recovers the compressed
/// stream, or reports an error on malformed input, deterministically in
/// the input bytes; it never silently truncates.
#[verifier::external_body]
fn zlib_decompress(data: &[u8]) -> (r: Option<Vec<u8>>)
    ensures
        match (r, inflate_of(data@)) {
            (Some(v), Some(s)) => v@ == s,
            (None, None) => true,
            _ => false,
        },
{
    let mut z = flate2::bufread::ZlibDecoder::new(data);
    let mut buf = Vec::new();
    match std::io::Read::read_to_end(&mut z, &mut buf) {
        Ok(_) => Some(buf),
        Err(_) => None,
    }
}

/// Compresses canonical bytes for storage, at maximum compression.
pub fn encode_writer(data: &[u8]) -> (r: Vec<u8>)
    ensures
        r@ == deflate_of(data@),
        inflate_of(r@) == Some(data@),
{
    zlib_compress(data)
}

/// Decompresses stored bytes back into canonical bytes. Malformed input
/// fails explicitly as a corrupt object; it is never silently truncated.
pub fn decode_reader_bytes(data: &[u8]) -> (r: Result<Vec<u8>, GitError>)
    ensures
        match (r, inflate_of(data@)) {
            (Ok(v), Some(s)) => v@ == s,
            (Err(e), None) => e == GitError::CorruptObject,
            _ => false,
        },
{
    match zlib_decompress(data) {
        Some(v) => Ok(v),
        None => Err(GitError::CorruptObject),
    }
}

/// The map a stored entry list denotes: raw identifier bytes to the
/// compressed bytes kept under them.
pub open spec fn store_map(entries: Seq<(ObjectId, Vec<u8>)>) -> Map<Seq<u8>, Seq<u8>>
    decreases entries.len(),
{
    if entries.len() == 0 {
        Map::empty()
    } else {
        store_map(entries.drop_last()).insert(entries.last().0@, entries.last().1@)
    }
}

/// A key is in the map exactly when some entry carries it.
proof fn lemma_store_map_contains(entries: Seq<(ObjectId, Vec<u8>)>, k: Seq<u8>)
    ensures
        store_map(entries).contains_key(k) <==> exists|i: int|
            0 <= i < entries.len() && #[trigger] entries[i].0@ == k,
    decreases entries.len(),
{
    if entries.len() > 0 {
        lemma_store_map_contains(entries.drop_last(), k);
        if store_map(entries).contains_key(k) && entries.last().0@ != k {
            let i = choose|i: int|
                0 <= i < entries.drop_last().len() && #[trigger] entries.drop_last()[i].0@ == k;
            assert(entries[i].0@ == k);
        }
        if exists|i: int| 0 <= i < entries.len() && #[trigger] entries[i].0@ == k {
            let i = choose|i: int| 0 <= i < entries.len() && #[trigger] entries[i].0@ == k;
            if i < entries.len() - 1 {
                assert(entries.drop_last()[i].0@ == k);
            }
        }
    }
}

/// With distinct keys, each entry is found in the map with its own bytes.
proof fn lemma_store_map_at(entries: Seq<(ObjectId, Vec<u8>)>, i: int)
    requires
        0 <= i < entries.len(),
        forall|p: int, q: int|
            0 <= p < q < entries.len() ==> #[trigger] entries[p].0@ != #[trigger] entries[q].0@,
    ensures
        store_map(entries).contains_key(entries[i].0@),
        store_map(entries)[entries[i].0@] == entries[i].1@,
    decreases entries.len(),
{
    if i < entries.len() - 1 {
        assert(entries.drop_last()[i] == entries[i]);
        lemma_store_map_at(entries.drop_last(), i);
        assert(entries[i].0@ != entries.last().0@);
    }
}

/// An in-memory loose object store: immutable, individually compressed
/// objects, each keyed by the 20-byte hash of its own canonical bytes.
#[derive(Debug)]
pub struct Store {
    objects: Vec<(ObjectId, Vec<u8>)>,
}

impl View for Store {
    type V = Map<Seq<u8>, Seq<u8>>;

    closed spec fn view(&self) -> Map<Seq<u8>, Seq<u8>> {
        store_map(self.objects@)
    }
}

impl Store {
    /// No two stored entries share a key.
    pub closed spec fn wf(&self) -> bool {
        forall|p: int, q: int|
            0 <= p < q < self.objects@.len() ==> #[trigger] self.objects@[p].0@
                != #[trigger] self.objects@[q].0@
    }

    /// An empty store.
    pub fn new() -> (s: Store)
        ensures
            s.wf(),
            s@ == Map::<Seq<u8>, Seq<u8>>::empty(),
    {
        Store { objects: Vec::new() }
    }

    /// The position holding an identifier, if any.
    #[verifier::loop_isolation(false)]
    fn find_index(&self, id: &ObjectId) -> (r: Option<usize>)
        ensures
            match r {
                Some(i) => i < self.objects@.len() && self.objects@[i as int].0@ == id@,
                None => forall|j: int|
                    0 <= j < self.objects@.len() ==> #[trigger] self.objects@[j].0@ != id@,
            },
    {
        let mut i: usize = 0;
        while i < self.objects.len()
            invariant
                i <= self.objects@.len(),
                forall|j: int| 0 <= j < i ==> #[trigger] self.objects@[j].0@ != id@,
            decreases self.objects@.len() - i,
        {
            if self.objects[i].0.same_as(id) {
                return Some(i);
            }
            i = i + 1;
        }
        None
    }

    /// Whether an object is already stored under an identifier.
    pub fn contains(&self, id: &ObjectId) -> (r: bool)
        ensures
            r == self@.contains_key(id@),
    {
        proof {
            lemma_store_map_contains(self.objects@, id@);
        }
        self.find_index(id).is_some()
    }

    /// Stores canonical bytes under an identifier, compressed at maximum
    /// compression. Writing a key that is already present is a no-op
    /// success, never an error and never an overwrite: the store checks
    /// for the key first and skips, which is what content addressing
    /// guarantees to be safe. Writing the same object twice therefore
    /// leaves exactly one entry under its key.
    pub fn write(&mut self, id: &ObjectId, canonical: &[u8]) -> (r: Result<(), GitError>)
        requires
            old(self).wf(),
        ensures
            final(self).wf(),
            r is Ok,
            old(self)@.contains_key(id@) ==> final(self)@ == old(self)@,
            !old(self)@.contains_key(id@) ==> final(self)@ == old(self)@.insert(
                id@,
                deflate_of(canonical@),
            ) && inflate_of(final(self)@[id@]) == Some(canonical@),
    {
        proof {
            lemma_store_map_contains(self.objects@, id@);
        }
        match self.find_index(id) {
            Some(_) => Ok(()),
            None => {
                let compressed = encode_writer(canonical);
                let ghost pre = self.objects@;
                self.objects.push((id.duplicate(), compressed));
                proof {
                    assert(self.objects@.drop_last() =~= pre);
                }
                Ok(())
            },
        }
    }

    /// Reads back the canonical bytes stored under an identifier:
    /// absent keys are not found, and stored bytes that no longer
    /// decompress are a corrupt object.
    pub fn read(&self, id: &ObjectId) -> (r: Result<Vec<u8>, GitError>)
        requires
            self.wf(),
        ensures
            match r {
                Ok(v) => self@.contains_key(id@) && inflate_of(self@[id@]) == Some(v@),
                Err(e) => {
                    if e == GitError::NotFound {
                        !self@.contains_key(id@)
                    } else {
                        e == GitError::CorruptObject && self@.contains_key(id@) && inflate_of(
                            self@[id@],
                        ) is None
                    }
                },
            },
    {
        proof {
            lemma_store_map_contains(self.objects@, id@);
        }
        match self.find_index(id) {
            None => Err(GitError::NotFound),
            Some(i) => {
                proof {
                    lemma_store_map_at(self.objects@, i as int);
                }
                decode_reader_bytes(self.objects[i].1.as_slice())
            },
        }
    }
}

/// What reading a blob payload out of a store yields: the stored bytes
/// must decompress, parse as a framed object, and name the blob kind.
pub open spec fn spec_read_blob(m: Map<Seq<u8>, Seq<u8>>, k: Seq<u8>) -> Result<
    Seq<u8>,
    GitError,
> {
    if !m.contains_key(k) {
        Err(GitError::NotFound)
    } else {
        match inflate_of(m[k]) {
            None => Err(GitError::CorruptObject),
            Some(s) => match spec_parse_object(s) {
                Err(_) => Err(GitError::CorruptObject),
                Ok((ObjectKind::Blob, p)) => Ok(p),
                Ok((ObjectKind::Tree, _)) => Err(GitError::FormatError),
            },
        }
    }
}

/// What reading a tree out of a store yields.
pub open spec fn spec_read_tree(m: Map<Seq<u8>, Seq<u8>>, k: Seq<u8>) -> Result<
    Seq<crate::tree::EntryV>,
    GitError,
> {
    if !m.contains_key(k) {
        Err(GitError::NotFound)
    } else {
        match inflate_of(m[k]) {
            None => Err(GitError::CorruptObject),
            Some(s) => match spec_parse_object(s) {
                Err(_) => Err(GitError::CorruptObject),
                Ok((ObjectKind::Blob, _)) => Err(GitError::FormatError),
                Ok((ObjectKind::Tree, p)) => spec_parse_tree(p),
            },
        }
    }
}

impl Store {
    /// Frames file bytes as a blob, hashes the canonical bytes, and
    /// stores the object under the resulting identifier.
    pub fn compute_and_store_blob(&mut self, contents: &[u8]) -> (id: ObjectId)
        requires
            old(self).wf(),
        ensures
            final(self).wf(),
            id.wf(),
            id@ == sha1_of(frame_spec(ObjectKind::Blob, contents@)),
            old(self)@.contains_key(id@) ==> final(self)@ == old(self)@,
            !old(self)@.contains_key(id@) ==> final(self)@ == old(self)@.insert(
                id@,
                deflate_of(frame_spec(ObjectKind::Blob, contents@)),
            ) && inflate_of(final(self)@[id@]) == Some(frame_spec(ObjectKind::Blob, contents@)),
    {
        let canonical = frame(ObjectKind::Blob, contents);
        let id = ObjectId::of_data(canonical.as_slice());
        let _ = self.write(&id, canonical.as_slice());
        id
    }

    /// Serializes a tree, hashes the canonical bytes, and stores the
    /// object under the resulting identifier.
    pub fn compute_and_store_tree(&mut self, tree: &Tree) -> (id: ObjectId)
        requires
            old(self).wf(),
        ensures
            final(self).wf(),
            id.wf(),
            id@ == sha1_of(frame_spec(ObjectKind::Tree, crate::tree::tree_payload(tree@))),
            old(self)@.contains_key(id@) ==> final(self)@ == old(self)@,
            !old(self)@.contains_key(id@) ==> final(self)@ == old(self)@.insert(
                id@,
                deflate_of(frame_spec(ObjectKind::Tree, crate::tree::tree_payload(tree@))),
            ),
    {
        let canonical = tree.get_bytes();
        let id = ObjectId::of_data(canonical.as_slice());
        let _ = self.write(&id, canonical.as_slice());
        id
    }

    /// Reads the raw payload of the blob stored under an identifier.
    pub fn read_blob_payload(&self, id: &ObjectId) -> (r: Result<Vec<u8>, GitError>)
        requires
            self.wf(),
        ensures
            match (r, spec_read_blob(self@, id@)) {
                (Ok(v), Ok(p)) => v@ == p,
                (Err(e1), Err(e2)) => e1 == e2,
                _ => false,
            },
    {
        let stored = match self.read(id) {
            Ok(v) => v,
            Err(e) => {
                return Err(e);
            },
        };
        match crate::codec::parse_object(stored.as_slice()) {
            Err(_) => Err(GitError::CorruptObject),
            Ok((ObjectKind::Blob, payload)) => Ok(payload),
            Ok((ObjectKind::Tree, _)) => Err(GitError::FormatError),
        }
    }

    /// Reads and parses the tree stored under an identifier.
    pub fn read_tree(&self, id: &ObjectId) -> (r: Result<Tree, GitError>)
        requires
            self.wf(),
        ensures
            match (r, spec_read_tree(self@, id@)) {
                (Ok(t), Ok(es)) => t@ == es && t.wf(),
                (Err(e1), Err(e2)) => e1 == e2,
                _ => false,
            },
    {
        let stored = match self.read(id) {
            Ok(v) => v,
            Err(e) => {
                return Err(e);
            },
        };
        match crate::codec::parse_object(stored.as_slice()) {
            Err(_) => Err(GitError::CorruptObject),
            Ok((ObjectKind::Blob, _)) => Err(GitError::FormatError),
            Ok((ObjectKind::Tree, payload)) => match Tree::parse_body(payload.as_slice()) {
                Err(e) => Err(e),
                Ok(entries) => {
                    proof {
                        lemma_parse_tree_valid(payload@);
                    }
                    Ok(Tree::from_parsed(entries))
                },
            },
        }
    }
}

} // verus!
