//! Tree objects: ordered lists of (mode, name, child identifier) entries.
//!
//! A tree payload is the concatenation of its entries, each serialized as
//! `"<mode> <name>\0"` followed by the child's raw 20-byte identifier,
//! with no separator between entries. Names are byte sequences, not text;
//! the raw identifier may itself contain NUL bytes, so entry boundaries
//! are found by scanning for the NUL after the name and then consuming
//! exactly 20 bytes.

use vstd::prelude::*;
use vstd::multiset::Multiset;

use crate::codec::find_byte;
use crate::codec::frame;
use crate::codec::frame_spec;
use crate::codec::lemma_find_byte_at;
use crate::codec::lemma_find_byte_none;
use crate::codec::lemma_find_byte_some;
use crate::codec::spec_parse_header;
use crate::codec::spec_parse_object;
use crate::codec::ObjectKind;
use crate::errors::GitError;
use crate::oid::hash_hex;
use crate::oid::hex_of;
use crate::oid::sha1_of;

verus! {

/// The four legal entry modes. Any other wire value is a parse error,
/// never a default.
#[derive(Debug, Clone, Copy, PartialEq, Eq, Structural)]
pub enum FileType {
    Directory,
    ExecutableFile,
    RegularFile,
    SymbolicLink,
}

/// The numeric code of a mode.
pub open spec fn mode_code(m: FileType) -> nat {
    match m {
        FileType::Directory => 40000,
        FileType::ExecutableFile => 100755,
        FileType::RegularFile => 100644,
        FileType::SymbolicLink => 120000,
    }
}

/// The decimal token that spells a mode on the wire.
pub open spec fn mode_token(m: FileType) -> Seq<u8> {
    match m {
        FileType::Directory => seq![52u8, 48u8, 48u8, 48u8, 48u8],  // "40000"
        FileType::ExecutableFile => seq![49u8, 48u8, 48u8, 55u8, 53u8, 53u8],  // "100755"
        FileType::RegularFile => seq![49u8, 48u8, 48u8, 54u8, 52u8, 52u8],  // "100644"
        FileType::SymbolicLink => seq![49u8, 50u8, 48u8, 48u8, 48u8, 48u8],  // "120000"
    }
}

/// The mode a wire token names, if it is one of the four legal ones.
pub open spec fn mode_of_token(s: Seq<u8>) -> Option<FileType> {
    if s == mode_token(FileType::Directory) {
        Some(FileType::Directory)
    } else if s == mode_token(FileType::ExecutableFile) {
        Some(FileType::ExecutableFile)
    } else if s == mode_token(FileType::RegularFile) {
        Some(FileType::RegularFile)
    } else if s == mode_token(FileType::SymbolicLink) {
        Some(FileType::SymbolicLink)
    } else {
        None
    }
}

impl FileType {
    /// The mode for a numeric code, or the mode error for any other value.
    pub fn from_code(code: u32) -> (r: Result<FileType, GitError>)
        ensures
            match r {
                Ok(m) => mode_code(m) == code as nat,
                Err(e) => e == GitError::InvalidMode && (code != 40000 && code != 100755
                    && code != 100644 && code != 120000),
            },
    {
        if code == 40000 {
            Ok(FileType::Directory)
        } else if code == 100755 {
            Ok(FileType::ExecutableFile)
        } else if code == 100644 {
            Ok(FileType::RegularFile)
        } else if code == 120000 {
            Ok(FileType::SymbolicLink)
        } else {
            Err(GitError::InvalidMode)
        }
    }

    /// The numeric code of this mode.
    pub fn code(&self) -> (r: u32)
        ensures
            r as nat == mode_code(*self),
    {
        match self {
            FileType::Directory => 40000,
            FileType::ExecutableFile => 100755,
            FileType::RegularFile => 100644,
            FileType::SymbolicLink => 120000,
        }
    }
}

/// The mathematical shape of one tree entry.
pub struct EntryV {
    pub mode: FileType,
    pub name: Seq<u8>,
    pub sha: Seq<u8>,
}

/// One tree entry: a mode, a name, and the child object's raw identifier.
#[derive(Debug)]
pub struct Entry {
    filetype: FileType,
    name: Vec<u8>,
    sha: Vec<u8>,
}

impl View for Entry {
    type V = EntryV;

    closed spec fn view(&self) -> EntryV {
        EntryV { mode: self.filetype, name: self.name@, sha: self.sha@ }
    }
}

impl DeepView for Entry {
    type V = EntryV;

    open spec fn deep_view(&self) -> EntryV {
        self.view()
    }
}

/// An entry the wire format can carry faithfully: the name holds no NUL
/// (the terminator could not be found otherwise) and the child identifier
/// is exactly 20 raw bytes.
pub open spec fn entry_valid(e: EntryV) -> bool {
    &&& e.sha.len() == 20
    &&& forall|i: int| 0 <= i < e.name.len() ==> #[trigger] e.name[i] != 0
}

/// The wire bytes of one entry.
pub open spec fn entry_bytes(e: EntryV) -> Seq<u8> {
    mode_token(e.mode) + seq![32u8] + e.name + seq![0u8] + e.sha
}

/// The wire bytes of a whole entry list: each entry in order, nothing
/// between them.
pub open spec fn tree_payload(es: Seq<EntryV>) -> Seq<u8>
    decreases es.len(),
{
    if es.len() == 0 {
        Seq::empty()
    } else {
        entry_bytes(es[0]) + tree_payload(es.skip(1))
    }
}

impl Entry {
    /// Builds an entry from its three parts.
    pub fn new(filetype: FileType, name: Vec<u8>, sha: Vec<u8>) -> (e: Entry)
        requires
            sha@.len() == 20,
            forall|i: int| 0 <= i < name@.len() ==> #[trigger] name@[i] != 0,
        ensures
            e@.mode == filetype,
            e@.name == name@,
            e@.sha == sha@,
            entry_valid(e@),
    {
        Entry { filetype, name, sha }
    }

    /// The entry's name bytes.
    pub fn get_name(&self) -> (r: &Vec<u8>)
        ensures
            r@ == self@.name,
    {
        &self.name
    }

    /// The entry's mode.
    pub fn get_mode(&self) -> (r: FileType)
        ensures
            r == self@.mode,
    {
        self.filetype
    }

    /// The child object's raw 20-byte identifier.
    pub fn get_sha(&self) -> (r: &Vec<u8>)
        ensures
            r@ == self@.sha,
    {
        &self.sha
    }
}

/// Appends the wire token of a mode.
fn push_mode_token(out: &mut Vec<u8>, m: FileType)
    ensures
        final(out)@ == old(out)@ + mode_token(m),
{
    let ghost pre = out@;
    match m {
        FileType::Directory => {
            out.push(52);
            out.push(48);
            out.push(48);
            out.push(48);
            out.push(48);
        },
        FileType::ExecutableFile => {
            out.push(49);
            out.push(48);
            out.push(48);
            out.push(55);
            out.push(53);
            out.push(53);
        },
        FileType::RegularFile => {
            out.push(49);
            out.push(48);
            out.push(48);
            out.push(54);
            out.push(52);
            out.push(52);
        },
        FileType::SymbolicLink => {
            out.push(49);
            out.push(50);
            out.push(48);
            out.push(48);
            out.push(48);
            out.push(48);
        },
    }
    proof {
        assert(out@ =~= pre + mode_token(m));
    }
}

/// Entry lists serialize one entry at a time.
pub proof fn lemma_tree_payload_push(es: Seq<EntryV>, e: EntryV)
    ensures
        tree_payload(es.push(e)) == tree_payload(es) + entry_bytes(e),
    decreases es.len(),
{
    let s = es.push(e);
    if es.len() == 0 {
        assert(s[0] == e);
        assert(s.skip(1) =~= Seq::<EntryV>::empty());
        assert(tree_payload(Seq::<EntryV>::empty()) == Seq::<u8>::empty());
        assert(tree_payload(s) =~= tree_payload(es) + entry_bytes(e));
    } else {
        assert(s[0] == es[0]);
        assert(s.skip(1) =~= es.skip(1).push(e));
        lemma_tree_payload_push(es.skip(1), e);
        assert(tree_payload(s) =~= tree_payload(es) + entry_bytes(e));
    }
}

/// The parse of a tree payload into its entries, exactly as the scanning
/// reader sees it: find the NUL that ends the head, split the head at its
/// first space into mode token and name, then consume exactly 20 raw
/// identifier bytes, and repeat on what is left. An unknown mode token is
/// a mode error; a body that ends before the NUL or the 20 bytes is a
/// truncation error.
pub open spec fn spec_parse_tree(s: Seq<u8>) -> Result<Seq<EntryV>, GitError>
    decreases s.len(),
    via spec_parse_tree_decreases
{
    if s.len() == 0 {
        Ok(Seq::empty())
    } else {
        match find_byte(s, 0) {
            None => Err(GitError::TruncatedEntry),
            Some(h) => {
                let head = s.subrange(0, h);
                match find_byte(head, 32) {
                    None => Err(GitError::InvalidMode),
                    Some(sp) => {
                        match mode_of_token(head.subrange(0, sp)) {
                            None => Err(GitError::InvalidMode),
                            Some(mode) => {
                                if s.len() < h + 21 {
                                    Err(GitError::TruncatedEntry)
                                } else {
                                    let name = head.subrange(sp + 1, h);
                                    let sha = s.subrange(h + 1, h + 21);
                                    match spec_parse_tree(s.skip(h + 21)) {
                                        Ok(rest) => Ok(
                                            seq![EntryV { mode, name, sha }] + rest,
                                        ),
                                        Err(e) => Err(e),
                                    }
                                }
                            },
                        }
                    },
                }
            },
        }
    }
}

#[via_fn]
proof fn spec_parse_tree_decreases(s: Seq<u8>) {
    if s.len() > 0 && find_byte(s, 0) is Some {
        lemma_find_byte_some(s, 0);
    }
}

/// Whatever parses out of a tree payload is a list of valid entries.
pub proof fn lemma_parse_tree_valid(s: Seq<u8>)
    requires
        spec_parse_tree(s) is Ok,
    ensures
        forall|i: int|
            0 <= i < spec_parse_tree(s)->Ok_0.len() ==> entry_valid(
                #[trigger] spec_parse_tree(s)->Ok_0[i],
            ),
    decreases s.len(),
{
    if s.len() > 0 {
        lemma_find_byte_some(s, 0);
        let h = find_byte(s, 0)->0;
        let head = s.subrange(0, h);
        lemma_find_byte_some(head, 32);
        let sp = find_byte(head, 32)->0;
        let name = head.subrange(sp + 1, h);
        let rest = spec_parse_tree(s.skip(h + 21))->Ok_0;
        lemma_parse_tree_valid(s.skip(h + 21));
        let es = spec_parse_tree(s)->Ok_0;
        assert(forall|j: int| 0 <= j < name.len() ==> #[trigger] name[j] != 0) by {
            assert(forall|j: int| 0 <= j < name.len() ==> name[j] == s[sp + 1 + j]);
        }
        assert(entry_valid(es[0]));
        assert(forall|i: int| 1 <= i < es.len() ==> es[i] == rest[i - 1]);
    }
}

/// Every mode token is a short run of decimal digits.
proof fn lemma_mode_token_bytes(m: FileType)
    ensures
        5 <= mode_token(m).len() <= 6,
        forall|j: int| 0 <= j < mode_token(m).len() ==> 48 <= #[trigger] mode_token(m)[j] <= 57,
{
    let t = mode_token(m);
    match m {
        FileType::Directory => {
            assert(t[0] == 52 && t[1] == 48 && t[2] == 48 && t[3] == 48 && t[4] == 48);
            assert forall|j: int| 0 <= j < t.len() implies 48 <= #[trigger] t[j] <= 57 by {
                assert(j == 0 || j == 1 || j == 2 || j == 3 || j == 4);
            }
        },
        FileType::ExecutableFile => {
            assert(t[0] == 49 && t[1] == 48 && t[2] == 48 && t[3] == 55 && t[4] == 53 && t[5]
                == 53);
            assert forall|j: int| 0 <= j < t.len() implies 48 <= #[trigger] t[j] <= 57 by {
                assert(j == 0 || j == 1 || j == 2 || j == 3 || j == 4 || j == 5);
            }
        },
        FileType::RegularFile => {
            assert(t[0] == 49 && t[1] == 48 && t[2] == 48 && t[3] == 54 && t[4] == 52 && t[5]
                == 52);
            assert forall|j: int| 0 <= j < t.len() implies 48 <= #[trigger] t[j] <= 57 by {
                assert(j == 0 || j == 1 || j == 2 || j == 3 || j == 4 || j == 5);
            }
        },
        FileType::SymbolicLink => {
            assert(t[0] == 49 && t[1] == 50 && t[2] == 48 && t[3] == 48 && t[4] == 48 && t[5]
                == 48);
            assert forall|j: int| 0 <= j < t.len() implies 48 <= #[trigger] t[j] <= 57 by {
                assert(j == 0 || j == 1 || j == 2 || j == 3 || j == 4 || j == 5);
            }
        },
    }
}

/// Reading back the token of a mode names that mode: the four tokens are
/// pairwise distinct.
proof fn lemma_mode_of_token_inverse(m: FileType)
    ensures
        mode_of_token(mode_token(m)) == Some(m),
{
    match m {
        FileType::Directory => {
        },
        FileType::ExecutableFile => {
            assert(mode_token(FileType::Directory).len() == 5);
            assert(mode_token(FileType::ExecutableFile).len() == 6);
        },
        FileType::RegularFile => {
            assert(mode_token(FileType::Directory).len() == 5);
            assert(mode_token(FileType::RegularFile).len() == 6);
            assert(mode_token(FileType::RegularFile)[3] == 54);
            assert(mode_token(FileType::ExecutableFile)[3] == 55);
        },
        FileType::SymbolicLink => {
            assert(mode_token(FileType::Directory).len() == 5);
            assert(mode_token(FileType::SymbolicLink).len() == 6);
            assert(mode_token(FileType::SymbolicLink)[1] == 50);
            assert(mode_token(FileType::ExecutableFile)[1] == 48);
            assert(mode_token(FileType::RegularFile)[1] == 48);
        },
    }
}

/// Round trip: parsing a serialized entry list gives back exactly that
/// list, for every list of entries the wire format can carry.
pub proof fn lemma_tree_round_trip(es: Seq<EntryV>)
    requires
        forall|i: int| 0 <= i < es.len() ==> entry_valid(#[trigger] es[i]),
    ensures
        spec_parse_tree(tree_payload(es)) == Ok::<Seq<EntryV>, GitError>(es),
    decreases es.len(),
{
    if es.len() == 0 {
        assert(es =~= Seq::<EntryV>::empty());
    } else {
        let e = es[0];
        let tail = es.skip(1);
        let tok = mode_token(e.mode);
        let eL = tok.len() as int;
        lemma_mode_token_bytes(e.mode);
        lemma_mode_of_token_inverse(e.mode);
        let eb = entry_bytes(e);
        let s = tree_payload(es);
        let rest_bytes = tree_payload(tail);
        assert(s == eb + rest_bytes);
        let h = eL + 1 + e.name.len() as int;
        assert(eb.len() == h + 21);
        assert forall|j: int| 0 <= j < h implies s[j] != 0 by {
            assert(s[j] == eb[j]);
            if j < eL {
                assert(eb[j] == tok[j]);
            } else if j == eL {
                assert(eb[j] == 32);
            } else {
                assert(eb[j] == e.name[j - eL - 1]);
            }
        }
        assert(s[h] == eb[h] && eb[h] == 0);
        lemma_find_byte_at(s, 0, h);
        let head = s.subrange(0, h);
        assert(head =~= tok + seq![32u8] + e.name);
        assert forall|j: int| 0 <= j < eL implies head[j] != 32 by {
            assert(head[j] == tok[j]);
        }
        assert(head[eL] == 32);
        lemma_find_byte_at(head, 32, eL);
        assert(head.subrange(0, eL) =~= tok);
        assert(s.len() >= h + 21);
        assert(head.subrange(eL + 1, h) =~= e.name);
        assert(s.subrange(h + 1, h + 21) =~= e.sha);
        assert(s.skip(h + 21) =~= rest_bytes);
        assert(forall|i: int| 0 <= i < tail.len() ==> tail[i] == es[i + 1]);
        lemma_tree_round_trip(tail);
        assert(seq![EntryV { mode: e.mode, name: e.name, sha: e.sha }] + tail =~= es);
    }
}

/// Round trip through whole canonical bytes: framing a serialized entry
/// list as a tree object and parsing it back gives exactly that list,
/// for every entry list whose payload the machine can hold.
pub proof fn lemma_tree_object_round_trip(es: Seq<EntryV>)
    requires
        forall|i: int| 0 <= i < es.len() ==> entry_valid(#[trigger] es[i]),
        tree_payload(es).len() <= usize::MAX,
    ensures
        spec_parse_tree_object(frame_spec(ObjectKind::Tree, tree_payload(es)))
            == Ok::<Seq<EntryV>, GitError>(es),
{
    crate::codec::lemma_parse_of_frame(ObjectKind::Tree, tree_payload(es));
    lemma_tree_round_trip(es);
}

/// Reads the mode token lying at `data[start..end]`, if it is one of the
/// four legal ones.
fn match_mode_token(data: &[u8], start: usize, end: usize) -> (r: Option<FileType>)
    requires
        start <= end <= data@.len(),
    ensures
        r == mode_of_token(data@.subrange(start as int, end as int)),
{
    let ghost tok = data@.subrange(start as int, end as int);
    proof {
        assert(tok.len() == end - start);
        assert(forall|j: int| 0 <= j < tok.len() ==> tok[j] == data@[start + j]);
    }
    let n = end - start;
    if n == 5 {
        if data[start] == 52 && data[start + 1] == 48 && data[start + 2] == 48 && data[start + 3]
            == 48 && data[start + 4] == 48 {
            proof {
                assert(tok =~= mode_token(FileType::Directory));
            }
            return Some(FileType::Directory);
        }
    } else if n == 6 {
        if data[start] == 49 && data[start + 1] == 48 && data[start + 2] == 48 && data[start + 3]
            == 55 && data[start + 4] == 53 && data[start + 5] == 53 {
            proof {
                assert(tok =~= mode_token(FileType::ExecutableFile));
            }
            return Some(FileType::ExecutableFile);
        }
        if data[start] == 49 && data[start + 1] == 48 && data[start + 2] == 48 && data[start + 3]
            == 54 && data[start + 4] == 52 && data[start + 5] == 52 {
            proof {
                assert(tok =~= mode_token(FileType::RegularFile));
            }
            return Some(FileType::RegularFile);
        }
        if data[start] == 49 && data[start + 1] == 50 && data[start + 2] == 48 && data[start + 3]
            == 48 && data[start + 4] == 48 && data[start + 5] == 48 {
            proof {
                assert(tok =~= mode_token(FileType::SymbolicLink));
            }
            return Some(FileType::SymbolicLink);
        }
    }
    proof {
        if tok == mode_token(FileType::Directory) {
            assert(tok[0] == 52 && tok[1] == 48 && tok[2] == 48 && tok[3] == 48 && tok[4] == 48);
            assert(false);
        }
        if tok == mode_token(FileType::ExecutableFile) {
            assert(tok[0] == 49 && tok[1] == 48 && tok[2] == 48 && tok[3] == 55 && tok[4] == 53
                && tok[5] == 53);
            assert(false);
        }
        if tok == mode_token(FileType::RegularFile) {
            assert(tok[0] == 49 && tok[1] == 48 && tok[2] == 48 && tok[3] == 54 && tok[4] == 52
                && tok[5] == 52);
            assert(false);
        }
        if tok == mode_token(FileType::SymbolicLink) {
            assert(tok[0] == 49 && tok[1] == 50 && tok[2] == 48 && tok[3] == 48 && tok[4] == 48
                && tok[5] == 48);
            assert(false);
        }
    }
    None
}

/// Serializes an entry list into tree payload bytes, in the list's
/// current order.
#[verifier::loop_isolation(false)]
pub fn serialize_tree(entries: &Vec<Entry>) -> (r: Vec<u8>)
    ensures
        r@ == tree_payload(entries.deep_view()),
{
    let mut out: Vec<u8> = Vec::new();
    let mut i: usize = 0;
    while i < entries.len()
        invariant
            i <= entries@.len(),
            out@ == tree_payload(entries.deep_view().subrange(0, i as int)),
        decreases entries@.len() - i,
    {
        let ghost pre = out@;
        let e = &entries[i];
        push_mode_token(&mut out, e.filetype);
        out.push(32);
        out.extend_from_slice(e.name.as_slice());
        out.push(0);
        out.extend_from_slice(e.sha.as_slice());
        proof {
            assert(out@ =~= pre + entry_bytes(e@));
            assert(entries.deep_view().subrange(0, i + 1) =~= entries.deep_view().subrange(
                0,
                i as int,
            ).push(e@));
            lemma_tree_payload_push(entries.deep_view().subrange(0, i as int), e@);
        }
        i = i + 1;
    }
    proof {
        assert(entries.deep_view().subrange(0, entries@.len() as int) =~= entries.deep_view());
    }
    out
}

/// Raw-byte lexicographic order on names: not locale-aware, not
/// case-folded. This order is part of what makes tree hashes
/// deterministic, so reader and writer must reproduce it identically.
pub open spec fn name_le(a: Seq<u8>, b: Seq<u8>) -> bool
    decreases a.len(),
{
    if a.len() == 0 {
        true
    } else if b.len() == 0 {
        false
    } else if a[0] < b[0] {
        true
    } else if a[0] > b[0] {
        false
    } else {
        name_le(a.skip(1), b.skip(1))
    }
}

/// Any two names compare one way or the other.
pub proof fn lemma_name_le_total(a: Seq<u8>, b: Seq<u8>)
    ensures
        name_le(a, b) || name_le(b, a),
    decreases a.len(),
{
    if a.len() > 0 && b.len() > 0 && a[0] == b[0] {
        lemma_name_le_total(a.skip(1), b.skip(1));
    }
}

/// Raw-byte name order is transitive.
pub proof fn lemma_name_le_trans(a: Seq<u8>, b: Seq<u8>, c: Seq<u8>)
    requires
        name_le(a, b),
        name_le(b, c),
    ensures
        name_le(a, c),
    decreases a.len(),
{
    if a.len() > 0 && b.len() > 0 && c.len() > 0 && a[0] == b[0] && b[0] == c[0] {
        lemma_name_le_trans(a.skip(1), b.skip(1), c.skip(1));
    }
}

/// An entry list in the mandated order: sorted by raw-byte name.
pub open spec fn sorted_by_name(es: Seq<EntryV>) -> bool {
    forall|i: int, j: int|
        0 <= i < j < es.len() ==> name_le(#[trigger] es[i].name, #[trigger] es[j].name)
}

/// Compares two names in raw-byte lexicographic order.
#[verifier::loop_isolation(false)]
fn name_le_exec(a: &[u8], b: &[u8]) -> (r: bool)
    ensures
        r == name_le(a@, b@),
{
    let mut i: usize = 0;
    proof {
        assert(a@.skip(0) =~= a@);
        assert(b@.skip(0) =~= b@);
    }
    loop
        invariant
            i <= a@.len(),
            i <= b@.len(),
            name_le(a@, b@) == name_le(a@.skip(i as int), b@.skip(i as int)),
        decreases a@.len() - i,
    {
        if i == a.len() {
            proof {
                assert(a@.skip(i as int).len() == 0);
            }
            return true;
        }
        if i == b.len() {
            proof {
                assert(b@.skip(i as int).len() == 0 && a@.skip(i as int).len() > 0);
            }
            return false;
        }
        proof {
            assert(a@.skip(i as int)[0] == a@[i as int]);
            assert(b@.skip(i as int)[0] == b@[i as int]);
        }
        if a[i] < b[i] {
            return true;
        }
        if a[i] > b[i] {
            return false;
        }
        proof {
            assert(a@.skip(i as int).skip(1) =~= a@.skip(i + 1));
            assert(b@.skip(i as int).skip(1) =~= b@.skip(i + 1));
        }
        i = i + 1;
    }
}

/// Moving one item between a multiset and a pool keeps the union.
proof fn lemma_multiset_transfer(base: Multiset<EntryV>, m: Multiset<EntryV>, x: EntryV)
    requires
        m.count(x) >= 1,
    ensures
        base.insert(x).add(m.remove(x)) == base.add(m),
{
    broadcast use vstd::multiset::group_multiset_axioms;

    assert(base.insert(x).add(m.remove(x)) =~= base.add(m));
}

/// Sorts entries by raw-byte name order, keeping exactly the entries
/// handed in. This is the order the spec mandates before a tree is
/// serialized and hashed.
#[verifier::loop_isolation(false)]
pub fn sort_entries(entries: Vec<Entry>) -> (r: Vec<Entry>)
    ensures
        r.deep_view().to_multiset() == entries.deep_view().to_multiset(),
        sorted_by_name(r.deep_view()),
        forall|x: EntryV|
            #[trigger] r.deep_view().contains(x) ==> entries.deep_view().contains(x),
{
    let ghost total = entries.deep_view().to_multiset();
    let mut src = entries;
    let mut out: Vec<Entry> = Vec::new();
    proof {
        assert(out.deep_view() =~= Seq::<EntryV>::empty());
        vstd::seq_lib::to_multiset_len(out.deep_view());
        broadcast use vstd::multiset::group_multiset_axioms;

        assert(out.deep_view().to_multiset().add(src.deep_view().to_multiset())
            =~= src.deep_view().to_multiset());
    }
    while src.len() > 0
        invariant
            sorted_by_name(out.deep_view()),
            out.deep_view().to_multiset().add(src.deep_view().to_multiset()) == total,
        decreases src@.len(),
    {
        let ghost src_old = src.deep_view();
        let e = match src.pop() {
            Some(x) => x,
            None => {
                return out;  // unreachable: the loop condition holds
            },
        };
        proof {
            assert(src.deep_view() =~= src_old.remove(src_old.len() - 1));
            assert(src_old[src_old.len() - 1] == e.deep_view());
            vstd::seq_lib::to_multiset_remove(src_old, src_old.len() - 1);
            assert(src_old.contains(e@));
            vstd::seq_lib::to_multiset_contains(src_old, e@);
        }
        let mut k: usize = 0;
        while k < out.len() && !name_le_exec(e.name.as_slice(), out[k].name.as_slice())
            invariant
                k <= out@.len(),
                forall|j: int|
                    0 <= j < k ==> name_le(#[trigger] out.deep_view()[j].name, e@.name),
            decreases out@.len() - k,
        {
            proof {
                lemma_name_le_total(e@.name, out.deep_view()[k as int].name);
            }
            k = k + 1;
        }
        let ghost o = out.deep_view();
        let ghost klt = k < out.len();
        out.insert(k, e);
        proof {
            let t = out.deep_view();
            assert(t =~= o.insert(k as int, e@));
            assert(forall|j: int| 0 <= j < k ==> t[j] == o[j]);
            assert(t[k as int] == e@);
            assert(forall|j: int| k < j < t.len() ==> t[j] == o[j - 1]);
            assert forall|i: int, j: int| 0 <= i < j < t.len() implies name_le(
                #[trigger] t[i].name,
                #[trigger] t[j].name,
            ) by {
                if j < k {
                } else if i < k && j == k {
                } else if i == k && j > k {
                    assert(klt);
                    assert(name_le(e@.name, o[k as int].name));
                    if j - 1 > k {
                        lemma_name_le_trans(e@.name, o[k as int].name, o[j - 1].name);
                    }
                } else if i < k && j > k {
                } else if i > k {
                }
            }
            vstd::seq_lib::to_multiset_insert(o, k as int, e@);
            lemma_multiset_transfer(o.to_multiset(), src_old.to_multiset(), e@);
        }
    }
    proof {
        assert(src.deep_view() =~= Seq::<EntryV>::empty());
        vstd::seq_lib::to_multiset_len(src.deep_view());
        broadcast use vstd::multiset::group_multiset_axioms;

        assert(out.deep_view().to_multiset().add(src.deep_view().to_multiset())
            =~= out.deep_view().to_multiset());
        assert forall|x: EntryV| #[trigger]
            out.deep_view().contains(x) implies entries.deep_view().contains(x) by {
            vstd::seq_lib::to_multiset_contains(out.deep_view(), x);
            vstd::seq_lib::to_multiset_contains(entries.deep_view(), x);
        }
    }
    out
}

/// A tree object: a list of entries over which parsing, serialization
/// and hashing are defined.
#[derive(Debug)]
pub struct Tree {
    entries: Vec<Entry>,
}

impl View for Tree {
    type V = Seq<EntryV>;

    closed spec fn view(&self) -> Seq<EntryV> {
        self.entries.deep_view()
    }
}

impl Tree {
    /// A well-formed tree holds only entries the wire format can carry.
    pub open spec fn wf(&self) -> bool {
        forall|i: int| 0 <= i < self@.len() ==> entry_valid(#[trigger] self@[i])
    }

    /// Parses a tree payload into its entry list, scanning entry by
    /// entry: NUL ends the head, the first space splits mode from name,
    /// and exactly 20 raw bytes follow as the child identifier.
    #[verifier::loop_isolation(false)]
    #[verifier::rlimit(80)]
    pub fn parse_body(data: &[u8]) -> (r: Result<Vec<Entry>, GitError>)
        ensures
            match (r, spec_parse_tree(data@)) {
                (Ok(v), Ok(es)) => v.deep_view() == es,
                (Err(e1), Err(e2)) => e1 == e2,
                _ => false,
            },
    {
        let mut out: Vec<Entry> = Vec::new();
        let mut pos: usize = 0;
        proof {
            assert(data@.skip(0) =~= data@);
            assert(Seq::<EntryV>::empty() + spec_parse_tree(data@)->Ok_0 =~= spec_parse_tree(
                data@,
            )->Ok_0);
        }
        while pos < data.len()
            invariant
                pos <= data@.len(),
                (match spec_parse_tree(data@.skip(pos as int)) {
                    Ok(rest) => spec_parse_tree(data@) == Ok::<Seq<EntryV>, GitError>(
                        out.deep_view() + rest,
                    ),
                    Err(e) => spec_parse_tree(data@) == Err::<Seq<EntryV>, GitError>(e),
                }),
            decreases data@.len() - pos,
        {
            let ghost suffix = data@.skip(pos as int);
            proof {
                assert(forall|q: int| 0 <= q < suffix.len() ==> suffix[q] == data@[pos + q]);
            }
            let mut h: usize = pos;
            while h < data.len() && data[h] != 0
                invariant
                    pos <= h <= data@.len(),
                    forall|q: int| pos <= q < h ==> data@[q] != 0,
                decreases data@.len() - h,
            {
                h = h + 1;
            }
            if h == data.len() {
                proof {
                    lemma_find_byte_none(suffix, 0);
                }
                return Err(GitError::TruncatedEntry);
            }
            let ghost hr: int = h as int - pos as int;
            proof {
                lemma_find_byte_at(suffix, 0, hr);
            }
            let ghost head = suffix.subrange(0, hr);
            proof {
                assert(forall|q: int| 0 <= q < head.len() ==> head[q] == data@[pos + q]);
            }
            let mut sp: usize = pos;
            while sp < h && data[sp] != 32
                invariant
                    pos <= sp <= h,
                    forall|q: int| pos <= q < sp ==> data@[q] != 32,
                decreases h - sp,
            {
                sp = sp + 1;
            }
            if sp == h {
                proof {
                    lemma_find_byte_none(head, 32);
                }
                return Err(GitError::InvalidMode);
            }
            let ghost spr: int = sp as int - pos as int;
            proof {
                lemma_find_byte_at(head, 32, spr);
                assert(head.subrange(0, spr) =~= data@.subrange(pos as int, sp as int));
            }
            let mode = match match_mode_token(data, pos, sp) {
                Some(m) => m,
                None => {
                    return Err(GitError::InvalidMode);
                },
            };
            if data.len() - (h + 1) < 20 {
                return Err(GitError::TruncatedEntry);
            }
            let name = vstd::slice::slice_to_vec(vstd::slice::slice_subrange(data, sp + 1, h));
            let sha = vstd::slice::slice_to_vec(
                vstd::slice::slice_subrange(data, h + 1, h + 21),
            );
            proof {
                assert(name@ =~= head.subrange(spr + 1, hr));
                assert(sha@ =~= suffix.subrange(hr + 1, hr + 21));
            }
            let entry = Entry { filetype: mode, name, sha };
            let ghost ev = entry@;
            let ghost outv_old = out.deep_view();
            out.push(entry);
            proof {
                assert(out.deep_view() =~= outv_old.push(ev));
            }
            pos = h + 21;
            proof {
                assert(data@.skip(pos as int) =~= suffix.skip(hr + 21));
                match spec_parse_tree(suffix.skip(hr + 21)) {
                    Ok(rest2) => {
                        assert(spec_parse_tree(suffix) == Ok::<Seq<EntryV>, GitError>(
                            seq![ev] + rest2,
                        ));
                        assert(outv_old + (seq![ev] + rest2) =~= outv_old.push(ev) + rest2);
                    },
                    Err(e) => {
                        assert(spec_parse_tree(suffix) == Err::<Seq<EntryV>, GitError>(e));
                    },
                }
            }
        }
        proof {
            assert(data@.skip(pos as int) =~= Seq::<u8>::empty());
            assert(spec_parse_tree(Seq::<u8>::empty()) == Ok::<Seq<EntryV>, GitError>(
                Seq::empty(),
            ));
            assert(out.deep_view() + Seq::<EntryV>::empty() =~= out.deep_view());
        }
        Ok(out)
    }

    /// Parses a canonical object header and checks that it names a tree.
    pub fn parse_header(data: &[u8]) -> (r: Result<(usize, usize), GitError>)
        ensures
            match r {
                Ok((n, off)) => spec_parse_header(data@) == Ok::<
                    (ObjectKind, nat, int),
                    GitError,
                >((ObjectKind::Tree, n as nat, off as int)),
                Err(e) => match spec_parse_header(data@) {
                    Ok(sp) => sp.0 == ObjectKind::Blob && e == GitError::FormatError,
                    Err(e2) => e == e2,
                },
            },
    {
        match crate::codec::parse_header(data) {
            Ok((ObjectKind::Tree, n, off)) => Ok((n, off)),
            Ok((ObjectKind::Blob, _, _)) => Err(GitError::FormatError),
            Err(e) => Err(e),
        }
    }

    /// Builds a tree from entries gathered out of a directory: the
    /// entries are put into the mandated raw-byte name order and frozen.
    pub fn from_entries(entries: Vec<Entry>) -> (t: Tree)
        ensures
            t@.to_multiset() == entries.deep_view().to_multiset(),
            sorted_by_name(t@),
            (forall|i: int|
                0 <= i < entries.deep_view().len() ==> entry_valid(
                    #[trigger] entries.deep_view()[i],
                )) ==> t.wf(),
    {
        let ghost input = entries.deep_view();
        let sorted = sort_entries(entries);
        let t = Tree { entries: sorted };
        proof {
            if forall|i: int| 0 <= i < input.len() ==> entry_valid(#[trigger] input[i]) {
                assert forall|i: int| 0 <= i < t@.len() implies entry_valid(
                    #[trigger] t@[i],
                ) by {
                    assert(t@.contains(t@[i]));
                    assert(input.contains(t@[i]));
                    let j = choose|j: int| 0 <= j < input.len() && input[j] == t@[i];
                    assert(entry_valid(input[j]));
                }
            }
        }
        t
    }

    /// Parses whole canonical bytes as a tree object: header, declared
    /// length held against the body, then the body entry by entry.
    pub fn from_canonical(data: &[u8]) -> (r: Result<Tree, GitError>)
        ensures
            match (r, spec_parse_tree_object(data@)) {
                (Ok(t), Ok(es)) => t@ == es && t.wf(),
                (Err(e1), Err(e2)) => e1 == e2,
                _ => false,
            },
    {
        match crate::codec::parse_object(data) {
            Err(e) => Err(e),
            Ok((ObjectKind::Blob, _)) => Err(GitError::FormatError),
            Ok((ObjectKind::Tree, payload)) => match Tree::parse_body(payload.as_slice()) {
                Err(e) => Err(e),
                Ok(entries) => {
                    proof {
                        lemma_parse_tree_valid(payload@);
                    }
                    Ok(Tree { entries })
                },
            },
        }
    }

    /// Wraps entries that were parsed out of a payload, in their parsed
    /// order.
    pub(crate) fn from_parsed(entries: Vec<Entry>) -> (t: Tree)
        ensures
            t@ == entries.deep_view(),
    {
        Tree { entries }
    }

    /// The entries, in the tree's canonical order.
    pub fn get_entries(&self) -> (r: &Vec<Entry>)
        ensures
            r.deep_view() == self@,
    {
        &self.entries
    }

    /// The canonical bytes: `"tree <len>\0"` followed by the serialized
    /// entries. The declared length is the length of the entry bytes as
    /// serialized on this very call, never a cached or supplied value.
    pub fn get_bytes(&self) -> (r: Vec<u8>)
        ensures
            r@ == frame_spec(ObjectKind::Tree, tree_payload(self@)),
    {
        let payload = serialize_tree(&self.entries);
        frame(ObjectKind::Tree, payload.as_slice())
    }

    /// The hex identifier of this tree: the hash of its canonical bytes.
    pub fn compute_hash(&self) -> (r: String)
        ensures
            r@ == tree_id_spec(self@),
            r@.len() == 40,
    {
        let canonical = self.get_bytes();
        hash_hex(canonical.as_slice())
    }

    /// The hex digest of arbitrary bytes; a helper for hashing child
    /// payloads while a directory is being built.
    pub fn calculate_data_hash(data: &[u8]) -> (r: String)
        ensures
            r@ == hex_of(sha1_of(data@)),
            r@.len() == 40,
    {
        hash_hex(data)
    }

    /// The entry names, one per entry, in the tree's order. A
    /// presentation projection: the authoritative order is the raw-byte
    /// sort the tree already carries from build or parse time.
    #[verifier::loop_isolation(false)]
    pub fn list_names(&self) -> (r: Vec<Vec<u8>>)
        ensures
            r.deep_view() == names_of(self@),
    {
        let mut out: Vec<Vec<u8>> = Vec::new();
        let mut i: usize = 0;
        while i < self.entries.len()
            invariant
                i <= self@.len(),
                out.deep_view() =~= names_of(self@).subrange(0, i as int),
            decreases self@.len() - i,
        {
            let ghost pre = out.deep_view();
            let nm = copy_bytes(&self.entries[i].name);
            out.push(nm);
            proof {
                assert(nm.deep_view() =~= nm@);
                assert(out.deep_view() =~= pre.push(nm@));
                assert(nm@ == self@[i as int].name);
                assert(names_of(self@).subrange(0, i + 1) =~= names_of(self@).subrange(
                    0,
                    i as int,
                ).push(self@[i as int].name));
            }
            i = i + 1;
        }
        proof {
            assert(names_of(self@).subrange(0, self@.len() as int) =~= names_of(self@));
        }
        out
    }
}

/// The name projection of an entry list.
pub open spec fn names_of(es: Seq<EntryV>) -> Seq<Seq<u8>> {
    Seq::new(es.len(), |i: int| es[i].name)
}

/// The hex identifier an entry list hashes to as a tree object.
pub open spec fn tree_id_spec(es: Seq<EntryV>) -> Seq<char> {
    hex_of(sha1_of(frame_spec(ObjectKind::Tree, tree_payload(es))))
}

/// The parse of whole canonical bytes as a tree object.
pub open spec fn spec_parse_tree_object(s: Seq<u8>) -> Result<Seq<EntryV>, GitError> {
    match spec_parse_object(s) {
        Err(e) => Err(e),
        Ok((k, p)) => match k {
            ObjectKind::Tree => spec_parse_tree(p),
            ObjectKind::Blob => Err(GitError::FormatError),
        },
    }
}

/// Copies a byte vector.
#[verifier::loop_isolation(false)]
fn copy_bytes(v: &Vec<u8>) -> (r: Vec<u8>)
    ensures
        r@ == v@,
{
    let mut out: Vec<u8> = Vec::new();
    let mut i: usize = 0;
    while i < v.len()
        invariant
            i <= v@.len(),
            out@ == v@.subrange(0, i as int),
        decreases v@.len() - i,
    {
        out.push(v[i]);
        proof {
            assert(out@ =~= v@.subrange(0, i + 1));
        }
        i = i + 1;
    }
    proof {
        assert(v@.subrange(0, v@.len() as int) =~= v@);
    }
    out
}

} // verus!
