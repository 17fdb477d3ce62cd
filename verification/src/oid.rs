//! Object identifiers: 160-bit content digests in raw and hex form.
//!
//! An identifier exists in two losslessly interconvertible forms: 20 raw
//! bytes and 40 lowercase hex characters. The hex form also names the
//! on-disk shard path: the first two characters give the directory, the
//! remaining 38 the file.

use vstd::prelude::*;
use vstd::string::StrSliceExecFns;
use vstd::string::StringExecFns;

use crate::errors::GitError;

verus! {

/// The SHA-1 digest of a byte sequence, as the hashing library computes
/// it: a pure function of the input bytes alone, identical across runs
/// and processes.
pub uninterp spec fn sha1_of(data: Seq<u8>) -> Seq<u8>;

/// Relies on sha1_smol's `Sha1::new`/`update`/`digest` and
/// `Digest::bytes`: the 20-byte SHA-1 digest of exactly the bytes fed in,
/// depending on nothing but those bytes.
#[verifier::external_body]
fn sha1_digest(data: &[u8]) -> (r: Vec<u8>)
    ensures
        r@ == sha1_of(data@),
        r@.len() == 20,
{
    let mut h = sha1_smol::Sha1::new();
    h.update(data);
    h.digest().bytes().to_vec()
}

/// The lowercase hex character for a nibble.
pub open spec fn hex_digit(n: int) -> char {
    if n == 0 {
        '0'
    } else if n == 1 {
        '1'
    } else if n == 2 {
        '2'
    } else if n == 3 {
        '3'
    } else if n == 4 {
        '4'
    } else if n == 5 {
        '5'
    } else if n == 6 {
        '6'
    } else if n == 7 {
        '7'
    } else if n == 8 {
        '8'
    } else if n == 9 {
        '9'
    } else if n == 10 {
        'a'
    } else if n == 11 {
        'b'
    } else if n == 12 {
        'c'
    } else if n == 13 {
        'd'
    } else if n == 14 {
        'e'
    } else {
        'f'
    }
}

/// The lowercase hex spelling of a byte sequence, two characters a byte.
pub open spec fn hex_of(bs: Seq<u8>) -> Seq<char>
    decreases bs.len(),
{
    if bs.len() == 0 {
        Seq::empty()
    } else {
        seq![hex_digit((bs[0] / 16) as int), hex_digit((bs[0] % 16) as int)] + hex_of(bs.skip(1))
    }
}

/// A lowercase hex character.
pub open spec fn is_lower_hex(c: char) -> bool {
    (48 <= c as int <= 57) || (97 <= c as int <= 102)
}

/// The nibble a lowercase hex character denotes.
pub open spec fn hex_val(c: char) -> int {
    if 48 <= c as int <= 57 {
        c as int - 48
    } else {
        c as int - 87
    }
}

/// A well-formed identifier string: exactly 40 lowercase hex characters.
pub open spec fn valid_hex_id(s: Seq<char>) -> bool {
    s.len() == 40 && forall|i: int| 0 <= i < s.len() ==> is_lower_hex(#[trigger] s[i])
}

/// Hex spelling grows two characters with each byte.
pub proof fn lemma_hex_of_push(bs: Seq<u8>, b: u8)
    ensures
        hex_of(bs.push(b)) == hex_of(bs) + seq![hex_digit((b / 16) as int), hex_digit((b % 16) as int)],
    decreases bs.len(),
{
    let s = bs.push(b);
    if bs.len() == 0 {
        assert(s.skip(1) =~= Seq::<u8>::empty());
        assert(bs =~= Seq::<u8>::empty());
        assert(hex_of(Seq::<u8>::empty()) == Seq::<char>::empty());
        assert(s[0] == b);
        assert(hex_of(s) =~= hex_of(bs) + seq![hex_digit((b / 16) as int), hex_digit((b % 16) as int)]);
    } else {
        assert(s.skip(1) =~= bs.skip(1).push(b));
        lemma_hex_of_push(bs.skip(1), b);
        assert(s[0] == bs[0]);
        assert(hex_of(s) =~= hex_of(bs) + seq![hex_digit((b / 16) as int), hex_digit((b % 16) as int)]);
    }
}

/// Hex spelling is twice as long as the bytes, and every character of it
/// is lowercase hex.
pub proof fn lemma_hex_of_shape(bs: Seq<u8>)
    ensures
        hex_of(bs).len() == 2 * bs.len(),
        forall|i: int| 0 <= i < hex_of(bs).len() ==> is_lower_hex(#[trigger] hex_of(bs)[i]),
    decreases bs.len(),
{
    if bs.len() > 0 {
        lemma_hex_of_shape(bs.skip(1));
        assert(is_lower_hex(hex_digit((bs[0] / 16) as int)));
        assert(is_lower_hex(hex_digit((bs[0] % 16) as int)));
    }
}

/// The single-character string for a nibble.
fn hex_char_str(n: u8) -> (s: &'static str)
    requires
        n < 16,
    ensures
        s@ =~= seq![hex_digit(n as int)],
{
    if n == 0 {
        proof {
            reveal_strlit("0");
        }
        "0"
    } else if n == 1 {
        proof {
            reveal_strlit("1");
        }
        "1"
    } else if n == 2 {
        proof {
            reveal_strlit("2");
        }
        "2"
    } else if n == 3 {
        proof {
            reveal_strlit("3");
        }
        "3"
    } else if n == 4 {
        proof {
            reveal_strlit("4");
        }
        "4"
    } else if n == 5 {
        proof {
            reveal_strlit("5");
        }
        "5"
    } else if n == 6 {
        proof {
            reveal_strlit("6");
        }
        "6"
    } else if n == 7 {
        proof {
            reveal_strlit("7");
        }
        "7"
    } else if n == 8 {
        proof {
            reveal_strlit("8");
        }
        "8"
    } else if n == 9 {
        proof {
            reveal_strlit("9");
        }
        "9"
    } else if n == 10 {
        proof {
            reveal_strlit("a");
        }
        "a"
    } else if n == 11 {
        proof {
            reveal_strlit("b");
        }
        "b"
    } else if n == 12 {
        proof {
            reveal_strlit("c");
        }
        "c"
    } else if n == 13 {
        proof {
            reveal_strlit("d");
        }
        "d"
    } else if n == 14 {
        proof {
            reveal_strlit("e");
        }
        "e"
    } else {
        proof {
            reveal_strlit("f");
        }
        "f"
    }
}

/// Spells a byte sequence in lowercase hex.
#[verifier::loop_isolation(false)]
pub fn hex_string_of(bytes: &[u8]) -> (r: String)
    ensures
        r@ == hex_of(bytes@),
        r@.len() == 2 * bytes@.len(),
{
    let mut out = String::new();
    let mut i: usize = 0;
    while i < bytes.len()
        invariant
            i <= bytes@.len(),
            out@ == hex_of(bytes@.subrange(0, i as int)),
        decreases bytes@.len() - i,
    {
        let b = bytes[i];
        out.append(hex_char_str(b / 16));
        out.append(hex_char_str(b % 16));
        proof {
            assert(bytes@.subrange(0, i + 1) =~= bytes@.subrange(0, i as int).push(bytes@[i as int]));
            lemma_hex_of_push(bytes@.subrange(0, i as int), bytes@[i as int]);
            assert(out@ =~= hex_of(bytes@.subrange(0, i + 1)));
        }
        i = i + 1;
    }
    proof {
        assert(bytes@.subrange(0, bytes@.len() as int) =~= bytes@);
        lemma_hex_of_shape(bytes@);
    }
    out
}

/// The hex digest of arbitrary bytes, as a 40-character string.
pub fn hash_hex(data: &[u8]) -> (r: String)
    ensures
        r@ == hex_of(sha1_of(data@)),
        r@.len() == 40,
{
    let digest = sha1_digest(data);
    hex_string_of(digest.as_slice())
}

/// Each nibble's hex character reads back as that nibble.
proof fn lemma_hex_digit_val(n: int)
    requires
        0 <= n < 16,
    ensures
        is_lower_hex(hex_digit(n)),
        hex_val(hex_digit(n)) == n,
{
}

/// The characters a byte contributes to the hex spelling.
proof fn lemma_hex_of_index(bs: Seq<u8>, i: int)
    requires
        0 <= i < bs.len(),
    ensures
        hex_of(bs).len() == 2 * bs.len(),
        hex_of(bs)[2 * i] == hex_digit((bs[i] / 16) as int),
        hex_of(bs)[2 * i + 1] == hex_digit((bs[i] % 16) as int),
    decreases i,
{
    lemma_hex_of_shape(bs);
    if i > 0 {
        lemma_hex_of_index(bs.skip(1), i - 1);
        assert(bs.skip(1)[i - 1] == bs[i]);
    }
}

/// Raw and hex forms interconvert losslessly: reading the hex spelling
/// of any byte sequence nibble by nibble gives back exactly those bytes,
/// and the spelling of 20 bytes is a well-formed identifier string.
pub proof fn lemma_hex_round_trip(bs: Seq<u8>)
    ensures
        hex_of(bs).len() == 2 * bs.len(),
        forall|i: int|
            0 <= i < bs.len() ==> hex_val(#[trigger] hex_of(bs)[2 * i]) * 16 + hex_val(
                hex_of(bs)[2 * i + 1],
            ) == bs[i],
        bs.len() == 20 ==> valid_hex_id(hex_of(bs)),
{
    lemma_hex_of_shape(bs);
    assert forall|i: int|
        0 <= i < bs.len() implies hex_val(#[trigger] hex_of(bs)[2 * i]) * 16 + hex_val(
        hex_of(bs)[2 * i + 1],
    ) == bs[i] by {
        lemma_hex_of_index(bs, i);
        lemma_hex_digit_val((bs[i] / 16) as int);
        lemma_hex_digit_val((bs[i] % 16) as int);
    }
}

/// A 160-bit content digest held as its 20 raw bytes.
#[derive(Debug, PartialEq, Eq)]
pub struct ObjectId {
    bytes: Vec<u8>,
}

impl View for ObjectId {
    type V = Seq<u8>;

    closed spec fn view(&self) -> Seq<u8> {
        self.bytes@
    }
}

impl ObjectId {
    /// A well-formed identifier holds exactly 20 bytes.
    pub open spec fn wf(&self) -> bool {
        self@.len() == 20
    }

    /// Wraps 20 raw digest bytes.
    pub fn from_raw(bytes: Vec<u8>) -> (r: ObjectId)
        requires
            bytes@.len() == 20,
        ensures
            r@ == bytes@,
            r.wf(),
    {
        ObjectId { bytes }
    }

    /// The identifier of a byte sequence: the digest of exactly those bytes.
    pub fn of_data(data: &[u8]) -> (r: ObjectId)
        ensures
            r@ == sha1_of(data@),
            r.wf(),
    {
        ObjectId { bytes: sha1_digest(data) }
    }

    /// An owned copy of this identifier.
    pub fn duplicate(&self) -> (r: ObjectId)
        ensures
            r@ == self@,
    {
        ObjectId { bytes: vstd::slice::slice_to_vec(self.bytes.as_slice()) }
    }

    /// The raw 20-byte form.
    pub fn as_raw(&self) -> (r: &Vec<u8>)
        ensures
            r@ == self@,
    {
        &self.bytes
    }

    /// The 40-character lowercase hex form.
    pub fn to_hex(&self) -> (r: String)
        ensures
            r@ == hex_of(self@),
            self.wf() ==> r@.len() == 40,
    {
        hex_string_of(self.bytes.as_slice())
    }

    /// Whether two identifiers hold the same digest.
    #[verifier::loop_isolation(false)]
    pub fn same_as(&self, other: &ObjectId) -> (r: bool)
        ensures
            r == (self@ == other@),
    {
        if self.bytes.len() != other.bytes.len() {
            return false;
        }
        let mut i: usize = 0;
        while i < self.bytes.len()
            invariant
                i <= self@.len(),
                self@.len() == other@.len(),
                forall|j: int| 0 <= j < i ==> self@[j] == other@[j],
            decreases self@.len() - i,
        {
            if self.bytes[i] != other.bytes[i] {
                return false;
            }
            i = i + 1;
        }
        proof {
            assert(self@ =~= other@);
        }
        true
    }

    /// Reads an identifier from its 40-character lowercase hex spelling.
    /// Anything that is not exactly 40 lowercase hex characters is a
    /// length/shape failure, reported before any further work happens.
    #[verifier::loop_isolation(false)]
    pub fn from_hex(s: &str) -> (r: Result<ObjectId, GitError>)
        ensures
            match r {
                Ok(id) => {
                    &&& valid_hex_id(s@)
                    &&& id.wf()
                    &&& forall|i: int|
                        0 <= i < 20 ==> #[trigger] id@[i] == hex_val(s@[2 * i]) * 16 + hex_val(
                            s@[2 * i + 1],
                        )
                },
                Err(e) => e == GitError::ShaLengthError && !valid_hex_id(s@),
            },
    {
        if s.unicode_len() != 40 {
            return Err(GitError::ShaLengthError);
        }
        let mut bytes: Vec<u8> = Vec::new();
        let mut i: usize = 0;
        while i < 20
            invariant
                i <= 20,
                s@.len() == 40,
                bytes@.len() == i,
                forall|j: int| 0 <= j < 2 * i ==> is_lower_hex(#[trigger] s@[j]),
                forall|j: int|
                    0 <= j < i ==> #[trigger] bytes@[j] == hex_val(s@[2 * j]) * 16 + hex_val(
                        s@[2 * j + 1],
                    ),
            decreases 20 - i,
        {
            let hi = match nibble_of(s.get_char(2 * i)) {
                Some(v) => v,
                None => {
                    return Err(GitError::ShaLengthError);
                },
            };
            let lo = match nibble_of(s.get_char(2 * i + 1)) {
                Some(v) => v,
                None => {
                    return Err(GitError::ShaLengthError);
                },
            };
            bytes.push(hi * 16 + lo);
            i = i + 1;
        }
        Ok(ObjectId { bytes })
    }
}

/// The nibble of a lowercase hex character, if it is one.
fn nibble_of(c: char) -> (r: Option<u8>)
    ensures
        r is Some <==> is_lower_hex(c),
        r is Some ==> r->0 == hex_val(c) && r->0 < 16,
{
    let u = c as u32;
    if 48 <= u && u <= 57 {
        Some((u - 48) as u8)
    } else if 97 <= u && u <= 102 {
        Some((u - 87) as u8)
    } else {
        None
    }
}

/// Splits a 40-character hex identifier into its shard path: the first
/// two characters name the directory, the remaining 38 the file. Anything
/// that is not exactly 40 lowercase hex characters is rejected before any
/// path is formed.
#[verifier::loop_isolation(false)]
pub fn get_hash_path_sha(hash: &str) -> (r: Result<(&str, &str), GitError>)
    ensures
        match r {
            Ok((d, f)) => {
                &&& valid_hex_id(hash@)
                &&& d@ == hash@.subrange(0, 2)
                &&& f@ == hash@.subrange(2, 40)
            },
            Err(e) => e == GitError::ShaLengthError && !valid_hex_id(hash@),
        },
{
    if hash.unicode_len() != 40 {
        return Err(GitError::ShaLengthError);
    }
    let mut i: usize = 0;
    while i < 40
        invariant
            i <= 40,
            hash@.len() == 40,
            forall|j: int| 0 <= j < i ==> is_lower_hex(#[trigger] hash@[j]),
        decreases 40 - i,
    {
        if nibble_of(hash.get_char(i)).is_none() {
            return Err(GitError::ShaLengthError);
        }
        i = i + 1;
    }
    let dir = hash.substring_char(0, 2);
    let file = hash.substring_char(2, 40);
    Ok((dir, file))
}

} // verus!
