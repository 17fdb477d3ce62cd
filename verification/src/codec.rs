//! Canonical object framing shared by all object kinds.
//!
//! An object's canonical bytes are `"<kind> <payload-length>\0<payload>"`:
//! the kind token (`"blob"` or `"tree"`), one space, the payload length as
//! a decimal with no leading zeros, a NUL, and the payload itself. The
//! object's identity is the hash of exactly these bytes.

use vstd::prelude::*;

use crate::errors::GitError;

verus! {

/// The two object kinds the store handles.
#[derive(Clone, Copy, Debug, PartialEq, Eq, Structural)]
pub enum ObjectKind {
    Blob,
    Tree,
}

/// The header token that names an object kind on the wire.
pub open spec fn kind_token(k: ObjectKind) -> Seq<u8> {
    match k {
        ObjectKind::Blob => seq![98u8, 108u8, 111u8, 98u8],  // "blob"
        ObjectKind::Tree => seq![116u8, 114u8, 101u8, 101u8],  // "tree"
    }
}

/// An ASCII decimal digit.
pub open spec fn is_digit(b: u8) -> bool {
    48 <= b <= 57
}

/// The decimal representation of `n`: digits in order, no leading zeros.
pub open spec fn dec_rep(n: nat) -> Seq<u8>
    decreases n,
{
    if n < 10 {
        seq![(48 + n) as u8]
    } else {
        dec_rep(n / 10) + seq![(48 + n % 10) as u8]
    }
}

/// The value of a digit sequence read as a decimal.
pub open spec fn dec_val(s: Seq<u8>) -> nat
    decreases s.len(),
{
    if s.len() == 0 {
        0
    } else {
        (dec_val(s.drop_last()) * 10 + (s.last() - 48)) as nat
    }
}

/// A digit sequence that `dec_rep` can produce: nonempty, all digits,
/// and no leading zero unless it is exactly "0".
pub open spec fn canonical_digits(s: Seq<u8>) -> bool {
    &&& s.len() >= 1
    &&& forall|i: int| 0 <= i < s.len() ==> is_digit(#[trigger] s[i])
    &&& (s.len() > 1 ==> s[0] != 48)
}

/// The canonical byte framing of a payload under a kind.
pub open spec fn frame_spec(k: ObjectKind, p: Seq<u8>) -> Seq<u8> {
    kind_token(k) + seq![32u8] + dec_rep(p.len()) + seq![0u8] + p
}

/// `dec_rep` yields canonical digits, with a nonzero lead for nonzero values.
pub proof fn lemma_dec_rep_canonical(n: nat)
    ensures
        canonical_digits(dec_rep(n)),
        n > 0 ==> dec_rep(n)[0] != 48,
    decreases n,
{
    if n < 10 {
        assert(dec_rep(n) =~= seq![(48 + n) as u8]);
    } else {
        lemma_dec_rep_canonical(n / 10);
        let p = dec_rep(n / 10);
        let s = dec_rep(n);
        assert forall|i: int| 0 <= i < s.len() implies is_digit(#[trigger] s[i]) by {
            if i < p.len() {
                assert(s[i] == p[i]);
            } else {
                assert(s[i] == (48 + n % 10) as u8);
            }
        }
        assert(s[0] == p[0]);
    }
}

/// Reading back the decimal representation gives the value written.
pub proof fn lemma_dec_val_of_rep(n: nat)
    ensures
        dec_val(dec_rep(n)) == n,
    decreases n,
{
    if n < 10 {
        assert(dec_rep(n) =~= seq![(48 + n) as u8]);
        assert(dec_rep(n).drop_last() =~= Seq::<u8>::empty());
        assert(dec_val(Seq::<u8>::empty()) == 0);
    } else {
        lemma_dec_val_of_rep(n / 10);
        assert(dec_rep(n).drop_last() =~= dec_rep(n / 10));
        assert(dec_rep(n).last() == (48 + n % 10) as u8);
        vstd::arithmetic::div_mod::lemma_fundamental_div_mod(n as int, 10);
    }
}

/// A digit sequence with a nonzero leading digit has a positive value.
proof fn lemma_dec_val_pos(s: Seq<u8>)
    requires
        canonical_digits(s),
        s[0] != 48,
    ensures
        dec_val(s) >= 1,
    decreases s.len(),
{
    if s.len() > 1 {
        lemma_dec_val_pos(s.drop_last());
    }
}

/// Canonical digits are the decimal representation of their own value.
pub proof fn lemma_dec_rep_of_val(s: Seq<u8>)
    requires
        canonical_digits(s),
    ensures
        dec_rep(dec_val(s)) == s,
    decreases s.len(),
{
    if s.len() == 1 {
        assert(s.drop_last() =~= Seq::<u8>::empty());
        assert(dec_val(Seq::<u8>::empty()) == 0);
        assert(dec_val(s) == (s.last() - 48) as nat);
        assert(is_digit(s[0]));
        assert(dec_rep(dec_val(s)) =~= s);
    } else {
        let p = s.drop_last();
        let d = (s.last() - 48) as nat;
        lemma_dec_rep_of_val(p);
        lemma_dec_val_pos(p);
        let v = dec_val(s);
        assert(v == dec_val(p) * 10 + d);
        assert(dec_val(p) * 10 >= 1 * 10) by (nonlinear_arith)
            requires
                dec_val(p) >= 1,
        ;
        vstd::arithmetic::div_mod::lemma_fundamental_div_mod_converse(
            v as int,
            10,
            dec_val(p) as int,
            d as int,
        );
        assert(dec_rep(v) == dec_rep(dec_val(p)) + seq![(48 + d) as u8]);
        assert((48 + d) as u8 == s.last());
        assert(p + seq![s.last()] =~= s);
        assert(dec_rep(v) == s);
    }
}

/// On an all-digit sequence, reading more digits never shrinks the value.
pub proof fn lemma_dec_val_prefix_le(s: Seq<u8>, i: int)
    requires
        0 <= i <= s.len(),
        forall|j: int| 0 <= j < s.len() ==> is_digit(#[trigger] s[j]),
    ensures
        dec_val(s.subrange(0, i)) <= dec_val(s),
    decreases s.len() - i,
{
    if i < s.len() {
        lemma_dec_val_prefix_le(s, i + 1);
        let a = s.subrange(0, i);
        let b = s.subrange(0, i + 1);
        assert(b.drop_last() =~= a);
        assert(is_digit(b.last()));
        assert(dec_val(a) * 10 >= dec_val(a) * 1) by (nonlinear_arith);
    } else {
        assert(s.subrange(0, i) =~= s);
    }
}

/// The index of the first occurrence of `b` in `s`, if any.
pub open spec fn find_byte(s: Seq<u8>, b: u8) -> Option<int>
    decreases s.len(),
{
    if s.len() == 0 {
        None
    } else if s[0] == b {
        Some(0int)
    } else {
        match find_byte(s.skip(1), b) {
            Some(i) => Some(i + 1),
            None => None,
        }
    }
}

/// `find_byte` returns the position of a first occurrence.
pub proof fn lemma_find_byte_at(s: Seq<u8>, b: u8, h: int)
    requires
        0 <= h < s.len(),
        s[h] == b,
        forall|j: int| 0 <= j < h ==> s[j] != b,
    ensures
        find_byte(s, b) == Some(h),
    decreases h,
{
    if h > 0 {
        let t = s.skip(1);
        assert(forall|j: int| 0 <= j < h - 1 ==> t[j] == s[j + 1]);
        lemma_find_byte_at(t, b, h - 1);
    }
}

/// `find_byte` finds nothing only when the byte never occurs.
pub proof fn lemma_find_byte_none(s: Seq<u8>, b: u8)
    requires
        forall|j: int| 0 <= j < s.len() ==> s[j] != b,
    ensures
        find_byte(s, b) is None,
    decreases s.len(),
{
    if s.len() > 0 {
        lemma_find_byte_none(s.skip(1), b);
    }
}

/// What a successful `find_byte` says about its input.
pub proof fn lemma_find_byte_some(s: Seq<u8>, b: u8)
    requires
        find_byte(s, b) is Some,
    ensures
        0 <= find_byte(s, b)->0 < s.len(),
        s[find_byte(s, b)->0] == b,
        forall|j: int| 0 <= j < find_byte(s, b)->0 ==> s[j] != b,
    decreases s.len(),
{
    if s.len() > 0 && s[0] != b {
        let t = s.skip(1);
        lemma_find_byte_some(t, b);
        assert(forall|j: int| 0 <= j < t.len() ==> t[j] == s[j + 1]);
        let h = find_byte(s, b)->0;
        assert forall|j: int| 0 <= j < h implies s[j] != b by {
            if j > 0 {
                assert(s[j] == t[j - 1]);
            }
        }
    }
}

/// The header parse of canonical object bytes: the kind, the declared
/// payload length, and the offset where the payload starts. Fails when the
/// kind token is unrecognized, the length is not a canonical decimal that
/// the machine can hold, or no NUL terminates the header.
pub open spec fn spec_parse_header(s: Seq<u8>) -> Result<(ObjectKind, nat, int), GitError> {
    match find_byte(s, 0) {
        None => Err(GitError::FormatError),
        Some(h) => {
            if h < 6 {
                Err(GitError::FormatError)
            } else {
                let tok = s.subrange(0, 4);
                let digits = s.subrange(5, h);
                if tok != kind_token(ObjectKind::Blob) && tok != kind_token(ObjectKind::Tree) {
                    Err(GitError::FormatError)
                } else if s[4] != 32 {
                    Err(GitError::FormatError)
                } else if !(canonical_digits(digits) && dec_val(digits) <= usize::MAX as nat) {
                    Err(GitError::FormatError)
                } else {
                    let kind = if tok == kind_token(ObjectKind::Blob) {
                        ObjectKind::Blob
                    } else {
                        ObjectKind::Tree
                    };
                    Ok((kind, dec_val(digits), h + 1))
                }
            }
        },
    }
}

/// The full parse of canonical object bytes into a kind and a payload.
/// The declared length must equal the length of the payload actually
/// present; anything else is a malformed object.
pub open spec fn spec_parse_object(s: Seq<u8>) -> Result<(ObjectKind, Seq<u8>), GitError> {
    match spec_parse_header(s) {
        Err(e) => Err(e),
        Ok((k, n, off)) => {
            if n == s.len() - off {
                Ok((k, s.subrange(off, s.len() as int)))
            } else {
                Err(GitError::FormatError)
            }
        },
    }
}

/// Appends the decimal representation of `n` to `out`.
#[verifier::rlimit(30)]
fn push_decimal(out: &mut Vec<u8>, n: usize)
    ensures
        final(out)@ == old(out)@ + dec_rep(n as nat),
{
    let mut ds: Vec<u8> = Vec::new();
    let mut m: usize = n;
    while m >= 10
        invariant
            dec_rep(n as nat) == dec_rep(m as nat) + ds@.reverse(),
        decreases m,
    {
        let d: u8 = (m % 10) as u8 + 48;
        let ghost ds_old = ds@;
        ds.push(d);
        proof {
            assert(ds@.reverse() =~= seq![d] + ds_old.reverse());
            assert(dec_rep(m as nat) == dec_rep((m / 10) as nat) + seq![d]);
            assert(dec_rep((m / 10) as nat) + seq![d] + ds_old.reverse() =~= dec_rep(
                (m / 10) as nat,
            ) + (seq![d] + ds_old.reverse()));
        }
        m = m / 10;
    }
    out.push((m as u8) + 48);
    proof {
        assert(dec_rep(m as nat) =~= seq![(m as u8 + 48) as u8]);
    }
    let mut i: usize = ds.len();
    while i > 0
        invariant
            i <= ds.len(),
            out@ == old(out)@ + dec_rep(m as nat) + ds@.subrange(i as int, ds@.len() as int).reverse(),
            dec_rep(n as nat) == dec_rep(m as nat) + ds@.reverse(),
        decreases i,
    {
        let ghost pre = out@;
        i = i - 1;
        out.push(ds[i]);
        proof {
            assert(ds@.subrange(i as int, ds@.len() as int).reverse() =~= ds@.subrange(
                i + 1,
                ds@.len() as int,
            ).reverse() + seq![ds@[i as int]]);
            assert(out@ =~= pre + seq![ds@[i as int]]);
        }
    }
    proof {
        assert(ds@.subrange(0, ds@.len() as int) =~= ds@);
        assert(out@ =~= old(out)@ + dec_rep(n as nat));
    }
}

/// Frames a payload into its canonical bytes under the given kind.
///
/// The declared length is recomputed from the payload handed in; it is
/// never a cached or externally supplied value.
pub fn frame(kind: ObjectKind, payload: &[u8]) -> (r: Vec<u8>)
    ensures
        r@ == frame_spec(kind, payload@),
{
    let mut out: Vec<u8> = Vec::new();
    match kind {
        ObjectKind::Blob => {
            out.push(98);
            out.push(108);
            out.push(111);
            out.push(98);
        },
        ObjectKind::Tree => {
            out.push(116);
            out.push(114);
            out.push(101);
            out.push(101);
        },
    }
    out.push(32);
    proof {
        assert(out@ =~= kind_token(kind) + seq![32u8]);
    }
    push_decimal(&mut out, payload.len());
    out.push(0);
    out.extend_from_slice(payload);
    proof {
        assert(out@ =~= frame_spec(kind, payload@));
    }
    out
}

/// Parses a canonical object header: kind, declared payload length, and
/// the offset where the payload starts. The declared length is for
/// validation; callers must hold it against the payload they actually have.
#[verifier::loop_isolation(false)]
pub fn parse_header(data: &[u8]) -> (r: Result<(ObjectKind, usize, usize), GitError>)
    ensures
        match (r, spec_parse_header(data@)) {
            (Ok((k, n, off)), Ok(sp)) => k == sp.0 && n as nat == sp.1 && off as int == sp.2,
            (Err(e1), Err(e2)) => e1 == e2,
            _ => false,
        },
{
    let mut h: usize = 0;
    while h < data.len() && data[h] != 0
        invariant
            h <= data@.len(),
            forall|j: int| 0 <= j < h ==> data@[j] != 0,
        decreases data@.len() - h,
    {
        h = h + 1;
    }
    if h == data.len() {
        proof {
            lemma_find_byte_none(data@, 0);
        }
        return Err(GitError::FormatError);
    }
    proof {
        lemma_find_byte_at(data@, 0, h as int);
    }
    if h < 6 {
        return Err(GitError::FormatError);
    }
    let is_blob = data[0] == 98 && data[1] == 108 && data[2] == 111 && data[3] == 98;
    let is_tree = data[0] == 116 && data[1] == 114 && data[2] == 101 && data[3] == 101;
    proof {
        let tok = data@.subrange(0, 4);
        if is_blob {
            assert(tok =~= kind_token(ObjectKind::Blob));
        }
        if is_tree {
            assert(tok =~= kind_token(ObjectKind::Tree));
        }
        if tok == kind_token(ObjectKind::Blob) {
            assert(data@[0] == 98 && data@[1] == 108 && data@[2] == 111 && data@[3] == 98);
        }
        if tok == kind_token(ObjectKind::Tree) {
            assert(data@[0] == 116 && data@[1] == 114 && data@[2] == 101 && data@[3] == 101);
        }
    }
    if !is_blob && !is_tree {
        return Err(GitError::FormatError);
    }
    if data[4] != 32 {
        return Err(GitError::FormatError);
    }
    let ghost digits = data@.subrange(5, h as int);
    let mut i: usize = 5;
    while i < h
        invariant
            5 <= i <= h < data@.len(),
            digits == data@.subrange(5, h as int),
            forall|j: int| 5 <= j < i ==> is_digit(#[trigger] data@[j]),
        decreases h - i,
    {
        let b = data[i];
        if b < 48 || b > 57 {
            proof {
                assert(digits[i - 5] == data@[i as int]);
            }
            return Err(GitError::FormatError);
        }
        i = i + 1;
    }
    proof {
        assert(forall|j: int| 0 <= j < digits.len() ==> digits[j] == data@[j + 5]);
        assert(forall|j: int| 0 <= j < digits.len() ==> is_digit(#[trigger] digits[j]));
    }
    if h > 6 && data[5] == 48 {
        proof {
            assert(digits[0] == 48 && digits.len() > 1);
        }
        return Err(GitError::FormatError);
    }
    proof {
        assert(canonical_digits(digits));
    }
    let mut v: usize = 0;
    let mut i2: usize = 5;
    while i2 < h
        invariant
            5 <= i2 <= h < data@.len(),
            digits == data@.subrange(5, h as int),
            forall|j: int| 0 <= j < digits.len() ==> is_digit(#[trigger] digits[j]),
            v as nat == dec_val(data@.subrange(5, i2 as int)),
        decreases h - i2,
    {
        proof {
            assert(digits[i2 - 5] == data@[i2 as int]);
            assert(is_digit(data@[i2 as int]));
        }
        let d = (data[i2] - 48) as usize;
        proof {
            assert(data@.subrange(5, i2 + 1).drop_last() =~= data@.subrange(5, i2 as int));
            assert(data@.subrange(5, i2 + 1).last() == data@[i2 as int]);
            assert(dec_val(data@.subrange(5, i2 + 1)) == v * 10 + d);
            vstd::arithmetic::div_mod::lemma_fundamental_div_mod(
                (usize::MAX - d) as int,
                10,
            );
        }
        if v > (usize::MAX - d) / 10 {
            proof {
                assert(v * 10 >= ((usize::MAX - d) / 10 + 1) * 10) by (nonlinear_arith)
                    requires
                        v >= (usize::MAX - d) / 10 + 1,
                ;
                assert(v * 10 + d > usize::MAX);
                assert(dec_val(data@.subrange(5, i2 + 1)) > usize::MAX as nat);
                assert(data@.subrange(5, i2 + 1) =~= digits.subrange(0, i2 + 1 - 5));
                lemma_dec_val_prefix_le(digits, i2 + 1 - 5);
                assert(dec_val(digits) > usize::MAX as nat);
            }
            return Err(GitError::FormatError);
        }
        proof {
            assert(v * 10 <= ((usize::MAX - d) / 10) * 10) by (nonlinear_arith)
                requires
                    v <= (usize::MAX - d) / 10,
            ;
        }
        v = v * 10 + d;
        i2 = i2 + 1;
    }
    proof {
        assert(data@.subrange(5, h as int) == digits);
        assert(v as nat == dec_val(digits));
    }
    let kind = if is_blob {
        ObjectKind::Blob
    } else {
        ObjectKind::Tree
    };
    Ok((kind, v, h + 1))
}

/// Parses canonical object bytes into their kind and payload, holding the
/// declared length against the payload that is actually present.
pub fn parse_object(data: &[u8]) -> (r: Result<(ObjectKind, Vec<u8>), GitError>)
    ensures
        match (r, spec_parse_object(data@)) {
            (Ok((k, p)), Ok(sp)) => k == sp.0 && p@ == sp.1,
            (Err(e1), Err(e2)) => e1 == e2,
            _ => false,
        },
{
    let (kind, n, off) = match parse_header(data) {
        Ok(t) => t,
        Err(e) => {
            return Err(e);
        },
    };
    proof {
        lemma_find_byte_some(data@, 0);
    }
    if data.len() - off != n {
        return Err(GitError::FormatError);
    }
    let payload = vstd::slice::slice_to_vec(
        vstd::slice::slice_subrange(data, off, data.len()),
    );
    Ok((kind, payload))
}

/// Round trip: parsing a framed payload gives back the kind and the
/// payload, for every payload the machine can hold.
pub proof fn lemma_parse_of_frame(k: ObjectKind, p: Seq<u8>)
    requires
        p.len() <= usize::MAX,
    ensures
        spec_parse_object(frame_spec(k, p)) == Ok::<(ObjectKind, Seq<u8>), GitError>((k, p)),
{
    let s = frame_spec(k, p);
    let ds = dec_rep(p.len());
    lemma_dec_rep_canonical(p.len());
    lemma_dec_val_of_rep(p.len());
    let h = 5 + ds.len() as int;
    assert(s.len() == 6 + ds.len() + p.len());
    proof_kind_token_bytes(k);
    assert forall|j: int| 0 <= j < h implies s[j] != 0 by {
        if j < 4 {
            assert(s[j] == kind_token(k)[j]);
        } else if j == 4 {
            assert(s[j] == 32);
        } else {
            assert(s[j] == ds[j - 5]);
            assert(is_digit(ds[j - 5]));
        }
    }
    assert(s[h] == 0);
    lemma_find_byte_at(s, 0, h);
    assert(s.subrange(0, 4) =~= kind_token(k));
    assert(s.subrange(5, h) =~= ds);
    assert(kind_token(ObjectKind::Blob)[0] == 98 && kind_token(ObjectKind::Tree)[0] == 116);
    assert(s.subrange(h + 1, s.len() as int) =~= p);
}

/// The bytes of each kind token: printable ASCII, never NUL.
proof fn proof_kind_token_bytes(k: ObjectKind)
    ensures
        kind_token(k).len() == 4,
        forall|j: int| 0 <= j < 4 ==> 32 < #[trigger] kind_token(k)[j] < 127,
{
    let t = kind_token(k);
    match k {
        ObjectKind::Blob => {
            assert(t[0] == 98 && t[1] == 108 && t[2] == 111 && t[3] == 98);
        },
        ObjectKind::Tree => {
            assert(t[0] == 116 && t[1] == 114 && t[2] == 101 && t[3] == 101);
        },
    }
    assert forall|j: int| 0 <= j < 4 implies 32 < #[trigger] t[j] < 127 by {
        assert(j == 0 || j == 1 || j == 2 || j == 3);
    }
}

/// Only framed bytes parse: a successful parse recovers the exact framing.
pub proof fn lemma_parse_object_sound(s: Seq<u8>)
    requires
        spec_parse_object(s) is Ok,
    ensures
        s == frame_spec(spec_parse_object(s)->Ok_0.0, spec_parse_object(s)->Ok_0.1),
{
    lemma_find_byte_some(s, 0);
    let h = find_byte(s, 0)->0;
    let digits = s.subrange(5, h);
    lemma_dec_rep_of_val(digits);
    let (k, p) = spec_parse_object(s)->Ok_0;
    let tok = s.subrange(0, 4);
    assert(tok == kind_token(k));
    assert(p == s.subrange(h + 1, s.len() as int));
    assert(p.len() == dec_val(digits));
    assert(s =~= kind_token(k) + seq![32u8] + dec_rep(p.len()) + seq![0u8] + p);
}

} // verus!
