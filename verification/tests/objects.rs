//! Framing, hashing and identifier behaviour of the object layer.

use git_objects::blob::Blob;
use git_objects::codec::{frame, parse_header, parse_object, ObjectKind};
use git_objects::errors::GitError;
use git_objects::oid::{get_hash_path_sha, hash_hex, ObjectId};
use git_objects::tree::Tree;

#[test]
fn frame_blob_canonical_bytes() {
    let framed = frame(ObjectKind::Blob, b"hello");
    assert_eq!(framed, b"blob 5\x00hello".to_vec());
}

#[test]
fn frame_empty_payload() {
    let framed = frame(ObjectKind::Tree, b"");
    assert_eq!(framed, b"tree 0\x00".to_vec());
}

#[test]
fn parse_of_frame_round_trips() {
    let payload: Vec<u8> = vec![0, 1, 2, 0, 255, 254, 32, 10, 0];
    let framed = frame(ObjectKind::Blob, payload.as_slice());
    let (kind, parsed) = parse_object(framed.as_slice()).unwrap();
    assert_eq!(kind, ObjectKind::Blob);
    assert_eq!(parsed, payload);

    let framed = frame(ObjectKind::Tree, payload.as_slice());
    let (kind, parsed) = parse_object(framed.as_slice()).unwrap();
    assert_eq!(kind, ObjectKind::Tree);
    assert_eq!(parsed, payload);
}

#[test]
fn parse_header_reads_kind_length_offset() {
    let (kind, len, off) = parse_header(b"blob 11\x00hello world").unwrap();
    assert_eq!(kind, ObjectKind::Blob);
    assert_eq!(len, 11);
    assert_eq!(off, 8);
}

#[test]
fn parse_header_rejects_unknown_kind() {
    assert_eq!(parse_header(b"bogus 3\x00abc"), Err(GitError::FormatError));
}

#[test]
fn parse_header_rejects_bad_length() {
    assert_eq!(parse_header(b"blob x\x00abc"), Err(GitError::FormatError));
    assert_eq!(parse_header(b"blob \x00abc"), Err(GitError::FormatError));
    assert_eq!(parse_header(b"blob 05\x00hello"), Err(GitError::FormatError));
}

#[test]
fn parse_header_rejects_missing_nul() {
    assert_eq!(parse_header(b"blob 3abc"), Err(GitError::FormatError));
}

#[test]
fn parse_object_rejects_length_mismatch() {
    assert_eq!(parse_object(b"blob 4\x00hello"), Err(GitError::FormatError));
    assert_eq!(parse_object(b"blob 6\x00hello"), Err(GitError::FormatError));
}

#[test]
fn blob_hash_is_deterministic() {
    let a = Blob::new(b"same bytes".to_vec());
    let b = Blob::new(b"same bytes".to_vec());
    assert_eq!(a.compute_hash(), b.compute_hash());
}

#[test]
fn blob_hello_hash_matches_canonical_bytes_hash() {
    let blob = Blob::new(b"hello".to_vec());
    let from_blob = blob.compute_hash();
    let from_canonical = hash_hex(b"blob 5\x00hello");
    assert_eq!(from_blob, from_canonical);
    assert_eq!(from_blob.as_str(), "b6fc4c620b67d95f953a5c1c1230aaab5db5a1b0");
}

#[test]
fn blob_get_bytes_frames_contents() {
    let blob = Blob::new(vec![104, 105]);
    assert_eq!(blob.get_bytes(), b"blob 2\x00hi".to_vec());
}

#[test]
fn calculate_data_hash_hashes_raw_bytes() {
    let h = Tree::calculate_data_hash(b"blob 5\x00hello");
    assert_eq!(h.as_str(), "b6fc4c620b67d95f953a5c1c1230aaab5db5a1b0");
}

#[test]
fn object_id_hex_round_trip() {
    let id = ObjectId::of_data(b"blob 5\x00hello");
    let hex = id.to_hex();
    assert_eq!(hex.as_str(), "b6fc4c620b67d95f953a5c1c1230aaab5db5a1b0");
    let back = ObjectId::from_hex(hex.as_str()).unwrap();
    assert_eq!(back.as_raw(), id.as_raw());
    assert_eq!(id.as_raw().len(), 20);
}

#[test]
fn identifier_of_length_39_fails() {
    let short = "b6fc4c620b67d95f953a5c1c1230aaab5db5a1b";
    assert_eq!(short.len(), 39);
    assert_eq!(ObjectId::from_hex(short), Err(GitError::ShaLengthError));
    assert_eq!(get_hash_path_sha(short), Err(GitError::ShaLengthError));
}

#[test]
fn identifier_of_length_41_fails() {
    let long = "b6fc4c620b67d95f953a5c1c1230aaab5db5a1b00";
    assert_eq!(long.len(), 41);
    assert_eq!(ObjectId::from_hex(long), Err(GitError::ShaLengthError));
    assert_eq!(get_hash_path_sha(long), Err(GitError::ShaLengthError));
}

#[test]
fn identifier_with_non_hex_character_fails() {
    let bad = "b6fc4c620b67d95f953a5c1c1230aaab5db5a1bZ";
    assert_eq!(bad.len(), 40);
    assert_eq!(ObjectId::from_hex(bad), Err(GitError::ShaLengthError));
    assert_eq!(get_hash_path_sha(bad), Err(GitError::ShaLengthError));
}

#[test]
fn shard_path_splits_two_then_thirty_eight() {
    let (dir, file) = get_hash_path_sha("b6fc4c620b67d95f953a5c1c1230aaab5db5a1b0").unwrap();
    assert_eq!(dir, "b6");
    assert_eq!(file, "fc4c620b67d95f953a5c1c1230aaab5db5a1b0");
    assert_eq!(dir.len(), 2);
    assert_eq!(file.len(), 38);
}
