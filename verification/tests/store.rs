//! Compressed storage, content-addressed idempotence, and read-back.

use git_objects::errors::GitError;
use git_objects::oid::ObjectId;
use git_objects::store::{decode_reader_bytes, encode_writer, Store};
use git_objects::tree::{Entry, FileType, Tree};

#[test]
fn decode_recovers_a_real_zlib_stream() {
    // The zlib stream for "blob 5\0hello": decoding must undo real
    // compression, not hand the input back.
    let compressed: Vec<u8> = vec![
        120, 218, 75, 202, 201, 79, 82, 48, 101, 200, 72, 205, 201, 201, 7, 0, 25, 170, 4, 9,
    ];
    let decoded = decode_reader_bytes(compressed.as_slice()).unwrap();
    assert_eq!(decoded, b"blob 5\x00hello".to_vec());
    assert_ne!(compressed, decoded);
}

#[test]
fn decode_fails_explicitly_on_malformed_input() {
    assert!(matches!(
        decode_reader_bytes(b"this is not a zlib stream"),
        Err(GitError::CorruptObject)
    ));
}

#[test]
fn encode_then_decode_round_trips() {
    let data = b"tree 0\x00".to_vec();
    let compressed = encode_writer(data.as_slice());
    assert_ne!(compressed, data);
    let decoded = decode_reader_bytes(compressed.as_slice()).unwrap();
    assert_eq!(decoded, data);
}

#[test]
fn write_twice_is_idempotent_and_not_an_error() {
    let mut store = Store::new();
    let id1 = store.compute_and_store_blob(b"hello");
    assert!(store.contains(&id1));

    // Second write of the identical content: no error, same identifier,
    // and the stored object still reads back unchanged.
    let id2 = store.compute_and_store_blob(b"hello");
    assert_eq!(id1.as_raw(), id2.as_raw());
    assert!(store.contains(&id2));
    assert_eq!(store.read_blob_payload(&id1).unwrap(), b"hello".to_vec());

    // A direct second write under the same identifier also succeeds.
    let canonical = b"blob 5\x00hello".to_vec();
    assert_eq!(store.write(&id1, canonical.as_slice()), Ok(()));
    assert_eq!(store.read(&id1).unwrap(), canonical);
}

#[test]
fn store_read_back_gives_canonical_bytes() {
    let mut store = Store::new();
    let id = store.compute_and_store_blob(b"hello");
    assert_eq!(id.to_hex().as_str(), "b6fc4c620b67d95f953a5c1c1230aaab5db5a1b0");
    assert_eq!(store.read(&id).unwrap(), b"blob 5\x00hello".to_vec());
    assert_eq!(store.read_blob_payload(&id).unwrap(), b"hello".to_vec());
}

#[test]
fn missing_object_is_not_found() {
    let store = Store::new();
    let id = ObjectId::of_data(b"anything");
    assert!(matches!(store.read(&id), Err(GitError::NotFound)));
    assert!(matches!(store.read_blob_payload(&id), Err(GitError::NotFound)));
    assert!(matches!(store.read_tree(&id), Err(GitError::NotFound)));
    assert!(!store.contains(&id));
}

#[test]
fn tree_store_round_trip() {
    let mut store = Store::new();
    let child = store.compute_and_store_blob(b"contents");
    let entries = vec![Entry::new(
        FileType::RegularFile,
        b"file.txt".to_vec(),
        child.as_raw().clone(),
    )];
    let tree = Tree::from_entries(entries);
    let id = store.compute_and_store_tree(&tree);
    let back = store.read_tree(&id).unwrap();
    assert_eq!(back.compute_hash(), tree.compute_hash());
    assert_eq!(back.list_names(), vec![b"file.txt".to_vec()]);
}

#[test]
fn reading_a_blob_as_a_tree_is_a_format_error() {
    let mut store = Store::new();
    let id = store.compute_and_store_blob(b"hello");
    assert!(matches!(store.read_tree(&id), Err(GitError::FormatError)));
}

#[test]
fn reading_a_tree_as_a_blob_is_a_format_error() {
    let mut store = Store::new();
    let tree = Tree::from_entries(vec![]);
    let id = store.compute_and_store_tree(&tree);
    assert!(matches!(store.read_blob_payload(&id), Err(GitError::FormatError)));
}

#[test]
fn empty_tree_stores_under_the_known_identifier() {
    let mut store = Store::new();
    let tree = Tree::from_entries(vec![]);
    let id = store.compute_and_store_tree(&tree);
    assert_eq!(id.to_hex().as_str(), "4b825dc642cb6eb9a060e54bf8d69288fbee4904");
    assert_eq!(store.read(&id).unwrap(), b"tree 0\x00".to_vec());
}
