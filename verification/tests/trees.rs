//! Tree entry serialization, parsing, ordering, and building.

use git_objects::errors::GitError;
use git_objects::tree::{serialize_tree, Entry, FileType, Tree};

fn sha_of_byte(b: u8) -> Vec<u8> {
    vec![b; 20]
}

#[test]
fn serialize_single_entry_layout() {
    let entries = vec![Entry::new(
        FileType::RegularFile,
        b"a.txt".to_vec(),
        sha_of_byte(7),
    )];
    let payload = serialize_tree(&entries);
    let mut expected = b"100644 a.txt\x00".to_vec();
    expected.extend_from_slice(&[7u8; 20]);
    assert_eq!(payload, expected);
}

#[test]
fn tree_round_trip_keeps_entries() {
    // Names with spaces and non-text bytes; identifiers holding NUL bytes.
    let mut sha1 = vec![0u8; 20];
    sha1[19] = 1;
    let entries = vec![
        Entry::new(FileType::Directory, b"dir with space".to_vec(), sha_of_byte(0)),
        Entry::new(FileType::ExecutableFile, vec![0xffu8, 0xfe, 32, 65], sha1.clone()),
        Entry::new(FileType::SymbolicLink, b"link".to_vec(), sha_of_byte(255)),
        Entry::new(FileType::RegularFile, b"plain.txt".to_vec(), sha_of_byte(42)),
    ];
    let payload = serialize_tree(&entries);
    let parsed = Tree::parse_body(payload.as_slice()).unwrap();
    assert_eq!(parsed.len(), entries.len());
    for (p, e) in parsed.iter().zip(entries.iter()) {
        assert_eq!(p.get_mode(), e.get_mode());
        assert_eq!(p.get_name(), e.get_name());
        assert_eq!(p.get_sha(), e.get_sha());
    }
}

#[test]
fn unknown_mode_fails_with_invalid_mode() {
    let mut payload = b"999999 a.txt\x00".to_vec();
    payload.extend_from_slice(&[9u8; 20]);
    assert!(matches!(
        Tree::parse_body(payload.as_slice()),
        Err(GitError::InvalidMode)
    ));
}

#[test]
fn leading_zero_mode_fails_with_invalid_mode() {
    let mut payload = b"040000 d\x00".to_vec();
    payload.extend_from_slice(&[9u8; 20]);
    assert!(matches!(
        Tree::parse_body(payload.as_slice()),
        Err(GitError::InvalidMode)
    ));
}

#[test]
fn entry_without_space_fails_with_invalid_mode() {
    let mut payload = b"100644\x00".to_vec();
    payload.extend_from_slice(&[9u8; 20]);
    assert!(matches!(
        Tree::parse_body(payload.as_slice()),
        Err(GitError::InvalidMode)
    ));
}

#[test]
fn short_identifier_fails_with_truncated_entry() {
    let mut payload = b"100644 a.txt\x00".to_vec();
    payload.extend_from_slice(&[9u8; 19]);
    assert!(matches!(
        Tree::parse_body(payload.as_slice()),
        Err(GitError::TruncatedEntry)
    ));
}

#[test]
fn body_without_nul_fails_with_truncated_entry() {
    assert!(matches!(
        Tree::parse_body(b"100644 a.txt"),
        Err(GitError::TruncatedEntry)
    ));
}

#[test]
fn empty_directory_builds_empty_hashable_tree() {
    let tree = Tree::from_entries(vec![]);
    let payload = serialize_tree(tree.get_entries());
    assert_eq!(payload.len(), 0);
    assert_eq!(tree.get_bytes(), b"tree 0\x00".to_vec());
    assert_eq!(
        tree.compute_hash().as_str(),
        "4b825dc642cb6eb9a060e54bf8d69288fbee4904"
    );
    assert!(Tree::parse_body(b"").unwrap().is_empty());
}

#[test]
fn two_files_sort_by_name_regardless_of_arrival_order() {
    let entries = vec![
        Entry::new(FileType::RegularFile, b"b.txt".to_vec(), sha_of_byte(2)),
        Entry::new(FileType::RegularFile, b"a.txt".to_vec(), sha_of_byte(1)),
    ];
    let tree = Tree::from_entries(entries);
    let names = tree.list_names();
    assert_eq!(names.len(), 2);
    assert_eq!(names[0], b"a.txt".to_vec());
    assert_eq!(names[1], b"b.txt".to_vec());

    // The serialized payload carries a.txt's entry before b.txt's.
    let payload = serialize_tree(tree.get_entries());
    let mut expected = b"100644 a.txt\x00".to_vec();
    expected.extend_from_slice(&[1u8; 20]);
    expected.extend_from_slice(b"100644 b.txt\x00");
    expected.extend_from_slice(&[2u8; 20]);
    assert_eq!(payload, expected);
}

#[test]
fn sort_is_raw_byte_order_not_case_folded() {
    let entries = vec![
        Entry::new(FileType::RegularFile, b"a".to_vec(), sha_of_byte(1)),
        Entry::new(FileType::RegularFile, b"B".to_vec(), sha_of_byte(2)),
    ];
    let tree = Tree::from_entries(entries);
    let names = tree.list_names();
    // 'B' (0x42) sorts before 'a' (0x61) in raw byte order.
    assert_eq!(names[0], b"B".to_vec());
    assert_eq!(names[1], b"a".to_vec());
}

#[test]
fn parse_header_accepts_only_trees() {
    let (size, off) = Tree::parse_header(b"tree 0\x00").unwrap();
    assert_eq!(size, 0);
    assert_eq!(off, 7);
    assert!(matches!(
        Tree::parse_header(b"blob 5\x00hello"),
        Err(GitError::FormatError)
    ));
}

#[test]
fn from_canonical_round_trips_a_built_tree() {
    let entries = vec![
        Entry::new(FileType::Directory, b"sub".to_vec(), sha_of_byte(3)),
        Entry::new(FileType::RegularFile, b"file".to_vec(), sha_of_byte(4)),
    ];
    let tree = Tree::from_entries(entries);
    let canonical = tree.get_bytes();
    let parsed = Tree::from_canonical(canonical.as_slice()).unwrap();
    assert_eq!(parsed.compute_hash(), tree.compute_hash());
    let a = parsed.get_entries();
    let b = tree.get_entries();
    assert_eq!(a.len(), b.len());
    for (p, e) in a.iter().zip(b.iter()) {
        assert_eq!(p.get_mode(), e.get_mode());
        assert_eq!(p.get_name(), e.get_name());
        assert_eq!(p.get_sha(), e.get_sha());
    }
}

#[test]
fn mode_codes_round_trip() {
    assert_eq!(FileType::from_code(40000).unwrap(), FileType::Directory);
    assert_eq!(FileType::from_code(100755).unwrap(), FileType::ExecutableFile);
    assert_eq!(FileType::from_code(100644).unwrap(), FileType::RegularFile);
    assert_eq!(FileType::from_code(120000).unwrap(), FileType::SymbolicLink);
    assert_eq!(FileType::from_code(100645), Err(GitError::InvalidMode));
    assert_eq!(FileType::Directory.code(), 40000);
    assert_eq!(FileType::SymbolicLink.code(), 120000);
}
