//! Object layer of a minimal content-addressable version-control store.
//!
//! File content and directory structure are canonically framed as
//! `"<kind> <payload-length>\0<payload>"`, hashed, compressed, and kept as
//! immutable, deduplicated objects keyed by the hash of their own canonical
//! bytes. Two object kinds exist: blobs (raw file bytes) and trees (sorted
//! lists of mode/name/child-identifier entries).

pub mod blob;
pub mod codec;
pub mod errors;
pub mod oid;
pub mod store;
pub mod tree;
