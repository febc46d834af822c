//! A content-addressed directory auditing library.
//!
//! The library fingerprints file content by size plus the digest of a bounded
//! content prefix, serializes those fingerprints as snapshot lines, reconciles
//! an expected snapshot against an observed current state into a classified
//! change set (changed / copied / moved / deleted / added), and groups records
//! with duplicate content.

pub mod diff;
pub mod duplicates;
pub mod hashing;
pub mod laws;
pub mod paths;
pub mod records;
pub mod snapshot;
pub mod sorting;
pub mod summary;
pub mod text;
pub mod timestamp;
