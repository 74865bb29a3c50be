//! Content-addressed fingerprints for directory trees: build a Merkle tree
//! from flat `(path, digest)` pairs, diff two trees, and read the root
//! digest. The tree construction, the diff, and the laws they obey are
//! verified; only the digest primitive itself is taken on trust from the
//! sha2 and hex crates.
pub mod digest;
pub mod laws;
pub mod merkle;
pub mod paths;
pub mod strorder;
