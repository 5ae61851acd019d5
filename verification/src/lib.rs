//! An append-only Merkle Mountain Range accumulator.
//!
//! Leaves are digested into a layered structure: level 0 holds leaf digests,
//! and whenever a level reaches an even length its last two entries are folded
//! into one entry of the level above, like carry propagation in a binary
//! counter. The set of levels with an odd length (the peaks) determines the
//! root digest, and inclusion proofs walk a sibling path from a leaf up to its
//! containing peak.

pub mod arith;
pub mod digest;
pub mod hashing;
pub mod laws;
pub mod mmr;
pub mod model;

pub use digest::Digest;
pub use hashing::HashType;
pub use mmr::MerkleMountainRange;
pub use mmr::MmrError;
