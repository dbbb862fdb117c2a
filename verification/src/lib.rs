//! Incremental Merkle-style tree hashing over a byte stream.
//!
//! The input is consumed as chunks of at most 1 MiB; each chunk is hashed
//! with SHA-256 into a leaf digest, and adjacent equal-level digests are
//! eagerly combined on an explicit stack, so that the whole computation
//! needs only logarithmically many 32-byte frames.  A final forced pass
//! combines the remaining frames, unequal levels included, into one root
//! digest, which callers usually render as a lowercase hex string.

pub mod hex;
pub mod tree_hash;

pub use hex::from_hex_string;
pub use hex::to_hex_string;
pub use tree_hash::collapse_stack;
pub use tree_hash::compute_tree_hash;
pub use tree_hash::rollup;
pub use tree_hash::run_sha256;
pub use tree_hash::TreeHashError;
pub use tree_hash::TreeHashStackFrame;
pub use tree_hash::TreeHasher;
pub use tree_hash::ONE_MB;
