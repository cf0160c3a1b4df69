//! A content-addressed object store in the manner of a version-control
//! system's plumbing: object framing, digests, tree and commit objects,
//! and the retrieval of what was stored.

pub mod hex;
pub mod bytes;
pub mod codec;
pub mod order;
pub mod tree;
pub mod commit;
pub mod store;
pub mod listing;
