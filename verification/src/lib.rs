//! Content-addressed indexing of directory trees: streaming SHA-256 digests,
//! entry classification, a shared work queue with quiescence detection, and
//! aggregation of hashed files by digest.

pub mod aggregate;
pub mod classify;
pub mod digest;
pub mod model;
pub mod outcome;
pub mod pool;
pub mod queue;
pub mod termination;
pub mod traversal;
