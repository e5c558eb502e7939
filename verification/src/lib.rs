//! Order-preserving map over a vector, decomposed into contiguous chunks so
//! that a driver may hand each chunk to a worker of its own.

pub mod chunking;
pub mod mapper;
pub mod model;

pub use chunking::{chunk_size, partition, split_chunks};
pub use mapper::{compute, join_outcomes, join_parts, map_chunk, runs_inline, THRESHOLD};
