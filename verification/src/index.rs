//! Indexes for nearest-neighbour search.
//!
//! Vectors and their distances stay with the caller: the indexes work on the
//! numbers of vectors, and compare distances by their rank, a number that grows
//! with the distance.
pub mod beam;
pub mod disk;
pub mod disk_laws;
pub mod error;
pub mod hnsw;
pub mod hnsw_laws;
pub mod learned;
pub mod measure;
pub mod order;
pub mod vamana;
pub mod vamana_laws;
pub mod walk;
