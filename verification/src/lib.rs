//! Strata: a sharded, replicated, transactional vector database core.
//!
//! Everything in this crate is verified: the storage engine, the consensus
//! state machine, the shard state machine, the transaction protocol, the
//! proximity-graph indexes and the query planner. Disk, network, clocks and
//! floating-point distances live outside; they exchange plain values with the
//! functions here.
pub mod bitmap;
pub mod bytes;
pub mod checksum;
pub mod codec;
pub mod consensus;
pub mod decimal;
pub mod index;
pub mod planner;
pub mod planner_laws;
pub mod random;
pub mod runtime;
pub mod service;
pub mod service_laws;
pub mod sharding;
pub mod storage;
pub mod text;
pub mod txn;

use vstd::prelude::*;

verus! {

} // verus!
