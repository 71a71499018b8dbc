//! Transactions over shards.
pub mod atomicity;
pub mod clock;
pub mod coordinator;
pub mod coordinator_laws;
pub mod error;
pub mod locking;
pub mod read;
