//! Raft consensus: one replica's state, what each event does to it, and what
//! the replicas of a group guarantee together.
pub mod applying;
pub mod cluster;
pub mod config;
pub mod durability;
pub mod election;
pub mod membership;
pub mod messages;
pub mod node;
pub mod persist;
pub mod progress;
pub mod safety;
pub mod snapshots;
pub mod state;
pub mod transition;
pub mod wire;
