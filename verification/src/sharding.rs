//! Placing keys on shards and shards on nodes, and the state machine of a shard.
pub mod commands;
pub mod lists;
pub mod machine;
pub mod machine_laws;
pub mod network;
pub mod network_laws;
pub mod rebalance;
pub mod rebalance_laws;
pub mod records;
pub mod routing;
pub mod routing_laws;
pub mod transfer;
