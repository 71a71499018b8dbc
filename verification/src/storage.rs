//! The storage engine: a multi-version log-structured merge tree.
pub mod arrangement;
pub mod block;
pub mod bloom;
pub mod compaction;
pub mod compaction_laws;
pub mod damage_laws;
pub mod engine;
pub mod error;
pub mod files_laws;
pub mod key;
pub mod levels_laws;
pub mod lsm;
pub mod lsm_laws;
pub mod lsm_model;
pub mod manifest;
pub mod memtable;
pub mod order_laws;
pub mod reader;
pub mod recovery_laws;
pub mod roundtrip;
pub mod scan;
pub mod skiplist;
pub mod sstable;
pub mod timestamp;
pub mod wal;
