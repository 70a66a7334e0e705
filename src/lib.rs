//! Storage core of a document database: a log-structured merge tree mapping
//! 96-bit document keys to documents or tombstones.

pub mod memtable;
pub mod membership;
pub mod conf;
pub mod db;
pub mod error;
pub mod key;
pub mod laws;
pub mod level;
pub mod lsm;
pub mod record;
pub mod sstable;
pub mod wal;
