//! A Bitcask-style log-structured key/value store: the record format, the
//! in-memory indexes, atomic write batches and the decisions of the storage
//! engine, each with a contract that its code is proved to meet.

pub mod batch;
pub mod data_file;
pub mod decimal;
pub mod engine;
pub mod errors;
pub mod index;
pub mod keys;
pub mod log_record;
pub mod merge;
pub mod options;
pub mod recovery;
pub mod seq_key;
pub mod skiplist;
pub mod varint;
