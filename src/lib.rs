//! A log-structured key-value store in the Bitcask style: records are
//! appended to numbered data files and an in-memory key directory maps each
//! live key to the position of its latest record.
//!
//! This crate holds the verified core: the record codec, the key directory
//! and its iterator, and the decisions of the engine (append and rotation,
//! reclaim accounting, recovery, write batches and merge).
use vstd::prelude::*;

pub mod data_file;
pub mod engine;
pub mod errors;
pub mod index;
pub mod log_record;
pub mod merge;
pub mod options;
pub mod order;
pub mod skiplist;
pub mod batch;
pub mod bytes_util;
pub mod varint;

verus! {

} // verus!
