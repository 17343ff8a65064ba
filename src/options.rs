//! Configuration of a store, of its iterators and of its write batches.
use vstd::prelude::*;
use crate::errors::Errors;

verus! {

/// Which structure keeps the key directory.
#[derive(Debug, Clone, Copy, PartialEq, Eq, Structural)]
pub enum IndexType {
    /// An ordered tree in memory.
    BTree,
    /// A concurrent skip list in memory.
    SkipList,
    /// A B+ tree kept in a file of the data directory.
    BPTree,
}

/// How a data file is read.
#[derive(Debug, Clone, Copy, PartialEq, Eq, Structural)]
pub enum IOType {
    /// Positioned reads and appends on an ordinary file handle.
    StandardFIO,
    /// A read-only memory map, used while the store is scanned at open.
    MemoryMap,
}

/// The least share of the directory's size that must be reclaimable before
/// a merge runs: `numerator / denominator`.
#[derive(Debug, Clone, Copy, PartialEq, Eq, Structural)]
pub struct MergeRatio {
    pub numerator: u64,
    pub denominator: u64,
}

impl MergeRatio {
    /// A ratio between zero and one.
    pub open spec fn valid(&self) -> bool {
        self.denominator > 0 && self.numerator <= self.denominator
    }
}

/// How a store is opened.
#[derive(Debug, Clone)]
pub struct Options {
    /// The data directory.
    pub dir_path: String,
    /// The most bytes a data file may hold before the next one is started.
    pub data_file_size: u64,
    /// Whether every append is flushed to disk.
    pub sync_writes: bool,
    /// Flush after this many bytes have been appended; zero turns it off.
    pub bytes_per_sync: usize,
    /// Which structure keeps the key directory.
    pub index_type: IndexType,
    /// Whether the scan at open reads through memory maps.
    pub mmap_at_startup: bool,
    /// The least reclaimable share of the directory for a merge to run.
    pub data_file_merge_ratio: MergeRatio,
}

impl Default for Options {
    fn default() -> (r: Self)
        ensures
            r.dir_path@ == "/tmp/bitcask-rs"@,
            r.data_file_size == 256 * 1024 * 1024,
            !r.sync_writes,
            r.bytes_per_sync == 0,
            r.index_type == IndexType::BTree,
            r.mmap_at_startup,
            r.data_file_merge_ratio == (MergeRatio { numerator: 1, denominator: 2 }),
    {
        Options {
            dir_path: "/tmp/bitcask-rs".to_owned(),
            data_file_size: 256 * 1024 * 1024,
            sync_writes: false,
            bytes_per_sync: 0,
            index_type: IndexType::BTree,
            mmap_at_startup: true,
            data_file_merge_ratio: MergeRatio { numerator: 1, denominator: 2 },
        }
    }
}

/// The error that opening a store with these options gives before it
/// touches the disk, if any: an empty directory path, a zero file size or a
/// merge ratio outside `[0, 1]`, checked in that order.
pub open spec fn options_error(dir_path_len: nat, data_file_size: u64, ratio: MergeRatio) -> Option<
    Errors,
> {
    if dir_path_len == 0 {
        Some(Errors::DirPathIsEmpty)
    } else if data_file_size == 0 {
        Some(Errors::DataFileSizeTooSmall)
    } else if !ratio.valid() {
        Some(Errors::InvalidDataFileMergeRatio)
    } else {
        None
    }
}

/// Checks the options that `open` is given.
pub fn check_options(opts: &Options) -> (r: Option<Errors>)
    ensures
        r == options_error(opts.dir_path@.len(), opts.data_file_size, opts.data_file_merge_ratio),
{
    if opts.dir_path.as_str().is_empty() {
        return Some(Errors::DirPathIsEmpty);
    }
    if opts.data_file_size == 0 {
        return Some(Errors::DataFileSizeTooSmall);
    }
    let ratio = opts.data_file_merge_ratio;
    if ratio.denominator == 0 || ratio.numerator > ratio.denominator {
        return Some(Errors::InvalidDataFileMergeRatio);
    }
    None
}

/// How an iterator walks the keys.
#[derive(Debug, Clone)]
pub struct IteratorOptions {
    /// Only keys that start with these bytes are yielded.
    pub prefix: Vec<u8>,
    /// Descending order instead of ascending.
    pub reverse: bool,
}

impl Default for IteratorOptions {
    fn default() -> (r: Self)
        ensures
            r.prefix@.len() == 0,
            !r.reverse,
    {
        IteratorOptions { prefix: Vec::new(), reverse: false }
    }
}

/// How a write batch commits.
#[derive(Debug, Clone, Copy)]
pub struct WriteBatchOptions {
    /// The most pending records a commit takes.
    pub max_batch_num: usize,
    /// Whether a commit flushes the active file.
    pub sync_writes: bool,
}

impl Default for WriteBatchOptions {
    fn default() -> (r: Self)
        ensures
            r.max_batch_num == 10000,
            r.sync_writes,
    {
        WriteBatchOptions { max_batch_num: 10000, sync_writes: true }
    }
}

} // verus!
