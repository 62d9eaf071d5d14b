//! Options of the store, of its iterators and of its write batches.

use vstd::prelude::*;

use crate::errors::Errors;

verus! {

/// Size at which the active data file is rotated by default: 256 MiB.
pub const DEFAULT_DATA_FILE_SIZE_BYTES: u64 = 268435456;

/// Most records a write batch holds by default.
pub const DEFAULT_MAX_BATCH_SIZE: usize = 8192;

/// Which structure maps keys to record positions.
#[derive(Copy, Clone, Debug, PartialEq, Eq, Structural)]
pub enum IndexType {
    BTree,
    SkipList,
    BPlusTree,
}

/// How data files are read while the index is rebuilt.
#[derive(Copy, Clone, Debug, PartialEq, Eq, Structural)]
pub enum IOType {
    StandardFileIO,
    MmapIO,
}

/// Options of a store.
#[derive(Clone, Debug)]
pub struct Options {
    /// Directory of the store.
    pub dir_path: String,
    /// Size in bytes past which the active data file is rotated.
    pub data_file_size: u64,
    /// Flush the active file after every write.
    pub sync_write: bool,
    /// Flush once this many bytes were written since the last flush; 0
    /// disables it.
    pub bytes_per_sync: usize,
    /// Structure of the index.
    pub index_type: IndexType,
    /// How data files are read at startup.
    pub io_type: IOType,
}

impl Default for Options {
    fn default() -> (r: Self)
        ensures
            r.dir_path@.len() == 0,
            r.data_file_size == DEFAULT_DATA_FILE_SIZE_BYTES,
            !r.sync_write,
            r.bytes_per_sync == 0,
            r.index_type == IndexType::BPlusTree,
            r.io_type == IOType::MmapIO,
    {
        Options {
            dir_path: String::new(),
            data_file_size: DEFAULT_DATA_FILE_SIZE_BYTES,
            sync_write: false,
            bytes_per_sync: 0,
            index_type: IndexType::BPlusTree,
            io_type: IOType::MmapIO,
        }
    }
}

/// Options of an iterator over the store.
#[derive(Clone, Debug)]
pub struct IteratorOptions {
    /// Walk the keys in descending order.
    pub reverse: bool,
    /// Yield only keys that start with these bytes.
    pub prefix: Vec<u8>,
}

impl Default for IteratorOptions {
    fn default() -> (r: Self)
        ensures
            !r.reverse,
            r.prefix@.len() == 0,
    {
        IteratorOptions { reverse: false, prefix: Vec::new() }
    }
}

/// Options of a write batch.
#[derive(Clone, Copy, Debug)]
pub struct WriteBatchOptions {
    /// Most records one batch may commit.
    pub max_batch_size: usize,
    /// Flush the active file when the batch commits.
    pub sync_write: bool,
}

impl Default for WriteBatchOptions {
    fn default() -> (r: Self)
        ensures
            r.max_batch_size == DEFAULT_MAX_BATCH_SIZE,
            !r.sync_write,
    {
        WriteBatchOptions { max_batch_size: DEFAULT_MAX_BATCH_SIZE, sync_write: false }
    }
}

/// What `check_options` answers for options with this directory and file
/// size.
pub open spec fn options_check(dir_path: Seq<char>, data_file_size: u64) -> Result<(), Errors> {
    if dir_path.len() == 0 {
        Err(Errors::DirPathIsEmpty)
    } else if data_file_size == 0 {
        Err(Errors::DataFileSizeIsTooSmall)
    } else {
        Ok(())
    }
}

/// Rejects an empty directory path and a data file size of zero.
pub fn check_options(opts: &Options) -> (r: Result<(), Errors>)
    ensures
        r == options_check(opts.dir_path@, opts.data_file_size),
{
    if opts.dir_path.as_str().is_empty() {
        return Err(Errors::DirPathIsEmpty);
    }
    if opts.data_file_size == 0 {
        return Err(Errors::DataFileSizeIsTooSmall);
    }
    Ok(())
}

} // verus!
