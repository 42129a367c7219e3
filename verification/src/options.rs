//! The configuration an engine is opened with.

use vstd::prelude::*;

verus! {

/// Options for opening an engine.
#[derive(Clone, Debug)]
pub struct Options {
    /// Directory holding the data files; must be non-empty.
    pub dir_path: String,
    /// Soft maximum size of one data file in bytes; rotation triggers when
    /// the next append would exceed it. Must be positive.
    pub file_size: u64,
    /// If true, every write is followed by a sync before the call returns.
    pub sync: bool,
    /// Selects the in-memory index implementation.
    pub index_type: IndexType,
}

/// The available index implementations.
#[derive(Clone, Copy, Debug, PartialEq, Eq, Structural)]
pub enum IndexType {
    BTree,
    SkipList,
}

} // verus!
