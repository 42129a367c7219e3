//! The in-memory index: a mapping from key bytes to record positions.

pub mod btree;

use vstd::prelude::*;
use crate::data::log_record::LogRecordPos;
use crate::index::btree::BTree;
use crate::options::IndexType;

verus! {

/// The index capability. The index does not know about tombstones: the
/// engine translates a `DELETE` operation, or a `DELETE` record seen during
/// replay, into a `delete` call here.
pub trait Indexer: Sized {
    /// The mapping the index currently holds.
    spec fn entries(&self) -> Map<Seq<u8>, LogRecordPos>;

    /// The index's internal invariant; constructors establish it and every
    /// operation preserves it.
    spec fn wf(&self) -> bool;

    /// Inserts or overwrites; returns `true` on success.
    fn put(&mut self, key: Vec<u8>, pos: LogRecordPos) -> (r: bool)
        requires
            old(self).wf(),
        ensures
            r,
            final(self).wf(),
            final(self).entries() == old(self).entries().insert(key@, pos),
    ;

    /// The latest position recorded for `key`, or none.
    fn get(&self, key: Vec<u8>) -> (r: Option<LogRecordPos>)
        requires
            self.wf(),
        ensures
            (match r {
                Some(pos) => self.entries().contains_key(key@) && pos == self.entries()[key@],
                None => !self.entries().contains_key(key@),
            }),
    ;

    /// Returns `true` iff a mapping existed and was removed.
    fn delete(&mut self, key: Vec<u8>) -> (r: bool)
        requires
            old(self).wf(),
        ensures
            r == old(self).entries().contains_key(key@),
            final(self).wf(),
            final(self).entries() == old(self).entries().remove(key@),
    ;
}

/// The index implementation selected by `index_type`. The sorted-map index
/// is the one this library provides.
pub fn create_indexer(index_type: IndexType) -> (r: BTree)
    requires
        index_type == IndexType::BTree,
    ensures
        r.wf(),
        r.entries() == Map::<Seq<u8>, LogRecordPos>::empty(),
{
    match index_type {
        IndexType::BTree => BTree::new(),
        IndexType::SkipList => vstd::pervasive::unreached(),
    }
}

} // verus!
