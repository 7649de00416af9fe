//! A log-structured merge tree: writes go to an in-memory B+ tree, the
//! memtable, which is to be written out as a sorted table once it holds more
//! than `MEM_LIMIT` writes.
use crate::ordered::{has_key, insert_sorted, Key};
use crate::storage_engine::btree2::BTree;
use vstd::prelude::*;

verus! {

/// The number of writes the memtable takes before it is written out.
pub const MEM_LIMIT: usize = 1024 * 1024 * 10;

/// A memtable and the number of writes made to it.
pub struct LSMT<K, V> {
    mem_table: BTree<K, V>,
    count: usize,
}

impl<K: Key, V> LSMT<K, V> {
    /// The in-memory tree.
    pub closed spec fn table(&self) -> BTree<K, V> {
        self.mem_table
    }

    /// The number of writes made so far.
    pub closed spec fn writes(&self) -> nat {
        self.count as nat
    }
}

impl<K: Key, V: Copy> LSMT<K, V> {
    /// An empty memtable with no write counted.
    pub fn new() -> (r: Self)
        ensures
            r.table().wf(),
            r.table().entries() == Seq::<(K, V)>::empty(),
            r.table().height_spec() == 1,
            r.writes() == 0,
    {
        Self { mem_table: BTree::new(), count: 0 }
    }

    /// Counts one write and tells whether the count is now past
    /// `MEM_LIMIT`, so that the memtable is to be written out before the
    /// write goes into it.
    pub fn count_write(&mut self) -> (spill: bool)
        requires
            old(self).writes() < usize::MAX,
        ensures
            final(self).writes() == old(self).writes() + 1,
            final(self).table() == old(self).table(),
            spill == (final(self).writes() > MEM_LIMIT),
    {
        self.count = self.count + 1;
        self.count > MEM_LIMIT
    }

    /// Puts the pair into the memtable; a key it already holds keeps the
    /// value it has.
    pub fn put(&mut self, key: K, val: V)
        requires
            old(self).table().wf(),
        ensures
            final(self).writes() == old(self).writes(),
            final(self).table().wf(),
            final(self).table().entries() == if has_key(old(self).table().entries(), key) {
                old(self).table().entries()
            } else {
                insert_sorted(old(self).table().entries(), key, val)
            },
    {
        if !self.mem_table.contains_key(key) {
            self.mem_table.insert(key, val);
        }
    }

    /// Counts the write and puts the pair into the memtable (see `put`).
    pub fn insert(&mut self, key: K, val: V)
        requires
            old(self).table().wf(),
            old(self).writes() < usize::MAX,
        ensures
            final(self).writes() == old(self).writes() + 1,
            final(self).table().wf(),
            final(self).table().entries() == if has_key(old(self).table().entries(), key) {
                old(self).table().entries()
            } else {
                insert_sorted(old(self).table().entries(), key, val)
            },
    {
        self.count_write();
        self.put(key, val);
    }

    /// The number of writes made so far.
    pub fn count(&self) -> (r: usize)
        ensures
            r == self.writes(),
    {
        self.count
    }

    /// The memtable.
    pub fn mem_table(&self) -> (r: &BTree<K, V>)
        ensures
            r == self.table(),
    {
        &self.mem_table
    }
}

} // verus!
