//! A hash index from `u64` keys to row ids.
use vstd::prelude::*;

use crate::db::storage::heap::RowId;
use std::collections::HashMap;

verus! {

broadcast use vstd::std_specs::hash::group_hash_axioms;

/// Read after write: after indexing `key` under `row`, looking `key` up gives
/// `row` and every other key gives what it gave before; after deleting `key`,
/// looking it up gives nothing.
pub proof fn index_get_after_write(entries: Map<u64, RowId>, key: u64, row: RowId, other: u64)
    ensures
        entries.insert(key, row).contains_key(key) && entries.insert(key, row)[key] == row,
        other != key ==> (entries.insert(key, row).contains_key(other) == entries.contains_key(other)
            && entries.insert(key, row)[other] == entries[other]),
        !entries.remove(key).contains_key(key),
{
}

#[derive(Debug, Default)]
pub struct HashIndex {
    entries: HashMap<u64, RowId>,
}

impl View for HashIndex {
    type V = Map<u64, RowId>;

    /// The key-to-row map the index holds.
    closed spec fn view(&self) -> Map<u64, RowId> {
        self.entries@
    }
}

impl HashIndex {
    /// Every index holds finitely many keys.
    pub closed spec fn wf(&self) -> bool {
        self.entries@.dom().finite()
    }

    /// A well-formed index holds finitely many keys.
    pub proof fn lemma_wf(&self)
        requires
            self.wf(),
        ensures
            self@.dom().finite(),
    {
    }

    pub fn new() -> (index: Self)
        ensures
            index.wf(),
            index@ == Map::<u64, RowId>::empty(),
    {
        HashIndex { entries: HashMap::new() }
    }

    /// Maps `key` to `row_id`, replacing any earlier row of that key.
    pub fn insert(&mut self, key: u64, row_id: RowId)
        requires
            old(self).wf(),
        ensures
            final(self).wf(),
            final(self)@ == old(self)@.insert(key, row_id),
    {
        self.entries.insert(key, row_id);
    }

    /// The row of `key`, if the index holds it.
    pub fn get(&self, key: u64) -> (r: Option<RowId>)
        ensures
            r == (if self@.contains_key(key) {
                Some(self@[key])
            } else {
                None::<RowId>
            }),
    {
        match self.entries.get(&key) {
            Some(row_id) => Some(*row_id),
            None => None,
        }
    }

    /// Removes `key`, returning its row if the index held it.
    pub fn delete(&mut self, key: u64) -> (r: Option<RowId>)
        requires
            old(self).wf(),
        ensures
            final(self).wf(),
            final(self)@ == old(self)@.remove(key),
            r == (if old(self)@.contains_key(key) {
                Some(old(self)@[key])
            } else {
                None::<RowId>
            }),
    {
        self.entries.remove(&key)
    }

    /// The number of keys held.
    pub fn len(&self) -> (r: usize)
        requires
            self.wf(),
        ensures
            r == self@.len(),
    {
        self.entries.len()
    }

    /// Whether no key is held.
    pub fn is_empty(&self) -> (r: bool)
        requires
            self.wf(),
        ensures
            r == (self@.len() == 0),
    {
        self.entries.is_empty()
    }
}

} // verus!
