//! A table: a heap file of records plus a primary hash index on a `u64` key.
use vstd::prelude::*;

use crate::db::index::hash::HashIndex;
use crate::db::storage::heap::{
    first_fit, heap_delete, heap_lookup, lemma_first_fit_bounds, HeapFile, RowId, MAX_PAGES,
};
use crate::db::storage::page::{PageError, HEADER_SIZE, PAGE_SIZE, SLOT_SIZE};

verus! {

/// The outcome of looking up `key` in a table whose index maps keys by `index`
/// and whose heap holds `pages`: no row when the key is not indexed, else the
/// outcome of reading its row.
pub open spec fn table_lookup(
    index: Map<u64, RowId>,
    pages: Seq<Seq<(bool, Seq<u8>)>>,
    key: u64,
) -> Result<Option<Seq<u8>>, PageError> {
    if !index.contains_key(key) {
        Ok(None)
    } else {
        match heap_lookup(pages, index[key]) {
            Ok(bytes) => Ok(Some(bytes)),
            Err(e) => Err(e),
        }
    }
}

/// Read after write by key: once a row holding `record` is indexed under
/// `key`, looking `key` up gives `record`; once `key` is removed from the index,
/// looking it up gives no row, whatever the heap holds.
pub proof fn table_read_after_write(
    index: Map<u64, RowId>,
    pages: Seq<Seq<(bool, Seq<u8>)>>,
    key: u64,
    row: RowId,
    record: Seq<u8>,
)
    requires
        heap_lookup(pages, row) == Ok::<Seq<u8>, PageError>(record),
    ensures
        table_lookup(index.insert(key, row), pages, key) == Ok::<Option<Seq<u8>>, PageError>(
            Some(record),
        ),
        table_lookup(index.remove(key), pages, key) == Ok::<Option<Seq<u8>>, PageError>(None),
{
}

pub struct Table {
    heap: HeapFile,
    primary_index: HashIndex,
}

impl Table {
    /// The heap and the index are well formed.
    pub closed spec fn wf(&self) -> bool {
        self.heap.wf() && self.primary_index.wf()
    }

    /// The heap's pages.
    pub closed spec fn pages(&self) -> Seq<Seq<(bool, Seq<u8>)>> {
        self.heap@
    }

    /// The primary index: key to row id.
    pub closed spec fn index(&self) -> Map<u64, RowId> {
        self.primary_index@
    }

    /// The heap file itself.
    pub closed spec fn heap_file(&self) -> HeapFile {
        self.heap
    }

    /// What a well-formed table holds: a well-formed heap whose view is the
    /// table's pages, with one free-space amount per page, and finitely many
    /// indexed keys.
    pub proof fn lemma_wf(&self)
        requires
            self.wf(),
        ensures
            self.heap_file().wf(),
            self.heap_file()@ == self.pages(),
            self.heap_file().frees().len() == self.pages().len(),
            self.index().dom().finite(),
    {
        self.heap.lemma_frees();
        self.primary_index.lemma_wf();
    }

    pub fn new() -> (table: Self)
        ensures
            table.wf(),
            table.pages() == Seq::<Seq<(bool, Seq<u8>)>>::empty(),
            table.index() == Map::<u64, RowId>::empty(),
            table.heap_file().frees() == Seq::<int>::empty(),
    {
        Table { heap: HeapFile::new(), primary_index: HashIndex::new() }
    }

    /// Inserts the record into the heap and indexes its row under `key`
    /// (replacing an earlier row of that key in the index). The heap refuses
    /// only a record too large for an empty page, when no page has room for
    /// it: then `NotEnoughSpace`, with nothing changed. The row reads back as
    /// the record when the heap put it on a page a `PageId` can number (below
    /// 65536); no other row changes.
    pub fn insert(&mut self, key: u64, record: &[u8]) -> (r: Result<RowId, PageError>)
        requires
            old(self).wf(),
            first_fit(old(self).heap_file().frees(), record@.len() + SLOT_SIZE) == old(
                self,
            ).pages().len() ==> old(self).pages().len() < MAX_PAGES,
        ensures
            final(self).wf(),
            match r {
                Ok(row) => {
                    &&& final(self).index() == old(self).index().insert(key, row)
                    &&& first_fit(old(self).heap_file().frees(), record@.len() + SLOT_SIZE)
                        < 65536 ==> heap_lookup(final(self).pages(), row) == Ok::<
                        Seq<u8>,
                        PageError,
                    >(record@)
                    &&& first_fit(old(self).heap_file().frees(), record@.len() + SLOT_SIZE)
                        >= 65536 ==> heap_lookup(final(self).pages(), row) == heap_lookup(
                        old(self).pages(),
                        row,
                    )
                    &&& forall|other: RowId|
                        other != row ==> #[trigger] heap_lookup(final(self).pages(), other)
                            == heap_lookup(old(self).pages(), other)
                },
                Err(e) => {
                    &&& e == PageError::NotEnoughSpace
                    &&& first_fit(old(self).heap_file().frees(), record@.len() + SLOT_SIZE)
                        == old(self).pages().len()
                    &&& record@.len() + SLOT_SIZE > PAGE_SIZE - HEADER_SIZE
                    &&& final(self).index() == old(self).index()
                    &&& final(self).pages() == old(self).pages()
                },
            },
            (r is Err) == (record@.len() + SLOT_SIZE > PAGE_SIZE - HEADER_SIZE),
            r is Ok && old(self).pages().len() < 65536 ==> heap_lookup(final(self).pages(), r->Ok_0)
                == Ok::<Seq<u8>, PageError>(record@),
            final(self).pages().len() <= old(self).pages().len() + 1,
    {
        let ghost before = self.heap@;
        proof {
            self.heap.lemma_bounds();
            self.heap.lemma_frees();
            lemma_first_fit_bounds(self.heap.frees(), record@.len() + SLOT_SIZE);
        }
        let row_id = match self.heap.insert(record) {
            Ok(row_id) => row_id,
            Err(error) => {
                return Err(error);
            },
        };
        proof {
            let p = first_fit(old(self).heap_file().frees(), record@.len() + SLOT_SIZE);
            if p < 65536 {
                assert forall|other: RowId| other != row_id implies #[trigger] heap_lookup(
                    self.heap@,
                    other,
                ) == heap_lookup(before, other) by {
                    crate::db::storage::heap::heap_read_after_insert(before, p, record@, other);
                }
                crate::db::storage::heap::heap_read_after_insert(before, p, record@, row_id);
            } else {
                assert forall|other: RowId| #[trigger] heap_lookup(self.heap@, other) == heap_lookup(
                    before,
                    other,
                ) by {
                    let pid = other.page_id.0 as int;
                    if pid < before.len() {
                        assert(self.heap@[pid] == before[pid]);
                    }
                }
            }
        }
        self.primary_index.insert(key, row_id);
        Ok(row_id)
    }

    /// The record indexed under `key`: `None` when the key is not indexed,
    /// else the bytes of its row, or the heap's error reading it.
    pub fn get_by_key(&self, key: u64) -> (r: Result<Option<&[u8]>, PageError>)
        requires
            self.wf(),
        ensures
            match r {
                Ok(Some(bytes)) => table_lookup(self.index(), self.pages(), key) == Ok::<
                    Option<Seq<u8>>,
                    PageError,
                >(Some(bytes@)),
                Ok(None) => table_lookup(self.index(), self.pages(), key) == Ok::<
                    Option<Seq<u8>>,
                    PageError,
                >(None),
                Err(e) => table_lookup(self.index(), self.pages(), key) == Err::<
                    Option<Seq<u8>>,
                    PageError,
                >(e),
            },
    {
        let row_id = match self.primary_index.get(key) {
            Some(row_id) => row_id,
            None => {
                return Ok(None);
            },
        };
        match self.heap.get(row_id) {
            Ok(record) => Ok(Some(record)),
            Err(error) => Err(error),
        }
    }

    /// Removes `key` from the index and deletes its row from the heap.
    /// `Ok(false)` with nothing changed when the key is not indexed; when the
    /// heap refuses the delete, the key stays removed from the index and the
    /// heap's error is returned.
    pub fn delete_by_key(&mut self, key: u64) -> (r: Result<bool, PageError>)
        requires
            old(self).wf(),
        ensures
            final(self).wf(),
            final(self).index() == old(self).index().remove(key),
            !old(self).index().contains_key(key) ==> r == Ok::<bool, PageError>(false)
                && final(self).pages() == old(self).pages(),
            old(self).index().contains_key(key) ==> match heap_delete(
                old(self).pages(),
                old(self).index()[key],
            ) {
                Ok(pages) => r == Ok::<bool, PageError>(true) && final(self).pages() == pages,
                Err(e) => r == Err::<bool, PageError>(e) && final(self).pages() == old(
                    self,
                ).pages(),
            },
    {
        let row_id = match self.primary_index.delete(key) {
            Some(row_id) => row_id,
            None => {
                return Ok(false);
            },
        };
        match self.heap.delete(row_id) {
            Ok(()) => Ok(true),
            Err(error) => Err(error),
        }
    }

    /// The heap file.
    pub fn heap(&self) -> (r: &HeapFile)
        ensures
            *r == self.heap_file(),
            r@ == self.pages(),
            self.wf() ==> r.wf(),
    {
        &self.heap
    }

    /// The heap file, for changes made through its own methods.
    pub fn heap_mut(&mut self) -> (r: &mut HeapFile)
        ensures
            *r == old(self).heap_file(),
            final(self).heap_file() == *final(r),
            final(self).index() == old(self).index(),
            old(self).wf() ==> r.wf(),
    {
        &mut self.heap
    }

    /// The number of indexed keys.
    pub fn index_len(&self) -> (r: usize)
        requires
            self.wf(),
        ensures
            r == self.index().len(),
    {
        self.primary_index.len()
    }
}

impl Default for Table {
    fn default() -> (table: Self)
        ensures
            table.wf(),
            table.pages() == Seq::<Seq<(bool, Seq<u8>)>>::empty(),
            table.index() == Map::<u64, RowId>::empty(),
    {
        Self::new()
    }
}

} // verus!
