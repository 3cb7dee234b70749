//! A slotted page of `PAGE_SIZE` bytes.
//!
//! Header layout inside the page bytes:
//!
//! byte 0..2 = slot_count: u16
//! byte 2..4 = free_start: u16
//! byte 4..6 = free_end: u16
//!
//! After the header the slot directory grows forward; record bytes grow
//! backward from the end of the page.
use vstd::prelude::*;

use crate::db::bytes::{
    lemma_same_outside_subrange, read_u16, same_outside, u16_at, write_bytes, write_u16,
};
use vstd::slice::slice_subrange;

verus! {

pub const PAGE_SIZE: usize = 4096;

/// Size of the page header: slot_count, free_start and free_end, two bytes each.
pub const HEADER_SIZE: usize = 6;

/// Slot layout:
///
/// byte 0..2 = record offset: u16
/// byte 2..4 = record length: u16
/// byte 4    = flags: u8
pub const SLOT_SIZE: usize = 5;

pub const SLOT_OCCUPIED: u8 = 1;

pub const SLOT_DELETED: u8 = 2;

#[derive(Debug, Clone, Copy, PartialEq, Eq, Structural)]
pub struct SlotId(pub u16);

#[derive(Debug, Clone, Copy, PartialEq, Eq, Structural)]
pub struct SlotEntry {
    pub offset: u16,
    pub length: u16,
    pub flags: u8,
}

#[derive(Debug, PartialEq, Eq, Structural)]
pub enum PageError {
    NotEnoughSpace,
    InvalidSlot,
    DeletedSlot,
    CorruptPage,
}

/// Byte position of the slot entry `i` inside the page.
pub open spec fn slot_pos(i: int) -> int {
    HEADER_SIZE + SLOT_SIZE * i
}

/// The slot entry `i` as stored in `data`.
pub open spec fn slot_entry_at(data: Seq<u8>, i: int) -> SlotEntry {
    SlotEntry {
        offset: u16_at(data, slot_pos(i)),
        length: u16_at(data, slot_pos(i) + 2),
        flags: data[slot_pos(i) + 4],
    }
}

/// A slot entry of a page whose record area starts at `free_end`: its flag is
/// one of the two known values and its record lies inside the record area.
pub open spec fn slot_entry_ok(e: SlotEntry, free_end: u16) -> bool {
    &&& (e.flags == SLOT_OCCUPIED || e.flags == SLOT_DELETED)
    &&& free_end <= e.offset
    &&& e.offset + e.length <= PAGE_SIZE
}

/// The outcome of reading slot `slot` from a page whose slots are `slots`
/// (each slot: whether it is live, and its record bytes).
pub open spec fn page_lookup(slots: Seq<(bool, Seq<u8>)>, slot: int) -> Result<Seq<u8>, PageError> {
    if slot < 0 || slot >= slots.len() {
        Err(PageError::InvalidSlot)
    } else if !slots[slot].0 {
        Err(PageError::DeletedSlot)
    } else {
        Ok(slots[slot].1)
    }
}

/// The slots after deleting slot `slot`, or the error that refuses it.
pub open spec fn page_delete(slots: Seq<(bool, Seq<u8>)>, slot: int) -> Result<
    Seq<(bool, Seq<u8>)>,
    PageError,
> {
    if slot < 0 || slot >= slots.len() {
        Err(PageError::InvalidSlot)
    } else if !slots[slot].0 {
        Err(PageError::DeletedSlot)
    } else {
        Ok(slots.update(slot, (false, slots[slot].1)))
    }
}

/// Read after insert: the slot a record was just inserted into reads back as
/// that record, and every other slot reads as it did before.
pub proof fn page_read_after_insert(slots: Seq<(bool, Seq<u8>)>, record: Seq<u8>, slot: int)
    ensures
        page_lookup(slots.push((true, record)), slots.len() as int) == Ok::<Seq<u8>, PageError>(
            record,
        ),
        slot != slots.len() ==> page_lookup(slots.push((true, record)), slot) == page_lookup(
            slots,
            slot,
        ),
{
}

/// Tombstones: deleting a live slot succeeds; afterwards reading it gives
/// `DeletedSlot`, deleting it again is refused with `DeletedSlot`, and every
/// other slot reads as it did before.
pub proof fn page_read_after_delete(slots: Seq<(bool, Seq<u8>)>, slot: int, other: int)
    requires
        0 <= slot < slots.len(),
        slots[slot].0,
    ensures
        page_delete(slots, slot) is Ok,
        page_lookup(page_delete(slots, slot)->Ok_0, slot) == Err::<Seq<u8>, PageError>(
            PageError::DeletedSlot,
        ),
        page_delete(page_delete(slots, slot)->Ok_0, slot) == Err::<
            Seq<(bool, Seq<u8>)>,
            PageError,
        >(PageError::DeletedSlot),
        other != slot ==> page_lookup(page_delete(slots, slot)->Ok_0, other) == page_lookup(
            slots,
            other,
        ),
        page_delete(slots, slot)->Ok_0.len() == slots.len(),
{
}

/// Two buffers that agree outside `lo..hi` have the same slot entries below `lo`.
proof fn lemma_entries_kept(old: Seq<u8>, new: Seq<u8>, lo: int, hi: int, count: int)
    requires
        same_outside(old, new, lo, hi),
        old.len() == PAGE_SIZE,
        0 <= count,
        slot_pos(count) <= lo || hi <= HEADER_SIZE,
        slot_pos(count) <= PAGE_SIZE,
    ensures
        forall|i: int| 0 <= i < count ==> #[trigger] slot_entry_at(new, i) == slot_entry_at(old, i),
{
    assert forall|i: int| 0 <= i < count implies #[trigger] slot_entry_at(new, i) == slot_entry_at(
        old,
        i,
    ) by {
        lemma_same_outside_subrange(old, new, lo, hi, slot_pos(i), slot_pos(i) + 2);
        lemma_same_outside_subrange(old, new, lo, hi, slot_pos(i) + 2, slot_pos(i) + 4);
        assert(new[slot_pos(i) + 4] == old[slot_pos(i) + 4]);
    }
}

/// A slotted page: a header, a slot directory growing forward and record
/// bytes growing backward, all inside exactly `PAGE_SIZE` bytes.
pub struct Page {
    data: Vec<u8>,
}

impl Page {
    /// The slot count stored in the header.
    pub closed spec fn slot_count_spec(&self) -> u16 {
        u16_at(self.data@, 0)
    }

    /// The start of free space stored in the header.
    pub closed spec fn free_start_spec(&self) -> u16 {
        u16_at(self.data@, 2)
    }

    /// The end of free space stored in the header.
    pub closed spec fn free_end_spec(&self) -> u16 {
        u16_at(self.data@, 4)
    }

    /// Free bytes between the slot directory and the record area.
    pub open spec fn free_space_spec(&self) -> int {
        self.free_end_spec() - self.free_start_spec()
    }

    /// The slot entry `i` as stored.
    pub closed spec fn entry(&self, i: int) -> SlotEntry {
        slot_entry_at(self.data@, i)
    }

    /// The page layout holds: the slot directory ends where free space starts,
    /// free space lies inside the page, and every slot points at record bytes
    /// inside the record area with a known flag.
    pub closed spec fn wf(&self) -> bool {
        &&& self.data@.len() == PAGE_SIZE
        &&& self.free_start_spec() == slot_pos(self.slot_count_spec() as int)
        &&& self.free_start_spec() <= self.free_end_spec() <= PAGE_SIZE
        &&& forall|i: int|
            0 <= i < self.slot_count_spec() ==> #[trigger] slot_entry_ok(
                self.entry(i),
                self.free_end_spec(),
            )
    }

    /// Facts every well-formed page satisfies.
    pub proof fn lemma_wf(&self)
        requires
            self.wf(),
        ensures
            self@.len() == self.slot_count_spec(),
            self.free_start_spec() == HEADER_SIZE + SLOT_SIZE * self.slot_count_spec(),
            self.free_start_spec() <= self.free_end_spec() <= PAGE_SIZE,
            0 <= self.free_space_spec() <= PAGE_SIZE - HEADER_SIZE,
    {
    }

    /// An empty page: no slots, and all bytes after the header free.
    pub fn new() -> (page: Self)
        ensures
            page.wf(),
            page@ == Seq::<(bool, Seq<u8>)>::empty(),
            page.slot_count_spec() == 0,
            page.free_start_spec() == HEADER_SIZE,
            page.free_end_spec() == PAGE_SIZE,
            page.free_space_spec() == PAGE_SIZE - HEADER_SIZE,
    {
        let mut page = Page { data: vec![0u8; PAGE_SIZE] };
        page.set_slot_count(0);
        let ghost d1 = page.data@;
        page.set_free_start(HEADER_SIZE as u16);
        let ghost d2 = page.data@;
        page.set_free_end(PAGE_SIZE as u16);
        proof {
            lemma_same_outside_subrange(d1, d2, 2, 4, 0, 2);
            lemma_same_outside_subrange(d2, page.data@, 4, 6, 0, 2);
            lemma_same_outside_subrange(d2, page.data@, 4, 6, 2, 4);
        }
        assert(page@ =~= Seq::<(bool, Seq<u8>)>::empty());
        page
    }

    /// Insert raw already-encoded record bytes into the page.
    ///
    /// When the free space holds the record and one more slot entry, the record
    /// is copied to the end of free space, a live slot pointing at it is appended,
    /// and its id is returned; otherwise the page is left as it was and
    /// `NotEnoughSpace` is returned.
    #[verifier::rlimit(40)]
    pub fn insert(&mut self, record: &[u8]) -> (r: Result<SlotId, PageError>)
        requires
            old(self).wf(),
        ensures
            final(self).wf(),
            record@.len() + SLOT_SIZE <= old(self).free_space_spec() ==> {
                &&& r == Ok::<SlotId, PageError>(SlotId(old(self)@.len() as u16))
                &&& final(self)@ == old(self)@.push((true, record@))
                &&& final(self).free_space_spec() == old(self).free_space_spec() - record@.len()
                    - SLOT_SIZE
                &&& final(self).free_end_spec() == old(self).free_end_spec() - record@.len()
                &&& final(self).free_start_spec() == old(self).free_start_spec() + SLOT_SIZE
                &&& final(self).entry(old(self)@.len() as int) == (SlotEntry {
                    offset: (old(self).free_end_spec() - record@.len()) as u16,
                    length: record@.len() as u16,
                    flags: SLOT_OCCUPIED,
                })
                &&& forall|i: int|
                    0 <= i < old(self)@.len() ==> #[trigger] final(self).entry(i) == old(self).entry(
                        i,
                    )
            },
            record@.len() + SLOT_SIZE > old(self).free_space_spec() ==> {
                &&& r == Err::<SlotId, PageError>(PageError::NotEnoughSpace)
                &&& *final(self) == *old(self)
            },
    {
        if !self.has_space_for(record.len()) {
            return Err(PageError::NotEnoughSpace);
        }
        proof {
            self.lemma_wf();
        }
        let ghost d0 = self.data@;
        let ghost count = self.slot_count_spec() as int;
        let slot_id = SlotId(self.slot_count());
        let old_free_start = self.free_start();
        let old_free_end = self.free_end() as usize;
        let new_free_end = old_free_end - record.len();
        write_bytes(&mut self.data, new_free_end, record);
        let ghost d1 = self.data@;
        proof {
            lemma_entries_kept(d0, d1, new_free_end as int, old_free_end as int, count);
            lemma_same_outside_subrange(d0, d1, new_free_end as int, old_free_end as int, 0, 2);
            lemma_same_outside_subrange(d0, d1, new_free_end as int, old_free_end as int, 2, 4);
            lemma_same_outside_subrange(d0, d1, new_free_end as int, old_free_end as int, 4, 6);
        }
        let entry = SlotEntry {
            offset: new_free_end as u16,
            length: record.len() as u16,
            flags: SLOT_OCCUPIED,
        };
        match self.write_slot(slot_id, entry) {
            Ok(()) => {},
            Err(error) => {
                return Err(error);
            },
        }
        let ghost d2 = self.data@;
        proof {
            lemma_entries_kept(d1, d2, slot_pos(count), slot_pos(count) + 5, count);
            lemma_same_outside_subrange(d1, d2, slot_pos(count), slot_pos(count) + 5, 0, 2);
            lemma_same_outside_subrange(d1, d2, slot_pos(count), slot_pos(count) + 5, 2, 4);
            lemma_same_outside_subrange(d1, d2, slot_pos(count), slot_pos(count) + 5, 4, 6);
            lemma_same_outside_subrange(
                d1,
                d2,
                slot_pos(count),
                slot_pos(count) + 5,
                new_free_end as int,
                old_free_end as int,
            );
        }
        self.set_slot_count(slot_id.0 + 1);
        let ghost e1 = self.data@;
        self.set_free_start(old_free_start + SLOT_SIZE as u16);
        let ghost e2 = self.data@;
        self.set_free_end(new_free_end as u16);
        proof {
            let d3 = self.data@;
            lemma_same_outside_subrange(e1, e2, 2, 4, 0, 2);
            lemma_same_outside_subrange(e2, d3, 4, 6, 0, 2);
            lemma_same_outside_subrange(e2, d3, 4, 6, 2, 4);
            assert(same_outside(d2, d3, 0, 6));
            lemma_entries_kept(d2, d3, 0, 6, count + 1);
            lemma_same_outside_subrange(
                d2,
                d3,
                0,
                6,
                new_free_end as int,
                old_free_end as int,
            );
            assert(d3.subrange(new_free_end as int, old_free_end as int) == record@);
            assert(slot_entry_at(d3, count) == entry);
            assert forall|i: int| 0 <= i < count implies #[trigger] slot_entry_at(d3, i)
                == slot_entry_at(d0, i) by {
                assert(slot_entry_at(d1, i) == slot_entry_at(d0, i));
                assert(slot_entry_at(d2, i) == slot_entry_at(d1, i));
                assert(slot_entry_at(d3, i) == slot_entry_at(d2, i));
            }
            assert forall|i: int| 0 <= i < count + 1 implies #[trigger] slot_entry_ok(
                self.entry(i),
                self.free_end_spec(),
            ) by {
                if i < count {
                    assert(slot_entry_ok(old(self).entry(i), old(self).free_end_spec()));
                }
            }
            assert forall|i: int| 0 <= i < count implies d3.subrange(
                #[trigger] slot_entry_at(d3, i).offset as int,
                slot_entry_at(d3, i).offset + slot_entry_at(d3, i).length,
            ) == d0.subrange(
                slot_entry_at(d0, i).offset as int,
                slot_entry_at(d0, i).offset + slot_entry_at(d0, i).length,
            ) by {
                let e = slot_entry_at(d0, i);
                assert(slot_entry_ok(old(self).entry(i), old(self).free_end_spec()));
                lemma_same_outside_subrange(
                    d0,
                    d1,
                    new_free_end as int,
                    old_free_end as int,
                    e.offset as int,
                    e.offset + e.length,
                );
                lemma_same_outside_subrange(
                    d1,
                    d2,
                    slot_pos(count),
                    slot_pos(count) + 5,
                    e.offset as int,
                    e.offset + e.length,
                );
                lemma_same_outside_subrange(d2, d3, 0, 6, e.offset as int, e.offset + e.length);
            }
            assert(self@ =~= old(self)@.push((true, record@)));
        }
        Ok(slot_id)
    }

    /// Read raw record bytes by slot id: `InvalidSlot` past the last slot,
    /// `DeletedSlot` for a deleted one, else the record's bytes.
    pub fn get(&self, slot_id: SlotId) -> (r: Result<&[u8], PageError>)
        requires
            self.wf(),
        ensures
            match r {
                Ok(bytes) => page_lookup(self@, slot_id.0 as int) == Ok::<Seq<u8>, PageError>(
                    bytes@,
                ),
                Err(e) => page_lookup(self@, slot_id.0 as int) == Err::<Seq<u8>, PageError>(e),
            },
    {
        if slot_id.0 >= self.slot_count() {
            return Err(PageError::InvalidSlot);
        }
        proof {
            self.lemma_wf();
            assert(slot_entry_ok(self.entry(slot_id.0 as int), self.free_end_spec()));
        }
        let entry = match self.read_slot(slot_id) {
            Ok(entry) => entry,
            Err(error) => {
                return Err(error);
            },
        };
        if entry.flags == SLOT_DELETED {
            return Err(PageError::DeletedSlot);
        }
        if entry.flags != SLOT_OCCUPIED {
            return Err(PageError::CorruptPage);
        }
        let start = entry.offset as usize;
        let end = start + entry.length as usize;
        if end > PAGE_SIZE {
            return Err(PageError::CorruptPage);
        }
        Ok(slice_subrange(self.data.as_slice(), start, end))
    }

    /// Logically delete a record: only the slot's flag changes, to deleted.
    /// `InvalidSlot` past the last slot and `DeletedSlot` for a deleted one,
    /// with the page unchanged.
    #[verifier::rlimit(20)]
    pub fn delete(&mut self, slot_id: SlotId) -> (r: Result<(), PageError>)
        requires
            old(self).wf(),
        ensures
            final(self).wf(),
            final(self).free_space_spec() == old(self).free_space_spec(),
            final(self).free_end_spec() == old(self).free_end_spec(),
            match page_delete(old(self)@, slot_id.0 as int) {
                Ok(slots) => r == Ok::<(), PageError>(()) && final(self)@ == slots,
                Err(e) => r == Err::<(), PageError>(e) && *final(self) == *old(self),
            },
            r is Ok ==> {
                &&& final(self).entry(slot_id.0 as int) == (SlotEntry {
                    offset: old(self).entry(slot_id.0 as int).offset,
                    length: old(self).entry(slot_id.0 as int).length,
                    flags: SLOT_DELETED,
                })
                &&& forall|i: int|
                    0 <= i < old(self)@.len() && i != slot_id.0 ==> #[trigger] final(self).entry(i)
                        == old(self).entry(i)
                &&& final(self).free_start_spec() == old(self).free_start_spec()
            },
    {
        if slot_id.0 >= self.slot_count() {
            return Err(PageError::InvalidSlot);
        }
        proof {
            self.lemma_wf();
            assert(slot_entry_ok(self.entry(slot_id.0 as int), self.free_end_spec()));
        }
        let ghost d0 = self.data@;
        let ghost count = self.slot_count_spec() as int;
        let ghost k = slot_id.0 as int;
        let mut entry = match self.read_slot(slot_id) {
            Ok(entry) => entry,
            Err(error) => {
                return Err(error);
            },
        };
        if entry.flags == SLOT_DELETED {
            return Err(PageError::DeletedSlot);
        }
        if entry.flags != SLOT_OCCUPIED {
            return Err(PageError::CorruptPage);
        }
        entry.flags = SLOT_DELETED;
        match self.write_slot(slot_id, entry) {
            Ok(()) => {},
            Err(error) => {
                return Err(error);
            },
        }
        proof {
            let d1 = self.data@;
            lemma_same_outside_subrange(d0, d1, slot_pos(k), slot_pos(k) + 5, 0, 2);
            lemma_same_outside_subrange(d0, d1, slot_pos(k), slot_pos(k) + 5, 2, 4);
            lemma_same_outside_subrange(d0, d1, slot_pos(k), slot_pos(k) + 5, 4, 6);
            assert forall|i: int| 0 <= i < count && i != k implies #[trigger] slot_entry_at(d1, i)
                == slot_entry_at(d0, i) by {
                if i < k {
                    lemma_entries_kept(d0, d1, slot_pos(k), slot_pos(k) + 5, k);
                } else {
                    lemma_same_outside_subrange(
                        d0,
                        d1,
                        slot_pos(k),
                        slot_pos(k) + 5,
                        slot_pos(i),
                        slot_pos(i) + 2,
                    );
                    lemma_same_outside_subrange(
                        d0,
                        d1,
                        slot_pos(k),
                        slot_pos(k) + 5,
                        slot_pos(i) + 2,
                        slot_pos(i) + 4,
                    );
                    assert(d1[slot_pos(i) + 4] == d0[slot_pos(i) + 4]);
                }
            }
            assert forall|i: int| 0 <= i < count implies d1.subrange(
                #[trigger] slot_entry_at(d1, i).offset as int,
                slot_entry_at(d1, i).offset + slot_entry_at(d1, i).length,
            ) == d0.subrange(
                slot_entry_at(d0, i).offset as int,
                slot_entry_at(d0, i).offset + slot_entry_at(d0, i).length,
            ) by {
                let e = slot_entry_at(d0, i);
                assert(slot_entry_ok(old(self).entry(i), old(self).free_end_spec()));
                lemma_same_outside_subrange(
                    d0,
                    d1,
                    slot_pos(k),
                    slot_pos(k) + 5,
                    e.offset as int,
                    e.offset + e.length,
                );
            }
            assert forall|i: int| 0 <= i < count implies #[trigger] slot_entry_ok(
                self.entry(i),
                self.free_end_spec(),
            ) by {
                assert(slot_entry_ok(old(self).entry(i), old(self).free_end_spec()));
            }
            assert(self@ =~= old(self)@.update(k, (false, old(self)@[k].1)));
        }
        Ok(())
    }

    /// Number of slots currently in the page, deleted slots included.
    pub fn slot_count(&self) -> (r: u16)
        requires
            self.wf(),
        ensures
            r == self.slot_count_spec(),
            r == self@.len(),
    {
        read_u16(self.data.as_slice(), 0)
    }

    /// Start of free space: the header and slot directory grow forward up to here.
    pub fn free_start(&self) -> (r: u16)
        requires
            self.wf(),
        ensures
            r == self.free_start_spec(),
            r == HEADER_SIZE + SLOT_SIZE * self@.len(),
    {
        read_u16(self.data.as_slice(), 2)
    }

    /// End of free space: record bytes grow backward from `PAGE_SIZE` down to here.
    pub fn free_end(&self) -> (r: u16)
        requires
            self.wf(),
        ensures
            r == self.free_end_spec(),
            self.free_start_spec() <= r <= PAGE_SIZE,
    {
        read_u16(self.data.as_slice(), 4)
    }

    /// Current free bytes between the slot directory and the record area.
    pub fn free_space(&self) -> (r: usize)
        requires
            self.wf(),
        ensures
            r == self.free_space_spec(),
    {
        (self.free_end() - self.free_start()) as usize
    }

    fn set_slot_count(&mut self, value: u16)
        requires
            old(self).data@.len() == PAGE_SIZE,
        ensures
            final(self).data@.len() == PAGE_SIZE,
            u16_at(final(self).data@, 0) == value,
            same_outside(old(self).data@, final(self).data@, 0, 2),
    {
        write_u16(&mut self.data, 0, value);
    }

    fn set_free_start(&mut self, value: u16)
        requires
            old(self).data@.len() == PAGE_SIZE,
        ensures
            final(self).data@.len() == PAGE_SIZE,
            u16_at(final(self).data@, 2) == value,
            same_outside(old(self).data@, final(self).data@, 2, 4),
    {
        write_u16(&mut self.data, 2, value);
    }

    fn set_free_end(&mut self, value: u16)
        requires
            old(self).data@.len() == PAGE_SIZE,
        ensures
            final(self).data@.len() == PAGE_SIZE,
            u16_at(final(self).data@, 4) == value,
            same_outside(old(self).data@, final(self).data@, 4, 6),
    {
        write_u16(&mut self.data, 4, value);
    }

    /// Byte position of the slot entry inside the slot directory: slot 0 starts
    /// at `HEADER_SIZE`, slot 1 at `HEADER_SIZE + SLOT_SIZE`, and so on.
    fn slot_offset(slot_id: SlotId) -> (r: usize)
        ensures
            r == slot_pos(slot_id.0 as int),
    {
        HEADER_SIZE + (slot_id.0 as usize) * SLOT_SIZE
    }

    /// The stored entry of a slot (whatever its flag), or `InvalidSlot` when
    /// the entry would lie past the end of the page.
    pub fn read_slot(&self, slot_id: SlotId) -> (r: Result<SlotEntry, PageError>)
        requires
            self.wf(),
        ensures
            slot_pos(slot_id.0 as int) + SLOT_SIZE <= PAGE_SIZE ==> r == Ok::<
                SlotEntry,
                PageError,
            >(self.entry(slot_id.0 as int)),
            slot_pos(slot_id.0 as int) + SLOT_SIZE > PAGE_SIZE ==> r == Err::<SlotEntry, PageError>(
                PageError::InvalidSlot,
            ),
    {
        let start = Self::slot_offset(slot_id);
        let end = start + SLOT_SIZE;
        if end > PAGE_SIZE {
            return Err(PageError::InvalidSlot);
        }
        let offset = read_u16(self.data.as_slice(), start);
        let length = read_u16(self.data.as_slice(), start + 2);
        let flags = self.data[start + 4];
        Ok(SlotEntry { offset, length, flags })
    }

    fn write_slot(&mut self, slot_id: SlotId, entry: SlotEntry) -> (r: Result<(), PageError>)
        requires
            old(self).data@.len() == PAGE_SIZE,
        ensures
            final(self).data@.len() == PAGE_SIZE,
            slot_pos(slot_id.0 as int) + SLOT_SIZE <= PAGE_SIZE ==> {
                &&& r == Ok::<(), PageError>(())
                &&& slot_entry_at(final(self).data@, slot_id.0 as int) == entry
                &&& same_outside(
                    old(self).data@,
                    final(self).data@,
                    slot_pos(slot_id.0 as int),
                    slot_pos(slot_id.0 as int) + SLOT_SIZE,
                )
            },
            slot_pos(slot_id.0 as int) + SLOT_SIZE > PAGE_SIZE ==> {
                &&& r == Err::<(), PageError>(PageError::InvalidSlot)
                &&& *final(self) == *old(self)
            },
    {
        let start = Self::slot_offset(slot_id);
        let end = start + SLOT_SIZE;
        if end > PAGE_SIZE {
            return Err(PageError::InvalidSlot);
        }
        let ghost d0 = self.data@;
        write_u16(&mut self.data, start, entry.offset);
        let ghost d1 = self.data@;
        write_u16(&mut self.data, start + 2, entry.length);
        let ghost d2 = self.data@;
        self.data.set(start + 4, entry.flags);
        proof {
            lemma_same_outside_subrange(d1, d2, start + 2, start + 4, start as int, start + 2);
            lemma_same_outside_subrange(
                d2,
                self.data@,
                start + 4,
                start + 5,
                start as int,
                start + 2,
            );
            lemma_same_outside_subrange(
                d2,
                self.data@,
                start + 4,
                start + 5,
                start + 2,
                start + 4,
            );
        }
        Ok(())
    }

    fn has_space_for(&self, record_len: usize) -> (r: bool)
        requires
            self.wf(),
        ensures
            r == (record_len + SLOT_SIZE <= self.free_space_spec()),
    {
        let free = self.free_space();
        record_len <= free && SLOT_SIZE <= free - record_len
    }
}

impl View for Page {
    type V = Seq<(bool, Seq<u8>)>;

    /// The slots in order: whether each is live, and the bytes of its record.
    closed spec fn view(&self) -> Seq<(bool, Seq<u8>)> {
        Seq::new(
            u16_at(self.data@, 0) as nat,
            |i: int|
                {
                    let e = slot_entry_at(self.data@, i);
                    (e.flags == SLOT_OCCUPIED, self.data@.subrange(e.offset as int, e.offset + e.length))
                },
        )
    }
}

} // verus!
