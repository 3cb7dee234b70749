//! A byte-backed B+Tree leaf page: a header, a slot directory of cell offsets
//! kept sorted by key, and fixed-size cells growing backward from the end.
//!
//!   offset  size  field
//!   ------  ----  ----------------------
//!   0       2     magic
//!   2       1     page_type
//!   3       1     version
//!   4       2     cell_count
//!   6       2     free_start
//!   8       2     free_end
//!   10      2     right_sibling_page_id
//!   12      2     flags
//!
//! A cell is `[key: u64][row_page_id: u16][row_slot_id: u16]`, little-endian.
use vstd::prelude::*;

use crate::db::bytes::{
    lemma_overwrite, lemma_same_outside_subrange, lemma_u16_roundtrip, lemma_u64_roundtrip, overwrite,
    read_u16, read_u64, same_outside, u16_at, u64_at, write_bytes, write_u16,
};
use crate::db::storage::heap::{PageId, RowId};
use crate::db::storage::page::{SlotId, PAGE_SIZE};
use vstd::bytes::{
    lemma_auto_spec_u16_to_from_le_bytes, spec_u16_from_le_bytes, spec_u16_to_le_bytes,
    spec_u64_to_le_bytes, u16_to_le_bytes, u64_to_le_bytes,
};
use vstd::slice::slice_subrange;

verus! {

pub const BTREE_LEAF_MAGIC: u16 = 0xB17E;

pub const BTREE_LEAF_PAGE_TYPE: u8 = 1;

pub const BTREE_LEAF_VERSION: u8 = 1;

pub const BTREE_LEAF_MAGIC_OFFSET: usize = 0;

pub const BTREE_LEAF_PAGE_TYPE_OFFSET: usize = 2;

pub const BTREE_LEAF_VERSION_OFFSET: usize = 3;

pub const BTREE_LEAF_CELL_COUNT_OFFSET: usize = 4;

pub const BTREE_LEAF_FREE_START_OFFSET: usize = 6;

pub const BTREE_LEAF_FREE_END_OFFSET: usize = 8;

pub const BTREE_LEAF_RIGHT_SIBLING_OFFSET: usize = 10;

pub const BTREE_LEAF_FLAGS_OFFSET: usize = 12;

pub const BTREE_LEAF_HEADER_SIZE: usize = 14;

pub const BTREE_LEAF_SLOT_SIZE: usize = 2;

pub const BTREE_LEAF_KEY_SIZE: usize = 8;

pub const BTREE_LEAF_ROW_PAGE_ID_SIZE: usize = 2;

pub const BTREE_LEAF_ROW_SLOT_ID_SIZE: usize = 2;

/// `BTREE_LEAF_KEY_SIZE + BTREE_LEAF_ROW_PAGE_ID_SIZE + BTREE_LEAF_ROW_SLOT_ID_SIZE`.
pub const BTREE_LEAF_CELL_SIZE: usize = 12;

pub const BTREE_LEAF_NO_RIGHT_SIBLING: u16 = 0xFFFF;

/// `(PAGE_SIZE - BTREE_LEAF_HEADER_SIZE) / (BTREE_LEAF_SLOT_SIZE + BTREE_LEAF_CELL_SIZE)`.
pub const BTREE_LEAF_MAX_CELLS: usize = 291;

#[derive(Debug, Clone, Copy, PartialEq, Eq, Structural)]
pub struct LeafCell {
    pub key: u64,
    pub row_id: RowId,
}

#[derive(Debug, Clone, Copy, PartialEq, Eq, Structural)]
pub enum BTreeLeafPageError {
    NotEnoughSpace,
    InvalidSlot,
    CorruptPage,
}

/// The twelve bytes of a cell.
pub open spec fn encode_cell_spec(cell: LeafCell) -> Seq<u8> {
    spec_u64_to_le_bytes(cell.key) + spec_u16_to_le_bytes(cell.row_id.page_id.0)
        + spec_u16_to_le_bytes(cell.row_id.slot_id.0)
}

/// The cell stored in `data` at `at`.
pub open spec fn cell_at(data: Seq<u8>, at: int) -> LeafCell {
    LeafCell {
        key: u64_at(data, at),
        row_id: RowId {
            page_id: PageId(u16_at(data, at + 8)),
            slot_id: SlotId(u16_at(data, at + 10)),
        },
    }
}

/// Byte position of slot `i` of the slot directory.
pub open spec fn leaf_slot_pos(i: int) -> int {
    BTREE_LEAF_HEADER_SIZE + BTREE_LEAF_SLOT_SIZE * i
}

/// The cell offset stored in slot `i`.
pub open spec fn leaf_slot(data: Seq<u8>, i: int) -> u16 {
    u16_at(data, leaf_slot_pos(i))
}

/// The keys of `cells` increase strictly with the slot index.
pub open spec fn keys_sorted(cells: Seq<LeafCell>) -> bool {
    forall|i: int, j: int| 0 <= i < j < cells.len() ==> #[trigger] cells[i].key < #[trigger] cells[j].key
}

/// The row of `key` among `cells`, if some cell holds it.
pub open spec fn leaf_lookup(cells: Seq<LeafCell>, key: u64) -> Option<RowId> {
    if exists|i: int| 0 <= i < cells.len() && #[trigger] cells[i].key == key {
        Some(cells[choose|i: int| 0 <= i < cells.len() && #[trigger] cells[i].key == key].row_id)
    } else {
        None
    }
}

/// The number of cells of `cells` whose key is below `key`.
pub open spec fn count_below(cells: Seq<LeafCell>, key: u64) -> int
    decreases cells.len(),
{
    if cells.len() == 0 {
        0
    } else {
        count_below(cells.drop_last(), key) + if cells.last().key < key {
            1int
        } else {
            0int
        }
    }
}

/// The cells after storing `cell`: it replaces the cell of the same key, or
/// goes in at the slot that keeps the keys in order.
pub open spec fn leaf_insert_spec(cells: Seq<LeafCell>, cell: LeafCell) -> Seq<LeafCell> {
    let i = count_below(cells, cell.key);
    if i < cells.len() && cells[i].key == cell.key {
        cells.update(i, cell)
    } else {
        cells.insert(i, cell)
    }
}

/// The row ids of the cells whose key lies in `start..=end`, in slot order.
pub open spec fn rows_in_range(cells: Seq<LeafCell>, start: u64, end: u64) -> Seq<RowId>
    decreases cells.len(),
{
    if cells.len() == 0 {
        Seq::empty()
    } else {
        let before = rows_in_range(cells.drop_last(), start, end);
        let c = cells.last();
        if start <= c.key && c.key <= end {
            before.push(c.row_id)
        } else {
            before
        }
    }
}

/// The binary search over `cells[low..high]` for `key`: `Ok(slot)` for the
/// slot it lands on holding `key`, else `Err(slot)` where the search ends.
/// On sorted cells this finds `key` exactly when it is present.
pub open spec fn leaf_search(cells: Seq<LeafCell>, key: u64, low: int, high: int) -> Result<int, int>
    decreases high - low,
{
    if low >= high {
        Err(low)
    } else {
        let mid = low + (high - low) / 2;
        if cells[mid].key == key {
            Ok(mid)
        } else if key < cells[mid].key {
            leaf_search(cells, key, low, mid)
        } else {
            leaf_search(cells, key, mid + 1, high)
        }
    }
}

/// Whether the binary search for `key` over slots `low..high` of a page holding
/// `bytes`, whose cells are `cells`, reads a slot that points past the end of
/// the page before it ends.
pub open spec fn search_meets_bad(
    bytes: Seq<u8>,
    cells: Seq<LeafCell>,
    key: u64,
    low: int,
    high: int,
) -> bool
    decreases high - low,
{
    if low >= high {
        false
    } else {
        let mid = low + (high - low) / 2;
        if leaf_slot(bytes, mid) + BTREE_LEAF_CELL_SIZE > PAGE_SIZE {
            true
        } else if cells[mid].key == key {
            false
        } else if key < cells[mid].key {
            search_meets_bad(bytes, cells, key, low, mid)
        } else {
            search_meets_bad(bytes, cells, key, mid + 1, high)
        }
    }
}

/// Whether walking the slots up from `from`, until the first key above `end`,
/// reads a slot that points past the end of the page.
pub open spec fn walk_meets_bad(bytes: Seq<u8>, cells: Seq<LeafCell>, from: int, end: u64) -> bool
    decreases cells.len() - from,
{
    if from < 0 || from >= cells.len() {
        false
    } else if leaf_slot(bytes, from) + BTREE_LEAF_CELL_SIZE > PAGE_SIZE {
        true
    } else if cells[from].key > end {
        false
    } else {
        walk_meets_bad(bytes, cells, from + 1, end)
    }
}

/// Whether the binary search for `key` over slots `low..high` reads only slot
/// entries inside the page, up to the slot where it stops.
pub open spec fn search_in_page(
    bytes: Seq<u8>,
    cells: Seq<LeafCell>,
    key: u64,
    low: int,
    high: int,
) -> bool
    decreases high - low,
{
    if low >= high {
        true
    } else {
        let mid = low + (high - low) / 2;
        &&& leaf_slot_pos(mid) + BTREE_LEAF_SLOT_SIZE <= PAGE_SIZE
        &&& {
            ||| leaf_slot(bytes, mid) + BTREE_LEAF_CELL_SIZE > PAGE_SIZE
            ||| cells[mid].key == key
            ||| if key < cells[mid].key {
                search_in_page(bytes, cells, key, low, mid)
            } else {
                search_in_page(bytes, cells, key, mid + 1, high)
            }
        }
    }
}

/// Whether walking the slots up from `from`, until a slot pointing past the
/// page or a key above `end`, reads only slot entries inside the page.
pub open spec fn walk_in_page(bytes: Seq<u8>, cells: Seq<LeafCell>, from: int, end: u64) -> bool
    decreases cells.len() - from,
{
    if from < 0 || from >= cells.len() {
        true
    } else {
        &&& leaf_slot_pos(from) + BTREE_LEAF_SLOT_SIZE <= PAGE_SIZE
        &&& {
            ||| leaf_slot(bytes, from) + BTREE_LEAF_CELL_SIZE > PAGE_SIZE
            ||| cells[from].key > end
            ||| walk_in_page(bytes, cells, from + 1, end)
        }
    }
}

/// A search over `low..high` ends inside `low..=high`, on a slot below `high`
/// when it finds its key.
pub proof fn lemma_leaf_search_bounds(cells: Seq<LeafCell>, key: u64, low: int, high: int)
    requires
        low <= high,
    ensures
        match leaf_search(cells, key, low, high) {
            Ok(i) => low <= i < high,
            Err(i) => low <= i <= high,
        },
    decreases high - low,
{
    if low < high {
        let mid = low + (high - low) / 2;
        if cells[mid].key != key {
            if key < cells[mid].key {
                lemma_leaf_search_bounds(cells, key, low, mid);
            } else {
                lemma_leaf_search_bounds(cells, key, mid + 1, high);
            }
        }
    }
}

/// A search that meets no bad slot and finds its key found it on a good slot.
proof fn lemma_search_found_good(bytes: Seq<u8>, cells: Seq<LeafCell>, key: u64, low: int, high: int)
    requires
        0 <= low,
        !search_meets_bad(bytes, cells, key, low, high),
        leaf_search(cells, key, low, high) is Ok,
    ensures
        ({
            let i = leaf_search(cells, key, low, high)->Ok_0;
            &&& low <= i < high
            &&& leaf_slot(bytes, i) + BTREE_LEAF_CELL_SIZE <= PAGE_SIZE
            &&& search_in_page(bytes, cells, key, low, high) ==> leaf_slot_pos(i)
                + BTREE_LEAF_SLOT_SIZE <= PAGE_SIZE
        }),
    decreases high - low,
{
    if low < high {
        let mid = low + (high - low) / 2;
        if cells[mid].key != key {
            if key < cells[mid].key {
                lemma_search_found_good(bytes, cells, key, low, mid);
            } else {
                lemma_search_found_good(bytes, cells, key, mid + 1, high);
            }
        }
    }
}

/// With the slot entries of all `cells` inside the page, every search reads
/// only slot entries inside the page.
proof fn lemma_slots_in_page_search(bytes: Seq<u8>, cells: Seq<LeafCell>, key: u64, low: int, high: int)
    requires
        0 <= low,
        high <= cells.len(),
        leaf_slot_pos(cells.len() as int) <= PAGE_SIZE,
    ensures
        search_in_page(bytes, cells, key, low, high),
    decreases high - low,
{
    if low < high {
        let mid = low + (high - low) / 2;
        lemma_slots_in_page_search(bytes, cells, key, low, mid);
        lemma_slots_in_page_search(bytes, cells, key, mid + 1, high);
    }
}

/// With the slot entries of all `cells` inside the page, every walk reads
/// only slot entries inside the page.
proof fn lemma_slots_in_page_walk(bytes: Seq<u8>, cells: Seq<LeafCell>, from: int, end: u64)
    requires
        leaf_slot_pos(cells.len() as int) <= PAGE_SIZE,
    ensures
        walk_in_page(bytes, cells, from, end),
    decreases cells.len() - from,
{
    if 0 <= from < cells.len() {
        lemma_slots_in_page_walk(bytes, cells, from + 1, end);
    }
}

/// With every slot pointing inside the page, no search meets a bad slot.
proof fn lemma_good_slots_search(bytes: Seq<u8>, cells: Seq<LeafCell>, key: u64, low: int, high: int)
    requires
        0 <= low,
        high <= cells.len(),
        forall|i: int|
            0 <= i < cells.len() ==> #[trigger] leaf_slot(bytes, i) + BTREE_LEAF_CELL_SIZE
                <= PAGE_SIZE,
    ensures
        !search_meets_bad(bytes, cells, key, low, high),
    decreases high - low,
{
    if low < high {
        let mid = low + (high - low) / 2;
        lemma_good_slots_search(bytes, cells, key, low, mid);
        lemma_good_slots_search(bytes, cells, key, mid + 1, high);
    }
}

/// With every slot pointing inside the page, no walk meets a bad slot.
proof fn lemma_good_slots_walk(bytes: Seq<u8>, cells: Seq<LeafCell>, from: int, end: u64)
    requires
        forall|i: int|
            0 <= i < cells.len() ==> #[trigger] leaf_slot(bytes, i) + BTREE_LEAF_CELL_SIZE
                <= PAGE_SIZE,
    ensures
        !walk_meets_bad(bytes, cells, from, end),
    decreases cells.len() - from,
{
    if 0 <= from < cells.len() {
        lemma_good_slots_walk(bytes, cells, from + 1, end);
    }
}

/// The slot a search for `key` ends on, found or not.
pub open spec fn search_slot(cells: Seq<LeafCell>, key: u64) -> int {
    match leaf_search(cells, key, 0, cells.len() as int) {
        Ok(i) => i,
        Err(i) => i,
    }
}

/// The row ids of the cells from slot `from` on, up to the first key above `end`.
pub open spec fn rows_from(cells: Seq<LeafCell>, from: int, end: u64) -> Seq<RowId>
    decreases cells.len() - from,
{
    if from < 0 || from >= cells.len() || cells[from].key > end {
        Seq::empty()
    } else {
        seq![cells[from].row_id] + rows_from(cells, from + 1, end)
    }
}

/// The cells after storing `cell` where a search for its key ends: over the
/// cell found there, or in a new slot there.
pub open spec fn leaf_store(cells: Seq<LeafCell>, cell: LeafCell) -> Seq<LeafCell> {
    match leaf_search(cells, cell.key, 0, cells.len() as int) {
        Ok(i) => cells.update(i, cell),
        Err(i) => cells.insert(i, cell),
    }
}

/// Encoding a cell and reading it back gives the cell.
pub proof fn lemma_cell_roundtrip(cell: LeafCell)
    ensures
        encode_cell_spec(cell).len() == BTREE_LEAF_CELL_SIZE,
        cell_at(encode_cell_spec(cell), 0) == cell,
{
    let e = encode_cell_spec(cell);
    lemma_u64_roundtrip(cell.key);
    lemma_u16_roundtrip(cell.row_id.page_id.0);
    lemma_u16_roundtrip(cell.row_id.slot_id.0);
    assert(e.subrange(0, 8) =~= spec_u64_to_le_bytes(cell.key));
    assert(e.subrange(8, 10) =~= spec_u16_to_le_bytes(cell.row_id.page_id.0));
    assert(e.subrange(10, 12) =~= spec_u16_to_le_bytes(cell.row_id.slot_id.0));
}

/// A cell read from a range of `data` that equals the range of `other` reads the same.
proof fn lemma_cell_same(data: Seq<u8>, other: Seq<u8>, at: int, at2: int)
    requires
        0 <= at,
        at + 12 <= data.len(),
        0 <= at2,
        at2 + 12 <= other.len(),
        data.subrange(at, at + 12) == other.subrange(at2, at2 + 12),
    ensures
        cell_at(data, at) == cell_at(other, at2),
{
    assert(data.subrange(at, at + 8) =~= data.subrange(at, at + 12).subrange(0, 8));
    assert(other.subrange(at2, at2 + 8) =~= other.subrange(at2, at2 + 12).subrange(0, 8));
    assert(data.subrange(at + 8, at + 10) =~= data.subrange(at, at + 12).subrange(8, 10));
    assert(other.subrange(at2 + 8, at2 + 10) =~= other.subrange(at2, at2 + 12).subrange(8, 10));
    assert(data.subrange(at + 10, at + 12) =~= data.subrange(at, at + 12).subrange(10, 12));
    assert(other.subrange(at2 + 10, at2 + 12) =~= other.subrange(at2, at2 + 12).subrange(10, 12));
}

/// In sorted cells, the cells below `count_below` are exactly those with a
/// smaller key.
pub proof fn lemma_count_below_sorted(cells: Seq<LeafCell>, key: u64)
    requires
        keys_sorted(cells),
    ensures
        0 <= count_below(cells, key) <= cells.len(),
        forall|j: int| 0 <= j < count_below(cells, key) ==> #[trigger] cells[j].key < key,
        forall|j: int| count_below(cells, key) <= j < cells.len() ==> #[trigger] cells[j].key >= key,
    decreases cells.len(),
{
    if cells.len() > 0 {
        let init = cells.drop_last();
        assert(keys_sorted(init)) by {
            assert forall|i: int, j: int| 0 <= i < j < init.len() implies #[trigger] init[i].key
                < #[trigger] init[j].key by {
                assert(cells[i].key < cells[j].key);
            }
        }
        lemma_count_below_sorted(init, key);
        let c = count_below(init, key);
        if cells.last().key < key {
            assert forall|j: int| 0 <= j < cells.len() implies #[trigger] cells[j].key < key by {
                if j < cells.len() - 1 {
                    assert(cells[j].key < cells[cells.len() - 1].key);
                }
            }
            if c < init.len() {
                assert(init[c].key >= key);
                assert(cells[c].key < key);
            }
        } else {
            assert forall|j: int| 0 <= j < c implies #[trigger] cells[j].key < key by {
                assert(init[j].key < key);
            }
            assert forall|j: int| c <= j < cells.len() implies #[trigger] cells[j].key >= key by {
                if j < init.len() {
                    assert(init[j].key >= key);
                }
            }
        }
    }
}

/// In cells split into smaller keys before `m` and larger-or-equal keys from
/// `m` on, `count_below` is `m`.
proof fn lemma_count_below_split(cells: Seq<LeafCell>, key: u64, m: int)
    requires
        0 <= m <= cells.len(),
        forall|j: int| 0 <= j < m ==> #[trigger] cells[j].key < key,
        forall|j: int| m <= j < cells.len() ==> #[trigger] cells[j].key >= key,
    ensures
        count_below(cells, key) == m,
    decreases cells.len(),
{
    if cells.len() > 0 {
        let init = cells.drop_last();
        if m == cells.len() {
            assert(cells[cells.len() - 1].key < key);
            lemma_count_below_split(init, key, m - 1);
        } else {
            assert(cells[cells.len() - 1].key >= key);
            lemma_count_below_split(init, key, m);
        }
    }
}

/// Capacity: on a page with the leaf layout whose cell area holds exactly one
/// cell per slot, as a page filled from empty by inserts of new keys does (each
/// such insert spends one slot and one cell, 14 of the 4082 free bytes), an
/// insert finds room exactly while fewer than 291 cells are held. So from an
/// empty page 291 inserts of distinct keys succeed and the next is refused
/// with `NotEnoughSpace`.
pub proof fn leaf_capacity(page: BTreeLeafPage)
    requires
        page.wf(),
        page.leaf_ok(),
        page.free_end_spec() == PAGE_SIZE - BTREE_LEAF_CELL_SIZE * page.count_spec(),
    ensures
        page.has_room() <==> page.count_spec() < BTREE_LEAF_MAX_CELLS,
{
}

/// Storing a cell in sorted cells keeps them sorted; afterwards its key maps
/// to its row, and every other key maps as before.
pub proof fn leaf_insert_then_lookup(cells: Seq<LeafCell>, cell: LeafCell, other: u64)
    requires
        keys_sorted(cells),
    ensures
        keys_sorted(leaf_insert_spec(cells, cell)),
        leaf_lookup(leaf_insert_spec(cells, cell), cell.key) == Some(cell.row_id),
        other != cell.key ==> leaf_lookup(leaf_insert_spec(cells, cell), other) == leaf_lookup(
            cells,
            other,
        ),
        leaf_lookup(cells, cell.key) is Some ==> leaf_insert_spec(cells, cell).len() == cells.len(),
        leaf_lookup(cells, cell.key) is None ==> leaf_insert_spec(cells, cell).len() == cells.len()
            + 1,
{
    lemma_count_below_sorted(cells, cell.key);
    let i = count_below(cells, cell.key);
    let after = leaf_insert_spec(cells, cell);
    if i < cells.len() && cells[i].key == cell.key {
        assert(after == cells.update(i, cell));
        assert(after[i].key == cell.key);
        assert(leaf_lookup(cells, cell.key) is Some) by {
            assert(cells[i].key == cell.key);
        }
        assert forall|a: int, b: int| 0 <= a < b < after.len() implies #[trigger] after[a].key
            < #[trigger] after[b].key by {
            assert(cells[a].key < cells[b].key);
        }
        let w = choose|j: int| 0 <= j < after.len() && #[trigger] after[j].key == cell.key;
        if w != i {
            if w < i {
                assert(after[w].key < after[i].key);
            } else {
                assert(after[i].key < after[w].key);
            }
        }
        if other != cell.key {
            if exists|j: int| 0 <= j < cells.len() && #[trigger] cells[j].key == other {
                let wj = choose|j: int| 0 <= j < cells.len() && #[trigger] cells[j].key == other;
                assert(after[wj].key == other);
                let wa = choose|j: int| 0 <= j < after.len() && #[trigger] after[j].key == other;
                if wa != wj {
                    if wa < wj {
                        assert(after[wa].key < after[wj].key);
                    } else {
                        assert(after[wj].key < after[wa].key);
                    }
                }
            } else {
                assert forall|j: int| 0 <= j < after.len() implies #[trigger] after[j].key != other by {
                    if j != i {
                        assert(after[j] == cells[j]);
                    }
                }
            }
        }
    } else {
        assert(after == cells.insert(i, cell));
        assert(after[i] == cell);
        assert forall|j: int| 0 <= j < cells.len() implies #[trigger] cells[j].key != cell.key by {
            if j < i {
                assert(cells[j].key < cell.key);
            } else if j > i {
                assert(cells[i].key < cells[j].key);
            }
        }
        assert forall|a: int, b: int| 0 <= a < b < after.len() implies #[trigger] after[a].key
            < #[trigger] after[b].key by {
            if b < i {
                assert(after[a] == cells[a] && after[b] == cells[b]);
                assert(cells[a].key < cells[b].key);
            } else if b == i {
                assert(after[a] == cells[a]);
            } else if a == i {
                assert(after[b] == cells[b - 1]);
                assert(cells[b - 1].key >= cell.key);
            } else if a < i {
                assert(after[a] == cells[a] && after[b] == cells[b - 1]);
                assert(cells[a].key < cell.key);
            } else {
                assert(after[a] == cells[a - 1] && after[b] == cells[b - 1]);
                assert(cells[a - 1].key < cells[b - 1].key);
            }
        }
        let w = choose|j: int| 0 <= j < after.len() && #[trigger] after[j].key == cell.key;
        if w != i {
            if w < i {
                assert(after[w].key < after[i].key);
            } else {
                assert(after[i].key < after[w].key);
            }
        }
        if other != cell.key {
            if exists|j: int| 0 <= j < cells.len() && #[trigger] cells[j].key == other {
                let wj = choose|j: int| 0 <= j < cells.len() && #[trigger] cells[j].key == other;
                let aj = if wj < i {
                    wj
                } else {
                    wj + 1
                };
                assert(after[aj] == cells[wj]);
                let wa = choose|j: int| 0 <= j < after.len() && #[trigger] after[j].key == other;
                if wa != aj {
                    if wa < aj {
                        assert(after[wa].key < after[aj].key);
                    } else {
                        assert(after[aj].key < after[wa].key);
                    }
                }
            } else {
                assert forall|j: int| 0 <= j < after.len() implies #[trigger] after[j].key != other by {
                    if j < i {
                        assert(after[j] == cells[j]);
                    } else if j > i {
                        assert(after[j] == cells[j - 1]);
                    }
                }
            }
        }
    }
}

/// In sorted cells, no cell before the first key not below `start` is in range.
proof fn lemma_rows_in_range_prefix_empty(cells: Seq<LeafCell>, start: u64, end: u64, m: int)
    requires
        0 <= m <= cells.len(),
        forall|j: int| 0 <= j < m ==> #[trigger] cells[j].key < start,
    ensures
        rows_in_range(cells.take(m), start, end) == Seq::<RowId>::empty(),
    decreases m,
{
    if m > 0 {
        assert(cells.take(m).drop_last() =~= cells.take(m - 1));
        lemma_rows_in_range_prefix_empty(cells, start, end, m - 1);
    }
}

/// An inverted range holds no row.
proof fn lemma_rows_in_range_inverted(cells: Seq<LeafCell>, start: u64, end: u64)
    requires
        start > end,
    ensures
        rows_in_range(cells, start, end) == Seq::<RowId>::empty(),
    decreases cells.len(),
{
    if cells.len() > 0 {
        lemma_rows_in_range_inverted(cells.drop_last(), start, end);
    }
}

/// In sorted cells, once a key passes `end` no later cell is in range.
proof fn lemma_rows_in_range_suffix_empty(cells: Seq<LeafCell>, start: u64, end: u64, m: int)
    requires
        keys_sorted(cells),
        0 <= m < cells.len(),
        cells[m].key > end,
    ensures
        rows_in_range(cells, start, end) == rows_in_range(cells.take(m), start, end),
    decreases cells.len() - m,
{
    lemma_rows_in_range_suffix_step(cells, start, end, m, cells.len() as int);
    assert(cells.take(cells.len() as int) =~= cells);
}

/// Cells `m..n` of sorted cells whose key `m` passes `end` add no row.
proof fn lemma_rows_in_range_suffix_step(cells: Seq<LeafCell>, start: u64, end: u64, m: int, n: int)
    requires
        keys_sorted(cells),
        0 <= m < cells.len(),
        m <= n <= cells.len(),
        cells[m].key > end,
    ensures
        rows_in_range(cells.take(n), start, end) == rows_in_range(cells.take(m), start, end),
    decreases n - m,
{
    if n > m {
        lemma_rows_in_range_suffix_step(cells, start, end, m, n - 1);
        assert(cells.take(n).drop_last() =~= cells.take(n - 1));
        if n - 1 > m {
            assert(cells[m].key < cells[n - 1].key);
        }
    }
}

/// Two buffers that agree outside two ranges agree on any range disjoint from both.
proof fn lemma_range_kept2(
    old: Seq<u8>,
    new: Seq<u8>,
    lo1: int,
    hi1: int,
    lo2: int,
    hi2: int,
    a: int,
    b: int,
)
    requires
        old.len() == new.len(),
        forall|j: int|
            0 <= j < old.len() && !(lo1 <= j < hi1) && !(lo2 <= j < hi2) ==> #[trigger] new[j]
                == old[j],
        0 <= a <= b <= old.len(),
        b <= lo1 || hi1 <= a,
        b <= lo2 || hi2 <= a,
    ensures
        new.subrange(a, b) == old.subrange(a, b),
{
    assert(new.subrange(a, b) =~= old.subrange(a, b));
}

/// A cell outside a changed range reads the same.
proof fn lemma_cell_kept(old: Seq<u8>, new: Seq<u8>, lo: int, hi: int, at: int)
    requires
        same_outside(old, new, lo, hi),
        0 <= at,
        at + 12 <= old.len(),
        at + 12 <= lo || hi <= at,
    ensures
        cell_at(new, at) == cell_at(old, at),
{
    lemma_same_outside_subrange(old, new, lo, hi, at, at + 12);
    lemma_cell_same(new, old, at, at);
}

/// A slot outside a changed range reads the same.
proof fn lemma_slot_kept(old: Seq<u8>, new: Seq<u8>, lo: int, hi: int, j: int)
    requires
        same_outside(old, new, lo, hi),
        0 <= j,
        leaf_slot_pos(j) + 2 <= old.len(),
        leaf_slot_pos(j) + 2 <= lo || hi <= leaf_slot_pos(j),
    ensures
        leaf_slot(new, j) == leaf_slot(old, j),
{
    lemma_same_outside_subrange(old, new, lo, hi, leaf_slot_pos(j), leaf_slot_pos(j) + 2);
}

/// After a cell write (which changes bytes `8..10` and `lo..hi`, with the
/// slot directory and the cells of offset `hi` or more outside them), slots and
/// those cells read the same.
proof fn lemma_after_cell_write(old: Seq<u8>, new: Seq<u8>, lo: int, hi: int, count: int)
    requires
        old.len() == PAGE_SIZE,
        new.len() == PAGE_SIZE,
        10 <= lo <= hi <= PAGE_SIZE,
        0 <= count,
        leaf_slot_pos(count) <= lo,
        forall|j: int|
            0 <= j < PAGE_SIZE && !(8 <= j < 10) && !(lo <= j < hi) ==> #[trigger] new[j] == old[j],
    ensures
        forall|j: int| 0 <= j < count ==> #[trigger] leaf_slot(new, j) == leaf_slot(old, j),
        forall|o: int| hi <= o && o + 12 <= PAGE_SIZE ==> #[trigger] cell_at(new, o) == cell_at(old, o),
        u16_at(new, 4) == u16_at(old, 4),
        u16_at(new, 6) == u16_at(old, 6),
{
    assert forall|j: int| 0 <= j < count implies #[trigger] leaf_slot(new, j) == leaf_slot(old, j) by {
        lemma_range_kept2(old, new, 8, 10, lo, hi, leaf_slot_pos(j), leaf_slot_pos(j) + 2);
    }
    assert forall|o: int| hi <= o && o + 12 <= PAGE_SIZE implies #[trigger] cell_at(new, o) == cell_at(old, o) by {
        lemma_range_kept2(old, new, 8, 10, lo, hi, o, o + 12);
        lemma_cell_same(new, old, o, o);
    }
    lemma_range_kept2(old, new, 8, 10, lo, hi, 4, 6);
    lemma_range_kept2(old, new, 8, 10, lo, hi, 6, 8);
}

/// A `u16` outside a changed range reads the same.
proof fn lemma_u16_kept(old: Seq<u8>, new: Seq<u8>, lo: int, hi: int, at: int)
    requires
        same_outside(old, new, lo, hi),
        0 <= at,
        at + 2 <= old.len(),
        at + 2 <= lo || hi <= at,
    ensures
        u16_at(new, at) == u16_at(old, at),
{
    lemma_same_outside_subrange(old, new, lo, hi, at, at + 2);
}

/// The bytes of a leaf page after the writes of an unsorted append, up to the
/// last one: the cell's encoding just below the end of free space, the new end
/// of free space, a slot at the old cell count pointing at the cell, and the
/// cell count plus one.
pub open spec fn append_writes(d: Seq<u8>, cell: LeafCell) -> Seq<u8> {
    let off = (u16_at(d, BTREE_LEAF_FREE_END_OFFSET as int) - BTREE_LEAF_CELL_SIZE) as u16;
    let count = u16_at(d, BTREE_LEAF_CELL_COUNT_OFFSET as int);
    let with_cell = overwrite(
        overwrite(d, off as int, encode_cell_spec(cell)),
        BTREE_LEAF_FREE_END_OFFSET as int,
        spec_u16_to_le_bytes(off),
    );
    let with_slot = overwrite(with_cell, leaf_slot_pos(count as int), spec_u16_to_le_bytes(off));
    overwrite(
        with_slot,
        BTREE_LEAF_CELL_COUNT_OFFSET as int,
        spec_u16_to_le_bytes((count + 1) as u16),
    )
}

/// The bytes after a cell write: the cell's encoding just below the end of
/// free space, then the end of free space lowered over it.
pub open spec fn cell_writes(d: Seq<u8>, cell: LeafCell) -> Seq<u8> {
    let off = (u16_at(d, BTREE_LEAF_FREE_END_OFFSET as int) - BTREE_LEAF_CELL_SIZE) as u16;
    overwrite(
        overwrite(d, off as int, encode_cell_spec(cell)),
        BTREE_LEAF_FREE_END_OFFSET as int,
        spec_u16_to_le_bytes(off),
    )
}

/// The bytes with the slots `from..count` moved one slot up.
pub open spec fn shift_slots(d: Seq<u8>, from: int, count: int) -> Seq<u8> {
    if from < count {
        overwrite(d, leaf_slot_pos(from + 1), d.subrange(leaf_slot_pos(from), leaf_slot_pos(count)))
    } else {
        d
    }
}

/// The bytes of an insert that opens slot `s` for `cell`, up to its last
/// write: the cell write, the slots from `s` moved up to the cell count read
/// again, slot `s` pointing at the cell, and the cell count, read again, plus
/// one.
pub open spec fn open_slot_writes(d: Seq<u8>, cell: LeafCell, s: int) -> Seq<u8> {
    let off = (u16_at(d, BTREE_LEAF_FREE_END_OFFSET as int) - BTREE_LEAF_CELL_SIZE) as u16;
    let with_cell = cell_writes(d, cell);
    let shifted = shift_slots(
        with_cell,
        s,
        u16_at(with_cell, BTREE_LEAF_CELL_COUNT_OFFSET as int) as int,
    );
    let with_slot = overwrite(shifted, leaf_slot_pos(s), spec_u16_to_le_bytes(off));
    overwrite(
        with_slot,
        BTREE_LEAF_CELL_COUNT_OFFSET as int,
        spec_u16_to_le_bytes((u16_at(with_slot, BTREE_LEAF_CELL_COUNT_OFFSET as int) + 1) as u16),
    )
}

/// The bytes after an insert that opens slot `s` for `cell`: those of
/// `open_slot_writes`, then the start of free space, read again, raised by one
/// slot.
pub open spec fn open_slot_bytes(d: Seq<u8>, cell: LeafCell, s: int) -> Seq<u8> {
    let before = open_slot_writes(d, cell, s);
    overwrite(
        before,
        BTREE_LEAF_FREE_START_OFFSET as int,
        spec_u16_to_le_bytes(
            (u16_at(before, BTREE_LEAF_FREE_START_OFFSET as int) + BTREE_LEAF_SLOT_SIZE) as u16,
        ),
    )
}

/// The writes of opening slot `s` stay inside the page, and neither counter
/// they raise overflows.
pub open spec fn open_slot_fits(d: Seq<u8>, cell: LeafCell, s: int) -> bool {
    let off = (u16_at(d, BTREE_LEAF_FREE_END_OFFSET as int) - BTREE_LEAF_CELL_SIZE) as u16;
    let with_cell = cell_writes(d, cell);
    let moved = u16_at(with_cell, BTREE_LEAF_CELL_COUNT_OFFSET as int) as int;
    let with_slot = overwrite(
        shift_slots(with_cell, s, moved),
        leaf_slot_pos(s),
        spec_u16_to_le_bytes(off),
    );
    &&& s < moved ==> leaf_slot_pos(moved + 1) <= PAGE_SIZE
    &&& leaf_slot_pos(s) + BTREE_LEAF_SLOT_SIZE <= PAGE_SIZE
    &&& u16_at(with_slot, BTREE_LEAF_CELL_COUNT_OFFSET as int) + 1 <= u16::MAX
    &&& u16_at(open_slot_writes(d, cell, s), BTREE_LEAF_FREE_START_OFFSET as int)
        + BTREE_LEAF_SLOT_SIZE <= u16::MAX
}

/// On a page with the leaf layout and room for an entry, opening any slot up
/// to the cell count stays inside the page: the writes leave the header's
/// counters as they were until they raise them.
pub proof fn lemma_leaf_ok_open_slot_fits(page: BTreeLeafPage, cell: LeafCell, s: int)
    requires
        page.wf(),
        page.leaf_ok(),
        page.has_room(),
        0 <= s <= page.count_spec(),
    ensures
        open_slot_fits(page.bytes(), cell, s),
{
    let d = page.bytes();
    let count = page.count_spec() as int;
    let fe = page.free_end_spec() as int;
    let off = (fe - BTREE_LEAF_CELL_SIZE) as u16;
    lemma_cell_roundtrip(cell);
    lemma_u16_roundtrip(off);
    let a = overwrite(d, off as int, encode_cell_spec(cell));
    lemma_overwrite(d, off as int, encode_cell_spec(cell));
    let with_cell = cell_writes(d, cell);
    lemma_overwrite(a, 8, spec_u16_to_le_bytes(off));
    lemma_u16_kept(d, a, off as int, off + 12, 4);
    lemma_u16_kept(a, with_cell, 8, 10, 4);
    lemma_u16_kept(d, a, off as int, off + 12, 6);
    lemma_u16_kept(a, with_cell, 8, 10, 6);
    let shifted = shift_slots(with_cell, s, count);
    if s < count {
        let src = with_cell.subrange(leaf_slot_pos(s), leaf_slot_pos(count));
        lemma_overwrite(with_cell, leaf_slot_pos(s + 1), src);
        lemma_u16_kept(with_cell, shifted, leaf_slot_pos(s + 1), leaf_slot_pos(count + 1), 4);
        lemma_u16_kept(with_cell, shifted, leaf_slot_pos(s + 1), leaf_slot_pos(count + 1), 6);
    }
    let with_slot = overwrite(shifted, leaf_slot_pos(s), spec_u16_to_le_bytes(off));
    lemma_overwrite(shifted, leaf_slot_pos(s), spec_u16_to_le_bytes(off));
    lemma_u16_kept(shifted, with_slot, leaf_slot_pos(s), leaf_slot_pos(s) + 2, 4);
    lemma_u16_kept(shifted, with_slot, leaf_slot_pos(s), leaf_slot_pos(s) + 2, 6);
    let raised = (count + 1) as u16;
    lemma_u16_roundtrip(raised);
    let last = open_slot_writes(d, cell, s);
    lemma_overwrite(with_slot, 4, spec_u16_to_le_bytes(raised));
    lemma_u16_kept(with_slot, last, 4, 6, 6);
}

pub struct BTreeLeafPage {
    data: Vec<u8>,
}

impl BTreeLeafPage {
    /// The page is exactly `PAGE_SIZE` bytes.
    pub closed spec fn wf(&self) -> bool {
        self.data@.len() == PAGE_SIZE
    }

    /// The page bytes.
    pub closed spec fn bytes(&self) -> Seq<u8> {
        self.data@
    }

    /// The cell count stored in the header.
    pub open spec fn count_spec(&self) -> u16 {
        u16_at(self.bytes(), BTREE_LEAF_CELL_COUNT_OFFSET as int)
    }

    /// The start of free space stored in the header.
    pub open spec fn free_start_spec(&self) -> u16 {
        u16_at(self.bytes(), BTREE_LEAF_FREE_START_OFFSET as int)
    }

    /// The end of free space stored in the header.
    pub open spec fn free_end_spec(&self) -> u16 {
        u16_at(self.bytes(), BTREE_LEAF_FREE_END_OFFSET as int)
    }

    /// Free space holds one more slot and cell.
    pub open spec fn has_room(&self) -> bool {
        self.free_end_spec() - self.free_start_spec() >= BTREE_LEAF_SLOT_SIZE + BTREE_LEAF_CELL_SIZE
    }

    /// Every slot points at a whole cell inside the page.
    pub open spec fn cells_fit(&self) -> bool {
        forall|i: int|
            0 <= i < self.count_spec() ==> #[trigger] leaf_slot(self.bytes(), i)
                + BTREE_LEAF_CELL_SIZE <= PAGE_SIZE
    }

    /// The layout the sorted operations keep: the slot directory ends where
    /// free space starts, free space lies inside the page, and every slot
    /// points at a cell inside the cell area.
    pub open spec fn leaf_ok(&self) -> bool {
        &&& self.free_start_spec() == leaf_slot_pos(self.count_spec() as int)
        &&& self.free_start_spec() <= self.free_end_spec() <= PAGE_SIZE
        &&& forall|i: int|
            0 <= i < self.count_spec() ==> {
                &&& self.free_end_spec() <= #[trigger] leaf_slot(self.bytes(), i)
                &&& leaf_slot(self.bytes(), i) + BTREE_LEAF_CELL_SIZE <= PAGE_SIZE
            }
    }

    /// The cells in slot order.
    pub open spec fn cells(&self) -> Seq<LeafCell> {
        Seq::new(
            self.count_spec() as nat,
            |i: int| cell_at(self.bytes(), leaf_slot(self.bytes(), i) as int),
        )
    }

    /// A well-formed page holds exactly `PAGE_SIZE` bytes.
    pub proof fn lemma_wf(&self)
        requires
            self.wf(),
        ensures
            self.bytes().len() == PAGE_SIZE,
    {
    }

    /// When the cell an unsorted append writes lies above the header's
    /// `free_start` field (free space ends at byte 20 or later) and the new slot
    /// fits, the append reads back the `free_start` the page has now. On a
    /// page with the leaf layout and room for an entry, every requirement of
    /// `append_entry_unsorted` holds.
    pub proof fn lemma_append_ready(&self, cell: LeafCell)
        requires
            self.wf(),
            BTREE_LEAF_CELL_SIZE + 8 <= self.free_end_spec() <= PAGE_SIZE,
            leaf_slot_pos(self.count_spec() + 1) <= PAGE_SIZE,
        ensures
            u16_at(append_writes(self.bytes(), cell), BTREE_LEAF_FREE_START_OFFSET as int)
                == self.free_start_spec(),
            self.leaf_ok() && self.has_room() ==> self.free_start_spec() + BTREE_LEAF_SLOT_SIZE
                <= u16::MAX,
    {
        let d = self.bytes();
        let count = self.count_spec() as int;
        let off = (self.free_end_spec() - BTREE_LEAF_CELL_SIZE) as u16;
        lemma_cell_roundtrip(cell);
        lemma_u16_roundtrip(off);
        let a = overwrite(d, off as int, encode_cell_spec(cell));
        lemma_overwrite(d, off as int, encode_cell_spec(cell));
        let with_cell = overwrite(a, 8, spec_u16_to_le_bytes(off));
        lemma_overwrite(a, 8, spec_u16_to_le_bytes(off));
        lemma_u16_kept(d, a, off as int, off + 12, 6);
        lemma_u16_kept(a, with_cell, 8, 10, 6);
        lemma_u16_kept(d, a, off as int, off + 12, 4);
        lemma_u16_kept(a, with_cell, 8, 10, 4);
        let with_slot = overwrite(with_cell, leaf_slot_pos(count), spec_u16_to_le_bytes(off));
        lemma_overwrite(with_cell, leaf_slot_pos(count), spec_u16_to_le_bytes(off));
        lemma_u16_kept(with_cell, with_slot, leaf_slot_pos(count), leaf_slot_pos(count) + 2, 6);
        let raised = (count + 1) as u16;
        lemma_u16_roundtrip(raised);
        let last = overwrite(with_slot, 4, spec_u16_to_le_bytes(raised));
        lemma_overwrite(with_slot, 4, spec_u16_to_le_bytes(raised));
        lemma_u16_kept(with_slot, last, 4, 6, 6);
        assert(last == append_writes(d, cell));
    }

    /// On a page with the leaf layout every slot points at a whole cell inside
    /// the page, so no search or walk reads outside the page or meets a slot
    /// pointing past its end.
    pub proof fn lemma_leaf_layout(&self)
        requires
            self.wf(),
            self.leaf_ok(),
        ensures
            self.cells_fit(),
            forall|key: u64|
                #[trigger] search_in_page(self.bytes(), self.cells(), key, 0, self.cells().len() as int)
                    && !search_meets_bad(
                    self.bytes(),
                    self.cells(),
                    key,
                    0,
                    self.cells().len() as int,
                ),
            forall|from: int, end: u64|
                #[trigger] walk_in_page(self.bytes(), self.cells(), from, end) && !walk_meets_bad(
                    self.bytes(),
                    self.cells(),
                    from,
                    end,
                ),
    {
        assert forall|i: int| 0 <= i < self.count_spec() implies #[trigger] leaf_slot(
            self.bytes(),
            i,
        ) + BTREE_LEAF_CELL_SIZE <= PAGE_SIZE by {
            assert(leaf_slot(self.bytes(), i) + BTREE_LEAF_CELL_SIZE <= PAGE_SIZE);
        }
        assert forall|key: u64|
            #[trigger] search_in_page(self.bytes(), self.cells(), key, 0, self.cells().len() as int)
                && !search_meets_bad(self.bytes(), self.cells(), key, 0, self.cells().len() as int) by {
            lemma_slots_in_page_search(self.bytes(), self.cells(), key, 0, self.cells().len() as int);
            lemma_good_slots_search(self.bytes(), self.cells(), key, 0, self.cells().len() as int);
        }
        assert forall|from: int, end: u64|
            #[trigger] walk_in_page(self.bytes(), self.cells(), from, end) && !walk_meets_bad(
                self.bytes(),
                self.cells(),
                from,
                end,
            ) by {
            lemma_slots_in_page_walk(self.bytes(), self.cells(), from, end);
            lemma_good_slots_walk(self.bytes(), self.cells(), from, end);
        }
    }

    /// On a page with the leaf layout, `insert` of any key and row can be
    /// called: its search stays inside the page, and opening a slot fits.
    pub proof fn lemma_insert_ready(&self, key: u64, row_id: RowId)
        requires
            self.wf(),
            self.leaf_ok(),
        ensures
            search_in_page(self.bytes(), self.cells(), key, 0, self.cells().len() as int),
            !search_meets_bad(self.bytes(), self.cells(), key, 0, self.cells().len() as int),
            self.free_start_spec() <= self.free_end_spec() <= PAGE_SIZE,
            self.has_room() && leaf_search(self.cells(), key, 0, self.cells().len() as int) is Err
                ==> open_slot_fits(
                self.bytes(),
                LeafCell { key, row_id },
                leaf_search(self.cells(), key, 0, self.cells().len() as int)->Err_0,
            ),
    {
        self.lemma_leaf_layout();
        assert(search_in_page(self.bytes(), self.cells(), key, 0, self.cells().len() as int));
        lemma_leaf_search_bounds(self.cells(), key, 0, self.cells().len() as int);
        if self.has_room() && leaf_search(self.cells(), key, 0, self.cells().len() as int) is Err {
            lemma_leaf_ok_open_slot_fits(
                *self,
                LeafCell { key, row_id },
                leaf_search(self.cells(), key, 0, self.cells().len() as int)->Err_0,
            );
        }
    }

    /// An empty leaf page: header written, no cells.
    pub fn new() -> (page: Self)
        ensures
            page.wf(),
            page.leaf_ok(),
            page.cells() == Seq::<LeafCell>::empty(),
            u16_at(page.bytes(), 0) == BTREE_LEAF_MAGIC,
            page.bytes()[2] == BTREE_LEAF_PAGE_TYPE,
            page.bytes()[3] == BTREE_LEAF_VERSION,
            page.count_spec() == 0,
            page.free_start_spec() == BTREE_LEAF_HEADER_SIZE,
            page.free_end_spec() == PAGE_SIZE,
            u16_at(page.bytes(), 10) == BTREE_LEAF_NO_RIGHT_SIBLING,
            u16_at(page.bytes(), 12) == 0,
    {
        let mut page = BTreeLeafPage { data: vec![0u8; PAGE_SIZE] };
        page.write_u16(BTREE_LEAF_MAGIC_OFFSET, BTREE_LEAF_MAGIC);
        let ghost d0 = page.data@;
        page.write_u8(BTREE_LEAF_PAGE_TYPE_OFFSET, BTREE_LEAF_PAGE_TYPE);
        page.write_u8(BTREE_LEAF_VERSION_OFFSET, BTREE_LEAF_VERSION);
        let ghost d1 = page.data@;
        page.write_u16(BTREE_LEAF_CELL_COUNT_OFFSET, 0);
        let ghost d2 = page.data@;
        page.write_u16(BTREE_LEAF_FREE_START_OFFSET, BTREE_LEAF_HEADER_SIZE as u16);
        let ghost d3 = page.data@;
        page.write_u16(BTREE_LEAF_FREE_END_OFFSET, PAGE_SIZE as u16);
        let ghost d4 = page.data@;
        page.write_u16(BTREE_LEAF_RIGHT_SIBLING_OFFSET, BTREE_LEAF_NO_RIGHT_SIBLING);
        let ghost d5 = page.data@;
        page.write_u16(BTREE_LEAF_FLAGS_OFFSET, 0);
        proof {
            let d6 = page.data@;
            lemma_same_outside_subrange(d0, d1, 2, 4, 0, 2);
            lemma_same_outside_subrange(d1, d2, 4, 6, 0, 2);
            lemma_same_outside_subrange(d2, d3, 6, 8, 0, 2);
            lemma_same_outside_subrange(d3, d4, 8, 10, 0, 2);
            lemma_same_outside_subrange(d4, d5, 10, 12, 0, 2);
            lemma_same_outside_subrange(d5, d6, 12, 14, 0, 2);
            lemma_same_outside_subrange(d2, d3, 6, 8, 4, 6);
            lemma_same_outside_subrange(d3, d4, 8, 10, 4, 6);
            lemma_same_outside_subrange(d4, d5, 10, 12, 4, 6);
            lemma_same_outside_subrange(d5, d6, 12, 14, 4, 6);
            lemma_same_outside_subrange(d3, d4, 8, 10, 6, 8);
            lemma_same_outside_subrange(d4, d5, 10, 12, 6, 8);
            lemma_same_outside_subrange(d5, d6, 12, 14, 6, 8);
            lemma_same_outside_subrange(d4, d5, 10, 12, 8, 10);
            lemma_same_outside_subrange(d5, d6, 12, 14, 8, 10);
            lemma_same_outside_subrange(d5, d6, 12, 14, 10, 12);
            assert(d6[2] == d1[2]);
            assert(d6[3] == d1[3]);
        }
        assert(page.cells() =~= Seq::<LeafCell>::empty());
        page
    }

    pub fn magic(&self) -> (r: u16)
        requires
            self.wf(),
        ensures
            r == u16_at(self.bytes(), 0),
    {
        self.read_u16(BTREE_LEAF_MAGIC_OFFSET)
    }

    pub fn page_type(&self) -> (r: u8)
        requires
            self.wf(),
        ensures
            r == self.bytes()[2],
    {
        self.read_u8(BTREE_LEAF_PAGE_TYPE_OFFSET)
    }

    pub fn version(&self) -> (r: u8)
        requires
            self.wf(),
        ensures
            r == self.bytes()[3],
    {
        self.read_u8(BTREE_LEAF_VERSION_OFFSET)
    }

    pub fn cell_count(&self) -> (r: u16)
        requires
            self.wf(),
        ensures
            r == self.count_spec(),
    {
        self.read_u16(BTREE_LEAF_CELL_COUNT_OFFSET)
    }

    pub fn free_start(&self) -> (r: u16)
        requires
            self.wf(),
        ensures
            r == self.free_start_spec(),
    {
        self.read_u16(BTREE_LEAF_FREE_START_OFFSET)
    }

    pub fn free_end(&self) -> (r: u16)
        requires
            self.wf(),
        ensures
            r == self.free_end_spec(),
    {
        self.read_u16(BTREE_LEAF_FREE_END_OFFSET)
    }

    /// The right sibling's page id, or `None` for the no-sibling marker.
    pub fn right_sibling(&self) -> (r: Option<PageId>)
        requires
            self.wf(),
        ensures
            u16_at(self.bytes(), 10) == BTREE_LEAF_NO_RIGHT_SIBLING ==> r is None,
            u16_at(self.bytes(), 10) != BTREE_LEAF_NO_RIGHT_SIBLING ==> r == Some(
                PageId(u16_at(self.bytes(), 10)),
            ),
    {
        let raw = self.read_u16(BTREE_LEAF_RIGHT_SIBLING_OFFSET);
        if raw == BTREE_LEAF_NO_RIGHT_SIBLING {
            None
        } else {
            Some(PageId(raw))
        }
    }

    pub fn flags(&self) -> (r: u16)
        requires
            self.wf(),
        ensures
            r == u16_at(self.bytes(), 12),
    {
        self.read_u16(BTREE_LEAF_FLAGS_OFFSET)
    }

    /// Free bytes between the slot directory and the cell area.
    pub fn free_space(&self) -> (r: usize)
        requires
            self.wf(),
            self.free_start_spec() <= self.free_end_spec(),
        ensures
            r == self.free_end_spec() - self.free_start_spec(),
    {
        (self.free_end() - self.free_start()) as usize
    }

    /// Whether free space holds one more slot and cell.
    pub fn has_space_for_entry(&self) -> (r: bool)
        requires
            self.wf(),
            self.free_start_spec() <= self.free_end_spec(),
        ensures
            r == (self.free_end_spec() - self.free_start_spec() >= BTREE_LEAF_SLOT_SIZE
                + BTREE_LEAF_CELL_SIZE),
    {
        self.free_space() >= BTREE_LEAF_SLOT_SIZE + BTREE_LEAF_CELL_SIZE
    }

    /// The most cells a leaf page can hold.
    pub fn max_cells(&self) -> (r: usize)
        ensures
            r == BTREE_LEAF_MAX_CELLS,
    {
        BTREE_LEAF_MAX_CELLS
    }

    /// Byte position of a slot of the slot directory.
    pub fn slot_byte_offset(slot_index: u16) -> (r: usize)
        ensures
            r == leaf_slot_pos(slot_index as int),
    {
        BTREE_LEAF_HEADER_SIZE + (slot_index as usize) * BTREE_LEAF_SLOT_SIZE
    }

    /// The cell offset stored in a slot.
    pub fn read_slot(&self, slot_index: u16) -> (r: u16)
        requires
            self.wf(),
            leaf_slot_pos(slot_index as int) + BTREE_LEAF_SLOT_SIZE <= PAGE_SIZE,
        ensures
            r == leaf_slot(self.bytes(), slot_index as int),
    {
        let offset = Self::slot_byte_offset(slot_index);
        self.read_u16(offset)
    }

    /// Stores a cell offset in a slot; no other byte changes.
    pub fn write_slot(&mut self, slot_index: u16, cell_offset: u16)
        requires
            old(self).wf(),
            leaf_slot_pos(slot_index as int) + BTREE_LEAF_SLOT_SIZE <= PAGE_SIZE,
        ensures
            final(self).wf(),
            leaf_slot(final(self).bytes(), slot_index as int) == cell_offset,
            same_outside(
                old(self).bytes(),
                final(self).bytes(),
                leaf_slot_pos(slot_index as int),
                leaf_slot_pos(slot_index as int) + 2,
            ),
            final(self).bytes() == overwrite(
                old(self).bytes(),
                leaf_slot_pos(slot_index as int),
                spec_u16_to_le_bytes(cell_offset),
            ),
    {
        let offset = Self::slot_byte_offset(slot_index);
        self.write_u16(offset, cell_offset);
    }

    /// The page bytes `start..start + len`.
    pub fn bytes_at(&self, start: usize, len: usize) -> (r: &[u8])
        requires
            self.wf(),
            start + len <= PAGE_SIZE,
        ensures
            r@ == self.bytes().subrange(start as int, start + len),
            r@.len() == len,
    {
        slice_subrange(self.data.as_slice(), start, start + len)
    }

    /// Writes the cell's bytes just below the end of free space and moves the
    /// end of free space down over them; returns their offset.
    pub fn write_cell_bytes(&mut self, cell: LeafCell) -> (r: u16)
        requires
            old(self).wf(),
            BTREE_LEAF_CELL_SIZE <= old(self).free_end_spec() <= PAGE_SIZE,
        ensures
            final(self).wf(),
            r == old(self).free_end_spec() - BTREE_LEAF_CELL_SIZE,
            final(self).bytes() == overwrite(
                overwrite(old(self).bytes(), r as int, encode_cell_spec(cell)),
                BTREE_LEAF_FREE_END_OFFSET as int,
                spec_u16_to_le_bytes(r),
            ),
            final(self).free_end_spec() == r,
            r >= 10 ==> final(self).bytes().subrange(r as int, r + BTREE_LEAF_CELL_SIZE)
                == encode_cell_spec(cell),
            r >= 10 ==> cell_at(final(self).bytes(), r as int) == cell,
            r >= 10 ==> same_outside(
                old(self).bytes(),
                final(self).bytes(),
                BTREE_LEAF_FREE_END_OFFSET as int,
                old(self).free_end_spec() as int,
            ),
            r >= 10 ==> forall|j: int|
                0 <= j < PAGE_SIZE && !(BTREE_LEAF_FREE_END_OFFSET <= j < 10) && !(r <= j
                    < old(self).free_end_spec()) ==> #[trigger] final(self).bytes()[j]
                    == old(self).bytes()[j],
    {
        let old_free_end = self.free_end() as usize;
        let new_free_end = old_free_end - BTREE_LEAF_CELL_SIZE;
        let encoded = Self::encode_cell(cell);
        let ghost d0 = self.data@;
        write_bytes(&mut self.data, new_free_end, encoded.as_slice());
        let ghost d1 = self.data@;
        self.write_u16(BTREE_LEAF_FREE_END_OFFSET, new_free_end as u16);
        proof {
            let d2 = self.data@;
            lemma_cell_roundtrip(cell);
            if new_free_end >= 10 {
                lemma_same_outside_subrange(
                    d1,
                    d2,
                    8,
                    10,
                    new_free_end as int,
                    new_free_end + 12,
                );
                assert(encode_cell_spec(cell).subrange(0, 12) =~= encode_cell_spec(cell));
                assert(d2.subrange(new_free_end as int, new_free_end + 12) == encode_cell_spec(cell));
                lemma_cell_same(d2, encode_cell_spec(cell), new_free_end as int, 0);
            }
        }
        new_free_end as u16
    }

    /// The cell stored at a byte offset.
    pub fn read_cell_at(&self, cell_offset: u16) -> (r: LeafCell)
        requires
            self.wf(),
            cell_offset + BTREE_LEAF_CELL_SIZE <= PAGE_SIZE,
        ensures
            r == cell_at(self.bytes(), cell_offset as int),
    {
        let start = cell_offset as usize;
        let end = start + BTREE_LEAF_CELL_SIZE;
        let r = Self::decode_cell(slice_subrange(self.data.as_slice(), start, end));
        proof {
            assert(self.data@.subrange(start as int, end as int).subrange(0, 12) =~= self.data@.subrange(start as int, end as int));
            lemma_cell_same(self.data@.subrange(start as int, end as int), self.data@, 0, start as int);
        }
        r
    }

    /// The twelve bytes of a cell: key, row page id, row slot id, little-endian.
    pub fn encode_cell(cell: LeafCell) -> (r: [u8; 12])
        ensures
            r@ == encode_cell_spec(cell),
    {
        let k = u64_to_le_bytes(cell.key);
        let p = u16_to_le_bytes(cell.row_id.page_id.0);
        let s = u16_to_le_bytes(cell.row_id.slot_id.0);
        let encoded: [u8; 12] = [k[0], k[1], k[2], k[3], k[4], k[5], k[6], k[7], p[0], p[1], s[0], s[1]];
        assert(encoded@ =~= encode_cell_spec(cell));
        encoded
    }

    /// The cell held by the first twelve bytes.
    pub fn decode_cell(bytes: &[u8]) -> (r: LeafCell)
        requires
            bytes@.len() >= BTREE_LEAF_CELL_SIZE,
        ensures
            r == cell_at(bytes@, 0),
    {
        let key = read_u64(bytes, 0);
        let page_id = read_u16(bytes, 8);
        let slot_id = read_u16(bytes, 10);
        LeafCell { key, row_id: RowId { page_id: PageId(page_id), slot_id: SlotId(slot_id) } }
    }

    /// The cell of a slot: `InvalidSlot` past the last slot, `CorruptPage` when
    /// the slot points past the end of the page.
    pub fn read_cell_by_slot(&self, slot_index: u16) -> (r: Result<LeafCell, BTreeLeafPageError>)
        requires
            self.wf(),
            slot_index < self.count_spec() ==> leaf_slot_pos(slot_index as int)
                + BTREE_LEAF_SLOT_SIZE <= PAGE_SIZE,
        ensures
            slot_index >= self.count_spec() ==> r == Err::<LeafCell, BTreeLeafPageError>(
                BTreeLeafPageError::InvalidSlot,
            ),
            slot_index < self.count_spec() && leaf_slot(self.bytes(), slot_index as int)
                + BTREE_LEAF_CELL_SIZE > PAGE_SIZE ==> r == Err::<LeafCell, BTreeLeafPageError>(
                BTreeLeafPageError::CorruptPage,
            ),
            slot_index < self.count_spec() && leaf_slot(self.bytes(), slot_index as int)
                + BTREE_LEAF_CELL_SIZE <= PAGE_SIZE ==> r == Ok::<LeafCell, BTreeLeafPageError>(
                self.cells()[slot_index as int],
            ),
    {
        if slot_index >= self.cell_count() {
            return Err(BTreeLeafPageError::InvalidSlot);
        }
        let cell_offset = self.read_slot(slot_index);
        let start = cell_offset as usize;
        let end = start + BTREE_LEAF_CELL_SIZE;
        if end > PAGE_SIZE {
            return Err(BTreeLeafPageError::CorruptPage);
        }
        Ok(self.read_cell_at(cell_offset))
    }

    /// The key of a slot's cell, or the error reading it.
    pub fn key_at_slot(&self, slot_index: u16) -> (r: Result<u64, BTreeLeafPageError>)
        requires
            self.wf(),
            slot_index < self.count_spec() ==> leaf_slot_pos(slot_index as int)
                + BTREE_LEAF_SLOT_SIZE <= PAGE_SIZE,
        ensures
            slot_index >= self.count_spec() ==> r == Err::<u64, BTreeLeafPageError>(
                BTreeLeafPageError::InvalidSlot,
            ),
            slot_index < self.count_spec() && leaf_slot(self.bytes(), slot_index as int)
                + BTREE_LEAF_CELL_SIZE > PAGE_SIZE ==> r == Err::<u64, BTreeLeafPageError>(
                BTreeLeafPageError::CorruptPage,
            ),
            slot_index < self.count_spec() && leaf_slot(self.bytes(), slot_index as int)
                + BTREE_LEAF_CELL_SIZE <= PAGE_SIZE ==> r == Ok::<u64, BTreeLeafPageError>(
                self.cells()[slot_index as int].key,
            ),
    {
        match self.read_cell_by_slot(slot_index) {
            Ok(cell) => Ok(cell.key),
            Err(error) => Err(error),
        }
    }

    /// Binary search for `key` over the slots: `Ok(slot)` for a slot holding
    /// it, else `Err(slot)` where it would be inserted. On sorted cells the
    /// search finds `key` exactly when it is present, and the insertion slot is
    /// the number of smaller keys.
    pub fn find_slot_for_key(&self, key: u64) -> (r: Result<Result<u16, u16>, BTreeLeafPageError>)
        requires
            self.wf(),
            search_in_page(self.bytes(), self.cells(), key, 0, self.cells().len() as int),
        ensures
            (r is Err) == search_meets_bad(self.bytes(), self.cells(), key, 0, self.cells().len() as int),
            self.cells_fit() ==> r is Ok,
            r is Err ==> r == Err::<Result<u16, u16>, BTreeLeafPageError>(
                BTreeLeafPageError::CorruptPage,
            ),
            r matches Ok(Ok(i)) ==> i < self.cells().len() && self.cells()[i as int].key == key
                && leaf_search(self.cells(), key, 0, self.cells().len() as int) == Ok::<int, int>(
                i as int,
            ),
            r matches Ok(Err(i)) ==> i <= self.cells().len() && leaf_search(
                self.cells(),
                key,
                0,
                self.cells().len() as int,
            ) == Err::<int, int>(i as int) && (keys_sorted(self.cells()) ==> (i == count_below(
                self.cells(),
                key,
            ) && forall|j: int| 0 <= j < self.cells().len() ==> #[trigger] self.cells()[j].key != key)),
    {
        let ghost cells = self.cells();
        let mut low: u16 = 0;
        let mut high: u16 = self.cell_count();
        while low < high
            invariant
                self.wf(),
                search_in_page(self.bytes(), cells, key, low as int, high as int),
                leaf_search(cells, key, low as int, high as int) == leaf_search(
                    cells,
                    key,
                    0,
                    cells.len() as int,
                ),
                cells == self.cells(),
                low <= high <= cells.len(),
                search_meets_bad(self.bytes(), cells, key, low as int, high as int) == search_meets_bad(
                    self.bytes(),
                    cells,
                    key,
                    0,
                    cells.len() as int,
                ),
                keys_sorted(cells) ==> forall|j: int| 0 <= j < low ==> #[trigger] cells[j].key < key,
                keys_sorted(cells) ==> forall|j: int|
                    high <= j < cells.len() ==> #[trigger] cells[j].key > key,
            decreases high - low,
        {
            let mid = low + (high - low) / 2;
            let mid_key = match self.key_at_slot(mid) {
                Ok(k) => k,
                Err(error) => {
                    proof {
                        if self.cells_fit() {
                            assert(leaf_slot(self.bytes(), mid as int) + BTREE_LEAF_CELL_SIZE
                                <= PAGE_SIZE);
                        }
                    }
                    return Err(error);
                },
            };
            if key == mid_key {
                return Ok(Ok(mid));
            }
            if key < mid_key {
                proof {
                    if keys_sorted(cells) {
                        assert forall|j: int| mid <= j < cells.len() implies #[trigger] cells[j].key
                            > key by {
                            if j > mid {
                                assert(cells[mid as int].key < cells[j].key);
                            }
                        }
                    }
                }
                high = mid;
            } else {
                proof {
                    if keys_sorted(cells) {
                        assert forall|j: int| 0 <= j < mid + 1 implies #[trigger] cells[j].key
                            < key by {
                            if j < mid {
                                assert(cells[j].key < cells[mid as int].key);
                            }
                        }
                    }
                }
                low = mid + 1;
            }
        }
        proof {
            if keys_sorted(cells) {
                lemma_count_below_split(cells, key, low as int);
            }
        }
        Ok(Err(low))
    }

    /// The row of `key`, if a cell holds it. On sorted cells this is exactly
    /// `leaf_lookup`.
    pub fn get(&self, key: u64) -> (r: Result<Option<RowId>, BTreeLeafPageError>)
        requires
            self.wf(),
            search_in_page(self.bytes(), self.cells(), key, 0, self.cells().len() as int),
        ensures
            (r is Err) == search_meets_bad(self.bytes(), self.cells(), key, 0, self.cells().len() as int),
            self.cells_fit() ==> r is Ok,
            r is Err ==> r == Err::<Option<RowId>, BTreeLeafPageError>(
                BTreeLeafPageError::CorruptPage,
            ),
            r matches Ok(Some(row)) ==> exists|i: int|
                0 <= i < self.cells().len() && #[trigger] self.cells()[i] == (LeafCell {
                    key,
                    row_id: row,
                }),
            !search_meets_bad(self.bytes(), self.cells(), key, 0, self.cells().len() as int) ==> r
                == Ok::<Option<RowId>, BTreeLeafPageError>(
                match leaf_search(self.cells(), key, 0, self.cells().len() as int) {
                    Ok(i) => Some(self.cells()[i].row_id),
                    Err(_) => None,
                },
            ),
            !search_meets_bad(self.bytes(), self.cells(), key, 0, self.cells().len() as int)
                && keys_sorted(self.cells()) ==> r == Ok::<Option<RowId>, BTreeLeafPageError>(
                leaf_lookup(self.cells(), key),
            ),
    {
        proof {
            if self.cells_fit() {
                lemma_good_slots_search(self.bytes(), self.cells(), key, 0, self.cells().len() as int);
            }
        }
        match self.find_slot_for_key(key) {
            Ok(Ok(slot_index)) => {
                let ghost cells = self.cells();
                proof {
                    lemma_search_found_good(self.bytes(), cells, key, 0, cells.len() as int);
                }
                match self.read_cell_by_slot(slot_index) {
                    Ok(cell) => {
                        proof {
                            assert(cells[slot_index as int] == cell);
                            if keys_sorted(cells) {
                                let w = choose|i: int|
                                    0 <= i < cells.len() && #[trigger] cells[i].key == key;
                                if w != slot_index as int {
                                    if w < slot_index {
                                        assert(cells[w].key < cells[slot_index as int].key);
                                    } else {
                                        assert(cells[slot_index as int].key < cells[w].key);
                                    }
                                }
                            }
                        }
                        Ok(Some(cell.row_id))
                    },
                    Err(error) => Err(error),
                }
            },
            Ok(Err(_)) => Ok(None),
            Err(error) => Err(error),
        }
    }

    /// The rows of the cells from the slot a search for `start` ends on, up to
    /// the first key above `end`. On sorted cells these are exactly the cells
    /// whose key lies in `start..=end` (`rows_in_range`); `start > end` gives
    /// no rows.
    pub fn range(&self, start: u64, end: u64) -> (r: Result<Vec<RowId>, BTreeLeafPageError>)
        requires
            self.wf(),
            start <= end ==> search_in_page(
                self.bytes(),
                self.cells(),
                start,
                0,
                self.cells().len() as int,
            ),
            start <= end && !search_meets_bad(
                self.bytes(),
                self.cells(),
                start,
                0,
                self.cells().len() as int,
            ) ==> walk_in_page(self.bytes(), self.cells(), search_slot(self.cells(), start), end),
        ensures
            self.cells_fit() ==> r is Ok,
            r is Err ==> r == Err::<Vec<RowId>, BTreeLeafPageError>(
                BTreeLeafPageError::CorruptPage,
            ),
            start > end ==> (r matches Ok(rows) && rows@ == Seq::<RowId>::empty()),
            start <= end ==> ((r is Err) == (search_meets_bad(
                self.bytes(),
                self.cells(),
                start,
                0,
                self.cells().len() as int,
            ) || walk_meets_bad(self.bytes(), self.cells(), search_slot(self.cells(), start), end))),
            r is Ok && start <= end ==> r->Ok_0@ == rows_from(
                self.cells(),
                search_slot(self.cells(), start),
                end,
            ),
            r is Ok && keys_sorted(self.cells()) ==> r->Ok_0@ == rows_in_range(
                self.cells(),
                start,
                end,
            ),
    {
        proof {
            if self.cells_fit() {
                lemma_good_slots_search(self.bytes(), self.cells(), start, 0, self.cells().len() as int);
                lemma_good_slots_walk(self.bytes(), self.cells(), search_slot(self.cells(), start), end);
            }
        }
        if start > end {
            proof {
                lemma_rows_in_range_inverted(self.cells(), start, end);
            }
            return Ok(Vec::new());
        }
        let ghost cells = self.cells();
        let start_slot = match self.find_slot_for_key(start) {
            Ok(Ok(slot)) => slot,
            Ok(Err(insert_slot)) => insert_slot,
            Err(error) => {
                return Err(error);
            },
        };
        proof {
            if keys_sorted(cells) {
                lemma_count_below_sorted(cells, start);
                if start_slot < cells.len() && cells[start_slot as int].key == start {
                    assert forall|j: int| 0 <= j < start_slot implies #[trigger] cells[j].key
                        < start by {
                        assert(cells[j].key < cells[start_slot as int].key);
                    }
                    assert forall|j: int| start_slot <= j < cells.len() implies #[trigger] cells[j].key
                        >= start by {
                        if j > start_slot {
                            assert(cells[start_slot as int].key < cells[j].key);
                        }
                    }
                }
                lemma_rows_in_range_prefix_empty(cells, start, end, start_slot as int);
            }
        }
        let mut row_ids: Vec<RowId> = Vec::new();
        let mut slot = start_slot;
        let mut past_end = false;
        assert(row_ids@ + rows_from(cells, slot as int, end) =~= rows_from(cells, slot as int, end));
        let count = self.cell_count();
        while slot < count && !past_end
            invariant
                count == self.count_spec(),
                self.wf(),
                !past_end ==> walk_in_page(self.bytes(), cells, slot as int, end),
                cells == self.cells(),
                start_slot <= slot <= cells.len(),
                start <= end,
                keys_sorted(cells) ==> forall|j: int|
                    0 <= j < start_slot ==> #[trigger] cells[j].key < start,
                keys_sorted(cells) ==> forall|j: int|
                    start_slot <= j < cells.len() ==> #[trigger] cells[j].key >= start,
                keys_sorted(cells) ==> row_ids@ == rows_in_range(
                    cells.take(slot as int),
                    start,
                    end,
                ),
                past_end ==> (keys_sorted(cells) ==> rows_in_range(cells, start, end)
                    == rows_in_range(cells.take(slot as int), start, end)),
                start_slot == search_slot(cells, start),
                !past_end ==> walk_meets_bad(self.bytes(), cells, start_slot as int, end)
                    == walk_meets_bad(self.bytes(), cells, slot as int, end),
                past_end ==> !walk_meets_bad(self.bytes(), cells, start_slot as int, end),
                rows_from(cells, start_slot as int, end) == row_ids@ + rows_from(
                    cells,
                    slot as int,
                    end,
                ),
                past_end ==> rows_from(cells, slot as int, end) == Seq::<RowId>::empty(),
            decreases cells.len() - slot + if past_end {
                0int
            } else {
                1int
            },
        {
            let cell = match self.read_cell_by_slot(slot) {
                Ok(cell) => cell,
                Err(error) => {
                    proof {
                        if self.cells_fit() {
                            assert(leaf_slot(self.bytes(), slot as int) + BTREE_LEAF_CELL_SIZE
                                <= PAGE_SIZE);
                        }
                        assert(walk_meets_bad(self.bytes(), cells, slot as int, end));
                    }
                    return Err(error);
                },
            };
            assert(cells[slot as int] == cell);
            if cell.key > end {
                proof {
                    if keys_sorted(cells) {
                        lemma_rows_in_range_suffix_empty(cells, start, end, slot as int);
                    }
                }
                past_end = true;
            } else {
                proof {
                    assert(cells.take(slot + 1).drop_last() =~= cells.take(slot as int));
                    assert(rows_from(cells, slot as int, end) == seq![cell.row_id] + rows_from(
                        cells,
                        slot + 1,
                        end,
                    ));
                    assert(row_ids@.push(cell.row_id) + rows_from(cells, slot + 1, end)
                        =~= row_ids@ + (seq![cell.row_id] + rows_from(cells, slot + 1, end)));
                }
                row_ids.push(cell.row_id);
                slot += 1;
            }
        }
        proof {
            if !past_end {
                assert(cells.take(slot as int) =~= cells);
                assert(rows_from(cells, slot as int, end) == Seq::<RowId>::empty());
            }
            assert(row_ids@ + Seq::<RowId>::empty() =~= row_ids@);
        }
        Ok(row_ids)
    }

    /// The keys in slot order.
    pub fn keys(&self) -> (r: Result<Vec<u64>, BTreeLeafPageError>)
        requires
            self.wf(),
            walk_in_page(self.bytes(), self.cells(), 0, u64::MAX),
        ensures
            self.cells_fit() ==> (r matches Ok(keys) && keys@ == self.cells().map_values(
                |c: LeafCell| c.key,
            )),
            r is Err ==> r == Err::<Vec<u64>, BTreeLeafPageError>(BTreeLeafPageError::CorruptPage),
            r is Ok ==> self.cells_fit(),
    {
        let mut keys: Vec<u64> = Vec::new();
        let count = self.cell_count();
        let mut slot: u16 = 0;
        while slot < count
            invariant
                self.wf(),
                walk_in_page(self.bytes(), self.cells(), slot as int, u64::MAX),
                count == self.count_spec(),
                slot <= count,
                keys@ == self.cells().take(slot as int).map_values(|c: LeafCell| c.key),
                forall|j: int| 0 <= j < slot ==> #[trigger] leaf_slot(self.bytes(), j)
                    + BTREE_LEAF_CELL_SIZE <= PAGE_SIZE,
            decreases count - slot,
        {
            let key = match self.key_at_slot(slot) {
                Ok(key) => key,
                Err(error) => {
                    proof {
                        if self.cells_fit() {
                            assert(leaf_slot(self.bytes(), slot as int) + BTREE_LEAF_CELL_SIZE
                                <= PAGE_SIZE);
                        }
                    }
                    return Err(error);
                },
            };
            keys.push(key);
            slot += 1;
            assert(keys@ =~= self.cells().take(slot as int).map_values(|c: LeafCell| c.key));
        }
        assert(self.cells().take(count as int) =~= self.cells());
        Ok(keys)
    }

    /// Moves the cell offsets of slots `start_slot..cell_count` one slot up,
    /// last first; slot `start_slot` keeps its value. Nothing moves when
    /// `start_slot` is not below the cell count.
    fn shift_slots_right_from(&mut self, start_slot: u16)
        requires
            old(self).wf(),
            start_slot < old(self).count_spec() ==> leaf_slot_pos(old(self).count_spec() + 1)
                <= PAGE_SIZE,
        ensures
            final(self).wf(),
            final(self).bytes() == shift_slots(
                old(self).bytes(),
                start_slot as int,
                old(self).count_spec() as int,
            ),
            start_slot <= old(self).count_spec() ==> same_outside(
                old(self).bytes(),
                final(self).bytes(),
                leaf_slot_pos(start_slot + 1),
                leaf_slot_pos(old(self).count_spec() + 1),
            ),
            forall|j: int|
                start_slot < j <= old(self).count_spec() ==> #[trigger] leaf_slot(
                    final(self).bytes(),
                    j,
                ) == leaf_slot(old(self).bytes(), j - 1),
    {
        let count = self.cell_count();
        let ghost d0 = self.data@;
        if start_slot >= count {
            assert(same_outside(d0, self.bytes(), leaf_slot_pos(start_slot + 1), leaf_slot_pos(count + 1)));
            return;
        }
        proof {
            lemma_auto_spec_u16_to_from_le_bytes();
        }
        let mut slot = count;
        while slot > start_slot
            invariant
                self.wf(),
                d0.len() == PAGE_SIZE,
                start_slot <= slot <= count,
                count == u16_at(d0, 4),
                leaf_slot_pos(count + 1) <= PAGE_SIZE,
                same_outside(d0, self.bytes(), leaf_slot_pos(slot + 1), leaf_slot_pos(count + 1)),
                forall|k: int|
                    leaf_slot_pos(slot + 1) <= k < leaf_slot_pos(count + 1) ==> #[trigger] self.bytes()[k]
                        == d0[k - 2],
                forall|j: int| slot < j <= count ==> #[trigger] leaf_slot(self.bytes(), j) == leaf_slot(
                    d0,
                    j - 1,
                ),
                forall|s: Seq<u8>|
                    s.len() == 2 ==> #[trigger] spec_u16_to_le_bytes(spec_u16_from_le_bytes(s)) == s,
            decreases slot,
        {
            slot -= 1;
            let ghost before = self.data@;
            proof {
                lemma_slot_kept(d0, before, leaf_slot_pos(slot + 2), leaf_slot_pos(count + 1), slot as int);
                lemma_same_outside_subrange(
                    d0,
                    before,
                    leaf_slot_pos(slot + 2),
                    leaf_slot_pos(count + 1),
                    leaf_slot_pos(slot as int),
                    leaf_slot_pos(slot as int) + 2,
                );
            }
            let value = self.read_slot(slot);
            self.write_slot(slot + 1, value);
            proof {
                let after = self.bytes();
                let lo = leaf_slot_pos(slot + 1);
                let src = before.subrange(leaf_slot_pos(slot as int), leaf_slot_pos(slot as int) + 2);
                assert(spec_u16_to_le_bytes(value) == src);
                lemma_overwrite(before, lo, spec_u16_to_le_bytes(value));
                assert forall|k: int| lo <= k < leaf_slot_pos(count + 1) implies #[trigger] after[k]
                    == d0[k - 2] by {
                    if k < lo + 2 {
                        assert(after[k] == after.subrange(lo, lo + 2)[k - lo]);
                        assert(src[k - lo] == before[k - 2]);
                        assert(before[k - 2] == d0[k - 2]);
                    } else {
                        assert(after[k] == before[k]);
                    }
                }
                assert forall|j: int| slot < j <= count implies #[trigger] leaf_slot(self.bytes(), j)
                    == leaf_slot(d0, j - 1) by {
                    if j > slot + 1 {
                        lemma_slot_kept(before, self.bytes(), leaf_slot_pos(slot + 1), leaf_slot_pos(slot + 1) + 2, j);
                    }
                }
            }
        }
        proof {
            let d1 = self.bytes();
            let lo = leaf_slot_pos(start_slot + 1);
            let want = shift_slots(d0, start_slot as int, count as int);
            let src = d0.subrange(leaf_slot_pos(start_slot as int), leaf_slot_pos(count as int));
            lemma_overwrite(d0, lo, src);
            assert forall|k: int| 0 <= k < d1.len() implies #[trigger] d1[k] == want[k] by {
                if lo <= k < lo + src.len() {
                    assert(want[k] == want.subrange(lo, lo + src.len())[k - lo]);
                    assert(src[k - lo] == d0[k - 2]);
                } else {
                    assert(want[k] == d0[k]);
                }
            }
            assert(d1 =~= want);
        }
    }

    /// Writes a cell below the cell area and appends a slot pointing at it,
    /// without keeping the slots sorted; returns the new slot's index. The
    /// writes come in order: the cell, the end of free space, the new slot, the
    /// cell count, and last the start of free space, read after the others
    /// (`append_writes`). On a page with the leaf layout and room for one more
    /// entry, the cells become the old cells followed by `cell`.
    #[verifier::rlimit(40)]
    pub fn append_entry_unsorted(&mut self, cell: LeafCell) -> (r: u16)
        requires
            old(self).wf(),
            BTREE_LEAF_CELL_SIZE <= old(self).free_end_spec() <= PAGE_SIZE,
            leaf_slot_pos(old(self).count_spec() + 1) <= PAGE_SIZE,
            u16_at(append_writes(old(self).bytes(), cell), BTREE_LEAF_FREE_START_OFFSET as int)
                + BTREE_LEAF_SLOT_SIZE <= u16::MAX,
        ensures
            final(self).wf(),
            r == old(self).count_spec(),
            final(self).bytes() == overwrite(
                append_writes(old(self).bytes(), cell),
                BTREE_LEAF_FREE_START_OFFSET as int,
                spec_u16_to_le_bytes(
                    (u16_at(append_writes(old(self).bytes(), cell), BTREE_LEAF_FREE_START_OFFSET as int)
                        + BTREE_LEAF_SLOT_SIZE) as u16,
                ),
            ),
            final(self).count_spec() == old(self).count_spec() + 1,
            final(self).free_end_spec() == old(self).free_end_spec() - BTREE_LEAF_CELL_SIZE,
            leaf_slot(final(self).bytes(), r as int) == old(self).free_end_spec()
                - BTREE_LEAF_CELL_SIZE,
            old(self).free_end_spec() >= BTREE_LEAF_CELL_SIZE + 8 ==> final(self).free_start_spec()
                == old(self).free_start_spec() + BTREE_LEAF_SLOT_SIZE,
            old(self).leaf_ok() && old(self).free_end_spec() - old(self).free_start_spec()
                >= BTREE_LEAF_SLOT_SIZE + BTREE_LEAF_CELL_SIZE ==> {
                &&& final(self).leaf_ok()
                &&& final(self).cells() == old(self).cells().push(cell)
            },
    {
        let ghost d0 = self.data@;
        let ghost fe = self.free_end_spec() as int;
        let ghost count = self.count_spec() as int;
        let slot_index = self.cell_count();
        let cell_offset = self.write_cell_bytes(cell);
        let ghost d1 = self.data@;
        self.write_slot(slot_index, cell_offset);
        let ghost d2 = self.data@;
        self.write_u16(BTREE_LEAF_CELL_COUNT_OFFSET, slot_index + 1);
        let ghost d3 = self.data@;
        assert(d3 == append_writes(d0, cell));
        let free_start = self.free_start();
        proof {
            let off = cell_offset as int;
            lemma_u16_kept(d1, d2, leaf_slot_pos(count), leaf_slot_pos(count) + 2, 6);
            lemma_u16_kept(d2, d3, 4, 6, 6);
            if fe >= 20 {
                lemma_cell_roundtrip(cell);
                lemma_u16_roundtrip(cell_offset);
                let da = overwrite(d0, off, encode_cell_spec(cell));
                lemma_overwrite(d0, off, encode_cell_spec(cell));
                lemma_overwrite(da, 8, spec_u16_to_le_bytes(cell_offset));
                lemma_u16_kept(d0, da, off, off + 12, 6);
                lemma_u16_kept(da, d1, 8, 10, 6);
            }
        }
        self.write_u16(BTREE_LEAF_FREE_START_OFFSET, free_start + BTREE_LEAF_SLOT_SIZE as u16);
        proof {
            let d4 = self.data@;
            let off = cell_offset as int;
            lemma_u16_kept(d1, d2, leaf_slot_pos(count), leaf_slot_pos(count) + 2, 8);
            lemma_u16_kept(d2, d3, 4, 6, 8);
            lemma_u16_kept(d3, d4, 6, 8, 8);
            lemma_u16_kept(d3, d4, 6, 8, 4);
            lemma_slot_kept(d2, d3, 4, 6, count);
            lemma_slot_kept(d3, d4, 6, 8, count);
            if d0 == old(self).bytes() && old(self).leaf_ok() && fe - old(self).free_start_spec() >= 14 {
                lemma_after_cell_write(d0, d1, off, fe, count);
                lemma_cell_kept(d1, d2, leaf_slot_pos(count), leaf_slot_pos(count) + 2, off);
                lemma_cell_kept(d2, d3, 4, 6, off);
                lemma_cell_kept(d3, d4, 6, 8, off);
                assert forall|j: int| 0 <= j < count implies #[trigger] leaf_slot(d4, j) == leaf_slot(d0, j) by {
                    lemma_slot_kept(d1, d2, leaf_slot_pos(count), leaf_slot_pos(count) + 2, j);
                    lemma_slot_kept(d2, d3, 4, 6, j);
                    lemma_slot_kept(d3, d4, 6, 8, j);
                }
                assert forall|j: int| 0 <= j < count implies #[trigger] cell_at(d4, leaf_slot(d4, j) as int) == cell_at(d0, leaf_slot(d0, j) as int) by {
                    let o = leaf_slot(d0, j) as int;
                    assert(fe <= o);
                    lemma_cell_kept(d1, d2, leaf_slot_pos(count), leaf_slot_pos(count) + 2, o);
                    lemma_cell_kept(d2, d3, 4, 6, o);
                    lemma_cell_kept(d3, d4, 6, 8, o);
                }
                assert(self.cells() =~= old(self).cells().push(cell));
            }
        }
        slot_index
    }

    /// Stores `key -> row_id`. Without room for one more slot and cell:
    /// `NotEnoughSpace` and no change. When the search for `key` reads a slot
    /// pointing past the end of the page: `CorruptPage` and no change.
    /// Otherwise a new cell is written; when the search finds a slot holding
    /// `key` that slot is pointed at it, else a slot is opened where the search
    /// ended (`open_slot_bytes`). On a page with the leaf layout this stores the
    /// cell (`leaf_store`), which on sorted cells is `leaf_insert_spec`, and the
    /// layout and the order are kept.
    #[verifier::rlimit(60)]
    pub fn insert(&mut self, key: u64, row_id: RowId) -> (r: Result<(), BTreeLeafPageError>)
        requires
            old(self).wf(),
            search_in_page(old(self).bytes(), old(self).cells(), key, 0, old(self).cells().len() as int),
            old(self).free_start_spec() <= old(self).free_end_spec(),
            old(self).has_room() ==> old(self).free_end_spec() <= PAGE_SIZE,
            old(self).has_room() && !search_meets_bad(
                old(self).bytes(),
                old(self).cells(),
                key,
                0,
                old(self).cells().len() as int,
            ) && leaf_search(old(self).cells(), key, 0, old(self).cells().len() as int) is Err
                ==> open_slot_fits(
                old(self).bytes(),
                LeafCell { key, row_id },
                leaf_search(old(self).cells(), key, 0, old(self).cells().len() as int)->Err_0,
            ),
        ensures
            final(self).wf(),
            !old(self).has_room() ==> {
                &&& r == Err::<(), BTreeLeafPageError>(BTreeLeafPageError::NotEnoughSpace)
                &&& final(self).bytes() == old(self).bytes()
            },
            old(self).has_room() && search_meets_bad(
                old(self).bytes(),
                old(self).cells(),
                key,
                0,
                old(self).cells().len() as int,
            ) ==> {
                &&& r == Err::<(), BTreeLeafPageError>(BTreeLeafPageError::CorruptPage)
                &&& final(self).bytes() == old(self).bytes()
            },
            old(self).has_room() && !search_meets_bad(
                old(self).bytes(),
                old(self).cells(),
                key,
                0,
                old(self).cells().len() as int,
            ) ==> {
                &&& r == Ok::<(), BTreeLeafPageError>(())
                &&& final(self).bytes() == match leaf_search(
                    old(self).cells(),
                    key,
                    0,
                    old(self).cells().len() as int,
                ) {
                    Ok(i) => overwrite(
                        cell_writes(old(self).bytes(), LeafCell { key, row_id }),
                        leaf_slot_pos(i),
                        spec_u16_to_le_bytes(
                            (old(self).free_end_spec() - BTREE_LEAF_CELL_SIZE) as u16,
                        ),
                    ),
                    Err(s) => open_slot_bytes(old(self).bytes(), LeafCell { key, row_id }, s),
                }
            },
            old(self).leaf_ok() ==> final(self).leaf_ok(),
            old(self).leaf_ok() && old(self).has_room() ==> {
                &&& final(self).free_end_spec() == old(self).free_end_spec() - BTREE_LEAF_CELL_SIZE
                &&& final(self).count_spec() == old(self).count_spec() + if leaf_search(
                    old(self).cells(),
                    key,
                    0,
                    old(self).cells().len() as int,
                ) is Ok {
                    0int
                } else {
                    1int
                }
                &&& final(self).cells() == leaf_store(old(self).cells(), LeafCell { key, row_id })
                &&& keys_sorted(old(self).cells()) ==> final(self).cells() == leaf_insert_spec(
                    old(self).cells(),
                    LeafCell { key, row_id },
                )
            },
    {
        if !self.has_space_for_entry() {
            return Err(BTreeLeafPageError::NotEnoughSpace);
        }
        let cell = LeafCell { key, row_id };
        let ghost d0 = self.data@;
        let ghost cells = self.cells();
        let ghost fe = self.free_end_spec() as int;
        let ghost count = self.count_spec() as int;
        let ghost ok0 = self.leaf_ok();
        proof {
            lemma_leaf_search_bounds(cells, key, 0, cells.len() as int);
            if self.leaf_ok() {
                assert(self.cells_fit()) by {
                    assert forall|i: int| 0 <= i < self.count_spec() implies #[trigger] leaf_slot(
                        self.bytes(),
                        i,
                    ) + BTREE_LEAF_CELL_SIZE <= PAGE_SIZE by {
                        assert(leaf_slot(self.bytes(), i) + BTREE_LEAF_CELL_SIZE <= PAGE_SIZE);
                    }
                }
            }
            if keys_sorted(cells) {
                lemma_count_below_sorted(cells, key);
            }
        }
        let found = match self.find_slot_for_key(key) {
            Ok(found) => found,
            Err(error) => {
                return Err(error);
            },
        };
        match found {
            Ok(existing_slot) => {
                proof {
                    lemma_search_found_good(d0, cells, key, 0, cells.len() as int);
                }
                let cell_offset = self.write_cell_bytes(cell);
                let ghost d1 = self.data@;
                self.write_slot(existing_slot, cell_offset);
                proof {
                    let d2 = self.data@;
                    let off = cell_offset as int;
                    let i = existing_slot as int;
                    if ok0 {
                        lemma_after_cell_write(d0, d1, off, fe, count);
                        lemma_cell_kept(d1, d2, leaf_slot_pos(i), leaf_slot_pos(i) + 2, off);
                        lemma_u16_kept(d1, d2, leaf_slot_pos(i), leaf_slot_pos(i) + 2, 4);
                        lemma_u16_kept(d1, d2, leaf_slot_pos(i), leaf_slot_pos(i) + 2, 6);
                        lemma_u16_kept(d1, d2, leaf_slot_pos(i), leaf_slot_pos(i) + 2, 8);
                        assert forall|j: int| 0 <= j < count && j != i implies #[trigger] leaf_slot(d2, j)
                            == leaf_slot(d0, j) by {
                            lemma_slot_kept(d1, d2, leaf_slot_pos(i), leaf_slot_pos(i) + 2, j);
                        }
                        assert forall|j: int| 0 <= j < count && j != i implies #[trigger] cell_at(
                            d2,
                            leaf_slot(d2, j) as int,
                        ) == cell_at(d0, leaf_slot(d0, j) as int) by {
                            let o = leaf_slot(d0, j) as int;
                            assert(fe <= o);
                            lemma_cell_kept(d1, d2, leaf_slot_pos(i), leaf_slot_pos(i) + 2, o);
                        }
                        assert forall|j: int| 0 <= j < self.count_spec() implies {
                            &&& self.free_end_spec() <= #[trigger] leaf_slot(self.bytes(), j)
                            &&& leaf_slot(self.bytes(), j) + BTREE_LEAF_CELL_SIZE <= PAGE_SIZE
                        } by {
                            if j != i {
                                assert(fe <= leaf_slot(d0, j));
                                assert(leaf_slot(d0, j) + BTREE_LEAF_CELL_SIZE <= PAGE_SIZE);
                            }
                        }
                        assert(self.cells() =~= cells.update(i, cell));
                        if keys_sorted(cells) {
                            if count_below(cells, key) != i {
                                if count_below(cells, key) < i {
                                    assert(cells[count_below(cells, key)].key < cells[i].key);
                                } else {
                                    assert(cells[i].key < key);
                                }
                            }
                        }
                    }
                }
            },
            Err(insert_slot) => {
                proof {
                    if self.leaf_ok() {
                        lemma_leaf_ok_open_slot_fits(*self, cell, insert_slot as int);
                    }
                }
                self.open_slot(cell, insert_slot);
            },
        }
        proof {
            if ok0 {
                assert(self.cells().len() == self.count_spec());
                assert(cells.len() == count);
                match leaf_search(cells, key, 0, cells.len() as int) {
                    Ok(i) => {
                        assert(leaf_store(cells, cell).len() == cells.len());
                    },
                    Err(i) => {
                        assert(leaf_store(cells, cell).len() == cells.len() + 1);
                    },
                }
            }
        }
        Ok(())
    }

    /// Opens slot `s` for `cell`: writes the cell, moves the slots from `s` up,
    /// points slot `s` at the cell, then raises the cell count and the start of
    /// free space, each read again just before it is written.
    #[verifier::rlimit(40)]
    fn open_slot(&mut self, cell: LeafCell, s: u16)
        requires
            old(self).wf(),
            BTREE_LEAF_CELL_SIZE <= old(self).free_end_spec() <= PAGE_SIZE,
            open_slot_fits(old(self).bytes(), cell, s as int),
        ensures
            final(self).wf(),
            final(self).bytes() == open_slot_bytes(old(self).bytes(), cell, s as int),
            old(self).leaf_ok() && old(self).has_room() && s <= old(self).count_spec() ==> {
                &&& final(self).free_end_spec() == old(self).free_end_spec() - BTREE_LEAF_CELL_SIZE
                &&& final(self).leaf_ok()
                &&& final(self).cells() == old(self).cells().insert(s as int, cell)
            },
    {
        let ghost d0 = self.data@;
        let ghost cells = self.cells();
        let ghost fe = self.free_end_spec() as int;
        let ghost count = self.count_spec() as int;
        let cell_offset = self.write_cell_bytes(cell);
        let ghost d1 = self.data@;
        proof {
            if old(self).leaf_ok() && old(self).has_room() {
                lemma_after_cell_write(d0, d1, cell_offset as int, fe, count);
            }
        }
        self.shift_slots_right_from(s);
        let ghost d2 = self.data@;
        self.write_slot(s, cell_offset);
        let ghost d3 = self.data@;
        let cell_count = self.cell_count();
        self.write_u16(BTREE_LEAF_CELL_COUNT_OFFSET, cell_count + 1);
        let ghost d4 = self.data@;
        assert(d4 == open_slot_writes(d0, cell, s as int));
        let free_start = self.free_start();
        self.write_u16(BTREE_LEAF_FREE_START_OFFSET, free_start + BTREE_LEAF_SLOT_SIZE as u16);
        proof {
            if old(self).leaf_ok() && old(self).has_room() && s <= old(self).count_spec() {
                let insert_slot = s;
                let d5 = self.data@;
                let off = cell_offset as int;
                let i = insert_slot as int;
                lemma_after_cell_write(d0, d1, off, fe, count);
                let lo2 = leaf_slot_pos(i + 1);
                let hi2 = leaf_slot_pos(count + 1);
                let lo3 = leaf_slot_pos(i);
                lemma_u16_kept(d1, d2, lo2, hi2, 4);
                lemma_u16_kept(d2, d3, lo3, lo3 + 2, 4);
                lemma_u16_kept(d1, d2, lo2, hi2, 6);
                lemma_u16_kept(d2, d3, lo3, lo3 + 2, 6);
                lemma_u16_kept(d3, d4, 4, 6, 6);
                assert(cell_count == count);
                assert(free_start == old(self).free_start_spec());
                lemma_cell_kept(d1, d2, lo2, hi2, off);
                lemma_cell_kept(d2, d3, lo3, lo3 + 2, off);
                lemma_cell_kept(d3, d4, 4, 6, off);
                lemma_cell_kept(d4, d5, 6, 8, off);
                lemma_u16_kept(d1, d2, lo2, hi2, 8);
                lemma_u16_kept(d2, d3, lo3, lo3 + 2, 8);
                lemma_u16_kept(d3, d4, 4, 6, 8);
                lemma_u16_kept(d4, d5, 6, 8, 8);
                lemma_u16_kept(d4, d5, 6, 8, 4);
                assert forall|j: int| 0 <= j <= count implies #[trigger] leaf_slot(d5, j) == (if j < i {
                    leaf_slot(d0, j)
                } else if j == i {
                    cell_offset
                } else {
                    leaf_slot(d0, j - 1)
                }) by {
                    lemma_slot_kept(d3, d4, 4, 6, j);
                    lemma_slot_kept(d4, d5, 6, 8, j);
                    if j != i {
                        lemma_slot_kept(d2, d3, lo3, lo3 + 2, j);
                    }
                    if j < i {
                        lemma_slot_kept(d1, d2, lo2, hi2, j);
                    } else if j > i {
                        assert(leaf_slot(d2, j) == leaf_slot(d1, j - 1));
                    }
                }
                assert forall|j: int| 0 <= j < count implies #[trigger] cell_at(d5, leaf_slot(d0, j) as int)
                    == cell_at(d0, leaf_slot(d0, j) as int) by {
                    let o = leaf_slot(d0, j) as int;
                    assert(fe <= o);
                    lemma_cell_kept(d1, d2, lo2, hi2, o);
                    lemma_cell_kept(d2, d3, lo3, lo3 + 2, o);
                    lemma_cell_kept(d3, d4, 4, 6, o);
                    lemma_cell_kept(d4, d5, 6, 8, o);
                }
                assert forall|j: int| 0 <= j < self.count_spec() implies {
                    &&& self.free_end_spec() <= #[trigger] leaf_slot(self.bytes(), j)
                    &&& leaf_slot(self.bytes(), j) + BTREE_LEAF_CELL_SIZE <= PAGE_SIZE
                } by {
                    if j < i {
                        assert(fe <= leaf_slot(d0, j));
                    } else if j > i {
                        assert(fe <= leaf_slot(d0, j - 1));
                    }
                }
                assert forall|j: int| 0 <= j < count + 1 implies #[trigger] self.cells()[j]
                    == cells.insert(i, cell)[j] by {
                    if j < i {
                        assert(leaf_slot(d5, j) == leaf_slot(d0, j));
                    } else if j > i {
                        assert(leaf_slot(d5, j) == leaf_slot(d0, j - 1));
                    }
                }
                assert(self.cells() =~= cells.insert(i, cell));
            }
        }
    }

    fn read_u16(&self, offset: usize) -> (r: u16)
        requires
            self.wf(),
            offset + 2 <= PAGE_SIZE,
        ensures
            r == u16_at(self.bytes(), offset as int),
    {
        read_u16(self.data.as_slice(), offset)
    }

    fn write_u16(&mut self, offset: usize, value: u16)
        requires
            old(self).wf(),
            offset + 2 <= PAGE_SIZE,
        ensures
            final(self).wf(),
            u16_at(final(self).bytes(), offset as int) == value,
            same_outside(old(self).bytes(), final(self).bytes(), offset as int, offset + 2),
            final(self).bytes() == overwrite(old(self).bytes(), offset as int, spec_u16_to_le_bytes(value)),
    {
        write_u16(&mut self.data, offset, value);
    }

    fn read_u8(&self, offset: usize) -> (r: u8)
        requires
            self.wf(),
            offset < PAGE_SIZE,
        ensures
            r == self.bytes()[offset as int],
    {
        self.data[offset]
    }

    fn write_u8(&mut self, offset: usize, value: u8)
        requires
            old(self).wf(),
            offset < PAGE_SIZE,
        ensures
            final(self).wf(),
            final(self).bytes() == old(self).bytes().update(offset as int, value),
    {
        self.data.set(offset, value);
    }
}

impl Default for BTreeLeafPage {
    fn default() -> (page: Self)
        ensures
            page.wf(),
            page.leaf_ok(),
            page.cells() == Seq::<LeafCell>::empty(),
    {
        Self::new()
    }
}

} // verus!
