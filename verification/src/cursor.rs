//! Cursors: a position inside the table, used to insert one row at
//! its sorted place and to walk all rows in key order.

use vstd::prelude::*;

use crate::consts::{CELLS_PER_PAGE, KEY_SIZE, ROW_SIZE, TABLE_MAX_PAGES};
use crate::error::DbError;
use crate::codec::spec_i32_from_be;
use crate::page::{deserialize_key, CellV, PageV};
use crate::pager::{scan_cells, scan_keys, scan_values, spec_left_num, spec_right_num};
use crate::table::{target_leaf, Table};

verus! {

/// The mathematical value of a cursor.
#[verifier::ext_equal]
pub struct CursorV {
    pub page_num: u64,
    pub cell_num: u64,
    pub end_of_table: bool,
}

/// A position `(page_num, cell_num)` in the table plus an
/// end-of-table flag.
pub struct Cursor {
    page_num: u64,
    cell_num: u64,
    end_of_table: bool,
}

impl View for Cursor {
    type V = CursorV;

    closed spec fn view(&self) -> CursorV {
        CursorV {
            page_num: self.page_num,
            cell_num: self.cell_num,
            end_of_table: self.end_of_table,
        }
    }
}

/// The scan position a cursor stands at: past the end, or a concrete
/// cell of the leaf chain.
pub open spec fn cursor_pos(c: CursorV, ps: Seq<PageV>, np: int) -> int {
    if c.end_of_table {
        scan_cells(ps, np).len() as int
    } else if np == 1 {
        c.cell_num as int
    } else if c.page_num == spec_left_num(ps) {
        c.cell_num as int
    } else {
        ps[spec_left_num(ps)].cells.len() + c.cell_num
    }
}

/// A cursor that stands at a real position of the scan: its page and
/// cell agree with its scan position, and the end flag is set
/// exactly past the last cell.
pub open spec fn cursor_ok(c: CursorV, ps: Seq<PageV>, np: int) -> bool {
    let s = scan_cells(ps, np);
    let k = cursor_pos(c, ps, np);
    &&& 0 <= k <= s.len()
    &&& (c.end_of_table ==> k == s.len())
    &&& (!c.end_of_table ==> k < s.len() && {
        if np == 1 {
            c.page_num == 0 && c.cell_num < ps[0].cells.len()
        } else {
            let l = spec_left_num(ps);
            let r = spec_right_num(ps);
            np == TABLE_MAX_PAGES && ((c.page_num == l && c.cell_num < ps[l].cells.len()) || (
            c.page_num == r && c.cell_num < ps[r].cells.len()))
        }
    })
}

/// A cursor standing at the place `key` lives or belongs: every
/// earlier cell of the target leaf is below `key`, every cell from
/// the cursor on is at or above it.
pub open spec fn located_at(c: CursorV, ps: Seq<PageV>, np: int, key: i32) -> bool {
    if np == 0 {
        c.page_num == 0 && c.cell_num == 0
    } else {
        let t = target_leaf(ps, np, key);
        let leaf = ps[t];
        &&& c.page_num == t
        &&& c.cell_num <= leaf.cells.len()
        &&& forall|i: int| 0 <= i < c.cell_num ==> (#[trigger] leaf.cells[i]).key < key
        &&& forall|i: int|
            c.cell_num <= i < leaf.cells.len() ==> (#[trigger] leaf.cells[i]).key >= key
    }
}

/// Where a key goes in a scan: the index after every strictly
/// smaller prefix of cells.
pub open spec fn spec_insert_pos(cells: Seq<CellV>, key: i32) -> int
    decreases cells.len(),
{
    if cells.len() == 0 {
        0
    } else if cells.last().key < key {
        cells.len() as int
    } else {
        spec_insert_pos(cells.drop_last(), key)
    }
}

/// The insert position always lies within the sequence.
pub proof fn lemma_insert_pos_bounds(cells: Seq<CellV>, key: i32)
    ensures
        0 <= spec_insert_pos(cells, key) <= cells.len(),
    decreases cells.len(),
{
    if cells.len() > 0 && !(cells.last().key < key) {
        lemma_insert_pos_bounds(cells.drop_last(), key);
    }
}

/// The keys of a cell sequence, in order.
pub open spec fn cell_keys(s: Seq<CellV>) -> Seq<i32> {
    s.map_values(|c: CellV| c.key)
}

/// An inserted row is emitted at its insert position, and no key
/// other than the inserted one appears or disappears: a subsequent
/// scan emits the new row and is otherwise about the same keys.
pub proof fn lemma_insert_emits(s: Seq<CellV>, x: CellV)
    ensures
        ({
            let pos = spec_insert_pos(s, x.key);
            let s2 = s.insert(pos, x);
            &&& s2[pos] == x
            &&& cell_keys(s2) == cell_keys(s).insert(pos, x.key)
            &&& forall|q: i32|
                q != x.key ==> (#[trigger] cell_keys(s2).contains(q) <==> cell_keys(s).contains(q))
        }),
{
    let pos = spec_insert_pos(s, x.key);
    lemma_insert_pos_bounds(s, x.key);
    let s2 = s.insert(pos, x);
    let k2 = cell_keys(s2);
    let k1 = cell_keys(s);
    assert(k2 =~= k1.insert(pos, x.key));
    assert forall|q: i32| q != x.key implies (k2.contains(q) <==> k1.contains(q)) by {
        if k2.contains(q) {
            let i = choose|i: int| 0 <= i < k2.len() && k2[i] == q;
            if i < pos {
                assert(k1[i] == q);
            } else {
                assert(i > pos);
                assert(k1[i - 1] == q);
            }
        }
        if k1.contains(q) {
            let i = choose|i: int| 0 <= i < k1.len() && k1[i] == q;
            if i < pos {
                assert(k2[i] == q);
            } else {
                assert(k2[i + 1] == q);
            }
        }
    }
}

/// Any index with all-smaller keys before it and no smaller key from
/// it on is the insert position.
pub proof fn lemma_insert_pos_char(cells: Seq<CellV>, key: i32, c: int)
    requires
        0 <= c <= cells.len(),
        forall|i: int| 0 <= i < c ==> (#[trigger] cells[i]).key < key,
        forall|i: int| c <= i < cells.len() ==> (#[trigger] cells[i]).key >= key,
    ensures
        spec_insert_pos(cells, key) == c,
    decreases cells.len(),
{
    if cells.len() == 0 {
    } else if cells.last().key < key {
        assert(c == cells.len());
    } else {
        assert(c < cells.len());
        assert(forall|i: int|
            0 <= i < c ==> (#[trigger] cells.drop_last()[i]).key < key && cells.drop_last()[i]
                == cells[i]);
        assert(forall|i: int|
            c <= i < cells.len() - 1 ==> (#[trigger] cells.drop_last()[i]).key >= key
                && cells.drop_last()[i] == cells[i]);
        lemma_insert_pos_char(cells.drop_last(), key, c);
    }
}

/// Inserting into the left part of a concatenation inserts into the
/// concatenation.
pub proof fn lemma_insert_left(a: Seq<CellV>, b: Seq<CellV>, c: int, x: CellV)
    requires
        0 <= c <= a.len(),
    ensures
        a.insert(c, x) + b == (a + b).insert(c, x),
{
    assert(a.insert(c, x) + b =~= (a + b).insert(c, x));
}

/// Inserting into the right part of a concatenation inserts past the
/// left part.
pub proof fn lemma_insert_right(a: Seq<CellV>, b: Seq<CellV>, c: int, x: CellV)
    requires
        0 <= c <= b.len(),
    ensures
        a + b.insert(c, x) == (a + b).insert(a.len() + c, x),
{
    assert(a + b.insert(c, x) =~= (a + b).insert(a.len() + c, x));
}

/// At a located cursor, the key is in the table exactly when the
/// cursor's own cell carries it.
pub proof fn lemma_located_present(c: CursorV, ps: Seq<PageV>, np: int, key: i32)
    requires
        crate::pager::pages_wf(ps, np),
        np > 0,
        located_at(c, ps, np, key),
    ensures
        scan_keys(ps, np).contains(key) <==> (c.cell_num < ps[target_leaf(ps, np, key)].cells.len()
            && ps[target_leaf(ps, np, key)].cells[c.cell_num as int].key == key),
{
    let t = target_leaf(ps, np, key);
    let leaf = ps[t];
    let s = scan_cells(ps, np);
    let sk = scan_keys(ps, np);
    if c.cell_num < leaf.cells.len() && leaf.cells[c.cell_num as int].key == key {
        // The key sits in the scan too.
        if np == 1 {
            assert(sk[c.cell_num as int] == s[c.cell_num as int].key);
            assert(s[c.cell_num as int] == leaf.cells[c.cell_num as int]);
        } else {
            let l = spec_left_num(ps);
            let r = spec_right_num(ps);
            let ln = ps[l].cells.len() as int;
            if t == l {
                assert(s[c.cell_num as int] == leaf.cells[c.cell_num as int]);
                assert(sk[c.cell_num as int] == s[c.cell_num as int].key);
            } else {
                assert(s[ln + c.cell_num] == leaf.cells[c.cell_num as int]);
                assert(sk[ln + c.cell_num] == s[ln + c.cell_num].key);
            }
        }
        assert(sk.contains(key));
    }
    if sk.contains(key) {
        let i = choose|i: int| 0 <= i < sk.len() && sk[i] == key;
        assert(sk[i] == s[i].key);
        if np == 1 {
            assert(s[i] == leaf.cells[i]);
            // The cursor's boundaries force the found index to the
            // cursor itself.
            assert(i >= c.cell_num);
            if i > c.cell_num {
                crate::table::lemma_scan_keys_sorted(ps, np);
                assert(sk[c.cell_num as int] < sk[i]);
                assert(leaf.cells[c.cell_num as int].key >= key);
                assert(sk[c.cell_num as int] == s[c.cell_num as int].key);
                assert(false);
            }
        } else {
            let l = spec_left_num(ps);
            let r = spec_right_num(ps);
            let ln = ps[l].cells.len() as int;
            let sep = ps[0].icells[0].key;
            if t == l {
                // key <= sep, so it cannot sit in the right leaf.
                if i >= ln {
                    assert(s[i] == ps[r].cells[i - ln]);
                    assert(ps[r].cells[i - ln].key > sep);
                    assert(false);
                }
                assert(s[i] == ps[l].cells[i]);
                assert(i >= c.cell_num);
                if i > c.cell_num {
                    crate::table::lemma_scan_keys_sorted(ps, np);
                    assert(sk[c.cell_num as int] == s[c.cell_num as int].key);
                    assert(s[c.cell_num as int] == ps[l].cells[c.cell_num as int]);
                    assert(sk[c.cell_num as int] < sk[i]);
                    assert(false);
                }
            } else {
                // key > sep, so it cannot sit in the left leaf.
                if i < ln {
                    assert(s[i] == ps[l].cells[i]);
                    assert(ps[l].keys()[i] == ps[l].cells[i].key);
                    assert(ps[l].keys().last() == ps[l].cells[ln - 1].key);
                    if i < ln - 1 {
                        assert(ps[l].keys()[i] < ps[l].keys()[ln - 1]);
                    }
                    assert(ps[l].cells[i].key <= sep);
                    assert(false);
                }
                assert(s[i] == ps[r].cells[i - ln]);
                assert(i - ln >= c.cell_num);
                if i - ln > c.cell_num {
                    crate::table::lemma_scan_keys_sorted(ps, np);
                    assert(sk[ln + c.cell_num] == s[ln + c.cell_num].key);
                    assert(s[ln + c.cell_num] == ps[r].cells[c.cell_num as int]);
                    assert(sk[ln + c.cell_num] < sk[i]);
                    assert(false);
                }
            }
        }
    }
}

/// Whether the leaf that would receive `key` is full.
pub open spec fn insert_target_full(ps: Seq<PageV>, np: int, key: i32) -> bool {
    np > 0 && ps[target_leaf(ps, np, key)].cells.len() == CELLS_PER_PAGE
}

/// A key stored in a live leaf shows up in the scan.
proof fn lemma_leaf_cell_in_scan(ps: Seq<PageV>, np: int, t: int, i: int)
    requires
        crate::pager::pages_wf(ps, np),
        np > 0,
        np == 1 ==> t == 0,
        np > 1 ==> t == spec_left_num(ps) || t == spec_right_num(ps),
        0 <= i < ps[t].cells.len(),
    ensures
        scan_keys(ps, np).contains(ps[t].cells[i].key),
{
    let s = scan_cells(ps, np);
    let sk = scan_keys(ps, np);
    if np == 1 {
        assert(s[i] == ps[0].cells[i]);
        assert(sk[i] == s[i].key);
    } else {
        let l = spec_left_num(ps);
        let ln = ps[l].cells.len() as int;
        if t == l {
            assert(s[i] == ps[t].cells[i]);
            assert(sk[i] == s[i].key);
        } else {
            assert(s[ln + i] == ps[t].cells[i]);
            assert(sk[ln + i] == s[ln + i].key);
        }
    }
}

impl Cursor {
    /// A cursor at the first row of the table; already past the end
    /// when the table is empty.
    pub fn table_start(table: &Table) -> (r: Result<Cursor, DbError>)
        requires
            table.wf(),
        ensures
            r matches Ok(c) && cursor_ok(c@, table@.pages, table@.num_pages) && cursor_pos(
                c@,
                table@.pages,
                table@.num_pages,
            ) == 0,
    {
        let np = table.num_pages();
        if np == 0 {
            return Ok(Cursor { page_num: 0, cell_num: 0, end_of_table: true });
        }
        let pc = match table.find_key_pos(i32::MIN) {
            Ok(pc) => pc,
            Err(e) => {
                proof {
                    assert(false);
                }
                return Err(e);
            },
        };
        let (page_num, cell_num) = pc;
        proof {
            if cell_num > 0 {
                assert(table@.pages[page_num as int].cells[0].key < i32::MIN);
                assert(false);
            }
        }
        let leaf = table.page_at(page_num as usize);
        let end = leaf.num_cells() == 0;
        proof {
            let ps = table@.pages;
            if np == TABLE_MAX_PAGES as u64 {
                assert(page_num == spec_left_num(ps));
                assert(ps[spec_left_num(ps)].cells.len() > 0);
            }
        }
        Ok(Cursor { page_num, cell_num: 0, end_of_table: end })
    }

    /// A cursor at the position where `key` lives or belongs,
    /// already marked ended so that it is not advanced.
    pub fn table_find(table: &Table, key: i32) -> (r: Result<Cursor, DbError>)
        requires
            table.wf(),
        ensures
            r matches Ok(c) && located_at(c@, table@.pages, table@.num_pages, key)
                && c@.end_of_table,
    {
        let np = table.num_pages();
        if np == 0 {
            return Ok(Cursor { page_num: 0, cell_num: 0, end_of_table: true });
        }
        let pc = match table.find_key_pos(key) {
            Ok(pc) => pc,
            Err(e) => {
                proof {
                    assert(false);
                }
                return Err(e);
            },
        };
        let (page_num, cell_num) = pc;
        Ok(Cursor { page_num, cell_num, end_of_table: true })
    }

    /// Whether the cursor is past the last row.
    pub fn end_of_table(&self) -> (r: bool)
        ensures
            r == self@.end_of_table,
    {
        self.end_of_table
    }

    /// The serialized row under the cursor.
    pub fn cursor_value(&self, table: &Table) -> (r: Result<Vec<u8>, DbError>)
        requires
            table.wf(),
            cursor_ok(self@, table@.pages, table@.num_pages),
            !self@.end_of_table,
        ensures
            r matches Ok(v) && v@ == scan_values(table@.pages, table@.num_pages)[cursor_pos(
                self@,
                table@.pages,
                table@.num_pages,
            )],
    {
        let page = table.page_at(self.page_num as usize);
        let v = page.cell_value(self.cell_num);
        proof {
            let ps = table@.pages;
            let np = table@.num_pages;
            let k = cursor_pos(self@, ps, np);
            assert(scan_values(ps, np)[k] == scan_cells(ps, np)[k].value);
            if np != 1 {
                let ln = ps[spec_left_num(ps)].cells.len() as int;
                if self@.page_num == spec_left_num(ps) {
                    assert(scan_cells(ps, np)[k] == ps[spec_left_num(ps)].cells[k]);
                } else {
                    assert(scan_cells(ps, np)[k] == ps[spec_right_num(ps)].cells[k - ln]);
                }
            }
        }
        Ok(v)
    }

    /// Moves the cursor one row forward, following the sibling link
    /// at the end of a leaf and raising the end flag after the last
    /// row.
    pub fn advance_cursor(&mut self, table: &Table) -> (r: Result<(), DbError>)
        requires
            table.wf(),
            cursor_ok(old(self)@, table@.pages, table@.num_pages),
        ensures
            r is Ok,
            cursor_ok(final(self)@, table@.pages, table@.num_pages),
            old(self)@.end_of_table ==> final(self)@ == old(self)@,
            !old(self)@.end_of_table ==> cursor_pos(final(self)@, table@.pages, table@.num_pages)
                == cursor_pos(old(self)@, table@.pages, table@.num_pages) + 1,
    {
        if self.end_of_table {
            return Ok(());
        }
        proof {
            crate::consts::lemma_const_values();
            let ps = table@.pages;
            let np = table@.num_pages;
            if np == 1 {
                assert(self@.cell_num < ps[0].cells.len() <= CELLS_PER_PAGE);
            } else {
                assert(ps[self@.page_num as int].cells.len() <= CELLS_PER_PAGE);
            }
        }
        self.cell_num = self.cell_num + 1;
        let page = table.page_at(self.page_num as usize);
        if self.cell_num < page.num_cells() {
            return Ok(());
        }
        let next = page.next_sibling_num();
        if next == 0 {
            self.end_of_table = true;
            proof {
                let ps = table@.pages;
                let np = table@.num_pages;
                if np != 1 {
                    // A leaf without a sibling is the right leaf, so
                    // the cursor just passed the last cell.
                    assert(self@.page_num == spec_right_num(ps));
                }
            }
            return Ok(());
        }
        proof {
            let ps = table@.pages;
            let np = table@.num_pages;
            assert(np == TABLE_MAX_PAGES);
            assert(old(self)@.page_num == spec_left_num(ps));
            assert(next == spec_right_num(ps));
            assert(ps[spec_right_num(ps)].cells.len() > 0);
        }
        self.page_num = next;
        self.cell_num = 0;
        Ok(())
    }

    /// Inserts the row at the located position, failing on a
    /// duplicate key without changing the table.
    fn add_row(&mut self, table: &mut Table, key: i32, data: &Vec<u8>) -> (r: Result<(), DbError>)
        requires
            old(table).wf(),
            old(table)@.num_pages > 0,
            data@.len() == ROW_SIZE,
            key == spec_i32_from_be(data@.take(KEY_SIZE as int)),
            located_at(old(self)@, old(table)@.pages, old(table)@.num_pages, key),
            old(table)@.pages[target_leaf(old(table)@.pages, old(table)@.num_pages, key)].cells.len()
                < CELLS_PER_PAGE,
        ensures
            ({
                let ps = old(table)@.pages;
                let np = old(table)@.num_pages;
                let s = scan_cells(ps, np);
                let present = scan_keys(ps, np).contains(key);
                &&& (present ==> r == Err::<(), DbError>(DbError::DuplicateKey) && final(table)@
                    == old(table)@)
                &&& (!present ==> r is Ok && final(table).wf() && final(table)@.num_pages == np
                    && scan_cells(final(table)@.pages, final(table)@.num_pages) == s.insert(
                    spec_insert_pos(s, key),
                    (CellV { key: key, value: data@ }),
                ))
            }),
    {
        proof {
            crate::consts::lemma_const_values();
        }
        let ghost ps = old(table)@.pages;
        let ghost np = old(table)@.num_pages;
        let ghost t = target_leaf(ps, np, key);
        let ghost leaf = ps[t];
        let ghost c = old(self)@.cell_num as int;
        let ghost s = scan_cells(ps, np);
        let page = table.page_at(self.page_num as usize);
        let nc = page.num_cells();
        proof {
            lemma_located_present(old(self)@, ps, np, key);
        }
        if self.cell_num < nc && page.get_key_at(self.cell_num) == key {
            proof {
                assert(leaf.keys()[c] == leaf.cells[c].key);
                assert(scan_keys(ps, np).contains(key));
            }
            return Err(DbError::DuplicateKey);
        }
        proof {
            if self.cell_num < nc {
                assert(leaf.keys()[c] == leaf.cells[c].key);
            }
            assert(!scan_keys(ps, np).contains(key));
            // With the key absent, every cell from the cursor on is
            // strictly above it.
            assert forall|i: int| c <= i < leaf.cells.len() implies (#[trigger] leaf.cells[i]).key
                > key by {
                if leaf.cells[i].key == key {
                    lemma_leaf_cell_in_scan(ps, np, t, i);
                }
            }
        }
        table.add_data(self.page_num as usize, self.cell_num, data);
        proof {
            let x = (CellV { key: key, value: data@ });
            let newleaf = (PageV { cells: leaf.cells.insert(c, x), ..leaf });
            let ps2 = table@.pages;
            assert(ps2 == ps.update(t, newleaf));
            assert(ps2[t] == newleaf);
            // The new leaf's keys still ascend strictly.
            assert forall|i: int, j: int|
                0 <= i < j < newleaf.keys().len() implies newleaf.keys()[i] < newleaf.keys()[j] by {
                assert(newleaf.keys()[i] == newleaf.cells[i].key);
                assert(newleaf.keys()[j] == newleaf.cells[j].key);
                if i < c {
                    assert(newleaf.cells[i] == leaf.cells[i]);
                    assert(leaf.keys()[i] == leaf.cells[i].key);
                }
                if j < c {
                    assert(newleaf.cells[j] == leaf.cells[j]);
                    assert(leaf.keys()[j] == leaf.cells[j].key);
                }
                if i > c {
                    assert(newleaf.cells[i] == leaf.cells[i - 1]);
                    assert(leaf.keys()[i - 1] == leaf.cells[i - 1].key);
                }
                if j > c {
                    assert(newleaf.cells[j] == leaf.cells[j - 1]);
                    assert(leaf.keys()[j - 1] == leaf.cells[j - 1].key);
                }
                if i < c && j > c {
                    assert(leaf.keys()[i] < key || leaf.cells[i].key < key);
                    assert(leaf.cells[j - 1].key > key);
                }
            }
            if np == 1 {
                assert(crate::pager::root_leaf_wf(ps2));
                assert(crate::pager::pages_wf(ps2, np));
                assert(scan_cells(ps2, np) == newleaf.cells);
                lemma_insert_pos_char(s, key, c);
                assert(scan_cells(ps2, np) == s.insert(spec_insert_pos(s, key), x));
            } else {
                let l = spec_left_num(ps);
                let rr = spec_right_num(ps);
                let ln = ps[l].cells.len() as int;
                let sep = ps[0].icells[0].key;
                assert(ps2[0] == ps[0]);
                assert forall|i: int| 0 <= i < ln implies (#[trigger] ps[l].cells[i]).key
                    <= sep by {
                    assert(ps[l].keys()[i] == ps[l].cells[i].key);
                    assert(ps[l].keys()[ln - 1] == ps[l].cells[ln - 1].key);
                    if i < ln - 1 {
                        assert(ps[l].keys()[i] < ps[l].keys()[ln - 1]);
                    }
                }
                if t == l {
                    assert(key <= sep);
                    // Inserting at the very end would mean every left
                    // key is below `key`, contradicting the routing.
                    assert(c < ln) by {
                        if c == ln {
                            assert(leaf.cells[ln - 1].key < key);
                            assert(leaf.cells[ln - 1].key == sep);
                        }
                    }
                    assert(newleaf.cells.last() == leaf.cells[ln - 1]);
                    assert(ps2[rr] == ps[rr]);
                    assert(crate::pager::split_wf(ps2));
                    assert(crate::pager::pages_wf(ps2, np));
                    assert(scan_cells(ps2, np) == newleaf.cells + ps[rr].cells);
                    lemma_insert_left(leaf.cells, ps[rr].cells, c, x);
                    assert forall|i: int| c <= i < s.len() implies (#[trigger] s[i]).key >= key by {
                        if i < ln {
                            assert(s[i] == leaf.cells[i]);
                        } else {
                            assert(s[i] == ps[rr].cells[i - ln]);
                            assert(ps[rr].cells[i - ln].key > sep);
                        }
                    }
                    assert forall|i: int| 0 <= i < c implies (#[trigger] s[i]).key < key by {
                        assert(s[i] == leaf.cells[i]);
                    }
                    lemma_insert_pos_char(s, key, c);
                    assert(scan_cells(ps2, np) == s.insert(spec_insert_pos(s, key), x));
                } else {
                    assert(key > sep);
                    assert(ps2[l] == ps[l]);
                    assert forall|j: int|
                        0 <= j < newleaf.cells.len() implies (#[trigger] newleaf.cells[j]).key
                        > sep by {
                        if j < c {
                            assert(newleaf.cells[j] == leaf.cells[j]);
                        } else if j == c {
                        } else {
                            assert(newleaf.cells[j] == leaf.cells[j - 1]);
                        }
                    }
                    assert(crate::pager::split_wf(ps2));
                    assert(crate::pager::pages_wf(ps2, np));
                    assert(scan_cells(ps2, np) == ps[l].cells + newleaf.cells);
                    lemma_insert_right(ps[l].cells, leaf.cells, c, x);
                    assert forall|i: int| ln + c <= i < s.len() implies (#[trigger] s[i]).key
                        >= key by {
                        assert(s[i] == leaf.cells[i - ln]);
                    }
                    assert forall|i: int| 0 <= i < ln + c implies (#[trigger] s[i]).key < key by {
                        if i < ln {
                            assert(s[i] == ps[l].cells[i]);
                            assert(ps[l].cells[i].key <= sep);
                        } else {
                            assert(s[i] == leaf.cells[i - ln]);
                        }
                    }
                    lemma_insert_pos_char(s, key, ln + c);
                    assert(scan_cells(ps2, np) == s.insert(spec_insert_pos(s, key), x));
                }
            }
        }
        Ok(())
    }

    /// Inserts one serialized row: splits the target leaf first when
    /// it is full, re-locates, then places the row at its sorted
    /// position. Fails with `OutOfCapacity` when no page is left for
    /// the split and with `DuplicateKey` when the id is taken.
    pub fn serialize_row_add(&mut self, table: &mut Table, data: Vec<u8>) -> (r: Result<
        (),
        DbError,
    >)
        requires
            old(table).wf(),
            data@.len() == ROW_SIZE,
            located_at(
                old(self)@,
                old(table)@.pages,
                old(table)@.num_pages,
                spec_i32_from_be(data@.take(KEY_SIZE as int)),
            ),
        ensures
            ({
                let ps = old(table)@.pages;
                let np = old(table)@.num_pages;
                let key = spec_i32_from_be(data@.take(KEY_SIZE as int));
                let s = scan_cells(ps, np);
                let full = insert_target_full(ps, np, key);
                let present = scan_keys(ps, np).contains(key);
                &&& (np == TABLE_MAX_PAGES && full ==> r == Err::<(), DbError>(
                    DbError::OutOfCapacity,
                ) && final(table)@ == old(table)@)
                &&& (!(np == TABLE_MAX_PAGES && full) && present ==> r == Err::<(), DbError>(
                    DbError::DuplicateKey,
                ) && final(table).wf() && scan_cells(final(table)@.pages, final(table)@.num_pages)
                    == s && final(table)@.num_pages == (if full {
                    TABLE_MAX_PAGES as int
                } else {
                    np
                }))
                &&& (!(np == TABLE_MAX_PAGES && full) && !present ==> r is Ok && final(table).wf()
                    && scan_cells(final(table)@.pages, final(table)@.num_pages) == s.insert(
                    spec_insert_pos(s, key),
                    (CellV { key: key, value: data@ }),
                ) && final(table)@.num_pages == (if full {
                    TABLE_MAX_PAGES as int
                } else if np == 0 {
                    1
                } else {
                    np
                }))
            }),
    {
        proof {
            crate::consts::lemma_const_values();
        }
        let ghost ps = old(table)@.pages;
        let ghost np = old(table)@.num_pages;
        let ghost s = scan_cells(ps, np);
        let key = deserialize_key(&data);
        let page_cells: u64;
        {
            let page = match table.get_page(self.page_num as usize) {
                Ok(p) => p,
                Err(e) => {
                    proof {
                        assert(false);
                    }
                    return Err(e);
                },
            };
            page_cells = page.num_cells();
        }
        proof {
            if np == 0 {
                assert(scan_cells(table@.pages, table@.num_pages) =~= s);
                assert(!scan_keys(ps, np).contains(key));
            }
            assert(located_at(self@, table@.pages, table@.num_pages, key));
        }
        if page_cells >= CELLS_PER_PAGE as u64 {
            proof {
                assert(np > 0);
                assert(insert_target_full(ps, np, key));
            }
            match table.split_page(self.page_num) {
                Ok(_) => {},
                Err(e) => {
                    return Err(e);
                },
            }
            let pc = match table.find_key_pos(key) {
                Ok(pc) => pc,
                Err(e) => {
                    proof {
                        assert(false);
                    }
                    return Err(e);
                },
            };
            self.page_num = pc.0;
            self.cell_num = pc.1;
            proof {
                // After the split both leaves are strictly smaller
                // than a full page, since each holds at least one of
                // the split page's cells.
                let ps2 = table@.pages;
                let l = spec_left_num(ps2);
                let rr = spec_right_num(ps2);
                assert(scan_cells(ps2, 3) == s);
                assert(ps2[l].cells.len() + ps2[rr].cells.len() == s.len());
                assert(s.len() == CELLS_PER_PAGE);
                assert(located_at(self@, table@.pages, table@.num_pages, key));
                assert(scan_keys(ps2, 3) =~= scan_keys(ps, np));
            }
        }
        self.add_row(table, key, &data)
    }
}

} // verus!
