//! The table: the public face of the engine.
//!
//! A table owns a pager and keeps `pages_wf`, the one-level tree
//! invariant, across every operation. Opening validates the file
//! image down to the tree shape; closing produces the exact byte
//! image of every live page, and reopening that image provably
//! restores the same table contents.

use vstd::prelude::*;

use crate::consts::{PAGE_SIZE, TABLE_MAX_PAGES};
use crate::error::DbError;
use crate::page::{lemma_page_round_trip, lemma_parse_wf, spec_page_bytes, spec_parse_page, Page, PageV};
use crate::pager::{
    pages_wf, root_leaf_wf, scan_cells, scan_keys, spec_chunk, spec_close_image, spec_left_num,
    spec_open_pager, spec_right_num, split_wf, Pager, PagerV,
};

verus! {

/// Keys at adjacent positions ascend, so keys at any two positions
/// ascend.
pub proof fn lemma_adjacent_sorted_pair(keys: Seq<i32>, i: int, j: int)
    requires
        forall|k: int| 0 <= k < keys.len() - 1 ==> #[trigger] keys[k] < keys[k + 1],
        0 <= i < j < keys.len(),
    ensures
        keys[i] < keys[j],
    decreases j - i,
{
    if j == i + 1 {
        assert(keys[i] < keys[i + 1]);
    } else {
        lemma_adjacent_sorted_pair(keys, i, j - 1);
        assert(keys[j - 1] < keys[j - 1 + 1]);
    }
}

/// Whether a page's keys ascend strictly, checked cell by cell.
fn keys_sorted_check(p: &Page) -> (r: bool)
    requires
        p@.present,
    ensures
        r == p@.keys_sorted(),
{
    let n = p.num_cells();
    if n <= 1 {
        return true;
    }
    let mut i: u64 = 1;
    while i < n
        invariant
            1 <= i <= n,
            n == p@.num_cells(),
            p@.present,
            p@.keys().len() == n,
            forall|k: int| 0 <= k < i - 1 ==> #[trigger] p@.keys()[k] < p@.keys()[k + 1],
        decreases n - i,
    {
        if p.get_key_at(i - 1) >= p.get_key_at(i) {
            return false;
        }
        i = i + 1;
    }
    proof {
        assert forall|a: int, b: int|
            0 <= a < b < p@.keys().len() implies p@.keys()[a] < p@.keys()[b] by {
            lemma_adjacent_sorted_pair(p@.keys(), a, b);
        }
    }
    true
}

/// Whether the loaded pages form a well-formed one-level tree.
fn check_structure(pager: &Pager) -> (r: bool)
    requires
        pager@.pages.len() == TABLE_MAX_PAGES,
        0 <= pager@.num_pages <= TABLE_MAX_PAGES,
        forall|n: int|
            0 <= n < pager@.num_pages ==> (#[trigger] pager@.pages[n]).present
                && pager@.pages[n].wf(),
        forall|n: int|
            pager@.num_pages <= n < pager@.pages.len() ==> !(#[trigger] pager@.pages[n]).present,
    ensures
        r == pages_wf(pager@.pages, pager@.num_pages),
{
    let np = pager.num_pages();
    if np == 0 {
        return true;
    }
    if np == 2 {
        return false;
    }
    if np == 1 {
        let p0 = pager.page_at(0);
        if !p0.is_leaf() {
            return false;
        }
        if !p0.is_root() {
            return false;
        }
        if p0.next_sibling_num() != 0 {
            return false;
        }
        return keys_sorted_check(p0);
    }
    // Three pages: an internal root over two leaves.
    let p0 = pager.page_at(0);
    if p0.is_leaf() {
        return false;
    }
    if !p0.is_root() {
        return false;
    }
    if p0.num_cells() != 1 {
        return false;
    }
    let l = p0.get_page_num(0);
    let r = p0.get_page_num(1);
    if !((l == 1 && r == 2) || (l == 2 && r == 1)) {
        return false;
    }
    let sep = p0.get_key_at(0);
    let pl = pager.page_at(l as usize);
    let pr = pager.page_at(r as usize);
    if !pl.is_leaf() || pl.is_root() || !pr.is_leaf() || pr.is_root() {
        return false;
    }
    if pl.next_sibling_num() != r || pr.next_sibling_num() != 0 {
        return false;
    }
    if pl.num_cells() == 0 || pr.num_cells() == 0 {
        return false;
    }
    if !keys_sorted_check(pl) || !keys_sorted_check(pr) {
        return false;
    }
    if pl.max_key() != sep {
        return false;
    }
    // The leaves ascend, so every right key exceeds the separator
    // exactly when the first one does.
    let first_right = pr.get_key_at(0);
    if first_right <= sep {
        proof {
            assert(pr@.cells[0].key == pr@.keys()[0]);
            assert(!split_wf(pager@.pages));
        }
        return false;
    }
    proof {
        let ps = pager@.pages;
        assert forall|j: int| 0 <= j < pr@.cells.len() implies (#[trigger] pr@.cells[j]).key
            > sep by {
            assert(pr@.keys()[j] == pr@.cells[j].key);
            if j > 0 {
                assert(pr@.keys()[0] < pr@.keys()[j]);
            }
        }
        assert(pl@.cells.last().key == pl@.keys().last());
        assert(split_wf(ps));
    }
    true
}

/// A table of rows keyed by id, stored as a one-level tree of pages.
pub struct Table {
    pager: Pager,
}

impl View for Table {
    type V = PagerV;

    closed spec fn view(&self) -> PagerV {
        self.pager@
    }
}

impl Table {
    /// The tree invariant, as it applies to this table.
    pub open spec fn wf(self) -> bool {
        pages_wf(self@.pages, self@.num_pages)
    }

    /// Opens a table from the database file's bytes. The bytes must
    /// be a whole number of pages that decode into a well-formed
    /// one-level tree; anything else is rejected with the matching
    /// error.
    pub fn new(file_bytes: Vec<u8>) -> (r: Result<Table, DbError>)
        ensures
            match spec_open_pager(file_bytes@) {
                Err(e) => r == Err::<Table, DbError>(e),
                Ok(v) => if pages_wf(v.pages, v.num_pages) {
                    r matches Ok(t) && t@ == v && t.wf()
                } else {
                    r == Err::<Table, DbError>(DbError::CorruptFile)
                },
            },
    {
        let pager = match Pager::new(file_bytes) {
            Ok(p) => p,
            Err(e) => {
                return Err(e);
            },
        };
        proof {
            let v = spec_open_pager(file_bytes@)->Ok_0;
            assert forall|n: int| 0 <= n < pager@.num_pages implies (#[trigger] pager@.pages[n]).present
                && pager@.pages[n].wf() by {
                assert(pager@.pages[n] == spec_parse_page(spec_chunk(file_bytes@, n))->Some_0);
                lemma_parse_wf(spec_chunk(file_bytes@, n));
            }
        }
        if check_structure(&pager) {
            Ok(Table { pager })
        } else {
            Err(DbError::CorruptFile)
        }
    }

    /// Read access to a loaded page.
    pub fn page_at(&self, page_num: usize) -> (r: &Page)
        requires
            page_num < self@.pages.len(),
        ensures
            r@ == self@.pages[page_num as int],
    {
        self.pager.page_at(page_num)
    }

    /// The page at `page_num`, creating the empty root leaf on the
    /// first touch of an empty table.
    pub fn get_page(&mut self, page_num: usize) -> (r: Result<&Page, DbError>)
        requires
            old(self).wf(),
            page_num < old(self)@.num_pages || page_num == 0,
        ensures
            final(self).wf(),
            old(self)@.num_pages > 0 ==> final(self)@ == old(self)@ && (r matches Ok(p) && p@
                == old(self)@.pages[page_num as int]),
            old(self)@.num_pages == 0 ==> final(self)@.num_pages == 1 && (r matches Ok(p) && p@
                == crate::page::spec_new_leaf(true)),
            scan_cells(final(self)@.pages, final(self)@.num_pages) == scan_cells(
                old(self)@.pages,
                old(self)@.num_pages,
            ),
    {
        self.pager.get_page(page_num)
    }

    /// The byte image a clean close writes, every live page in page
    /// order; its length is exactly `num_pages * PAGE_SIZE`.
    pub fn close_db(&self) -> (r: Vec<u8>)
        requires
            self.wf(),
        ensures
            r@ == spec_close_image(self@.pages, self@.num_pages),
            r@.len() == self@.num_pages * PAGE_SIZE,
    {
        self.pager.close_db()
    }

    /// How many pages are live.
    pub fn num_pages(&self) -> (r: u64)
        ensures
            r == self@.num_pages,
    {
        self.pager.num_pages()
    }

    /// Splits the full root leaf and promotes the root; the stored
    /// cells are unchanged.
    pub fn split_page(&mut self, page_num: u64) -> (r: Result<(), DbError>)
        requires
            old(self).wf(),
            page_num < old(self)@.num_pages,
            old(self)@.pages[page_num as int].num_cells() >= 2,
        ensures
            old(self)@.num_pages == TABLE_MAX_PAGES ==> r == Err::<(), DbError>(
                DbError::OutOfCapacity,
            ) && final(self)@ == old(self)@,
            old(self)@.num_pages < TABLE_MAX_PAGES ==> {
                &&& r is Ok
                &&& final(self).wf()
                &&& final(self)@.num_pages == TABLE_MAX_PAGES
                &&& scan_cells(final(self)@.pages, final(self)@.num_pages) == scan_cells(
                    old(self)@.pages,
                    old(self)@.num_pages,
                )
            },
    {
        self.pager.split_page(page_num as usize)
    }

    /// Inserts one serialized row into a leaf page at `cell_pos`,
    /// shifting later cells right.
    pub fn add_data(&mut self, page_num: usize, cell_pos: u64, data: &Vec<u8>)
        requires
            page_num < old(self)@.pages.len(),
            old(self)@.pages[page_num as int].wf(),
            old(self)@.pages[page_num as int].is_leaf,
            cell_pos <= old(self)@.pages[page_num as int].cells.len(),
            data@.len() == crate::consts::ROW_SIZE,
            old(self)@.pages[page_num as int].cells.len() < crate::consts::CELLS_PER_PAGE,
        ensures
            final(self)@ == (PagerV {
                pages: old(self)@.pages.update(
                    page_num as int,
                    (PageV {
                        cells: old(self)@.pages[page_num as int].cells.insert(
                            cell_pos as int,
                            (crate::page::CellV {
                                key: crate::codec::spec_i32_from_be(
                                    data@.take(crate::consts::KEY_SIZE as int),
                                ),
                                value: data@,
                            }),
                        ),
                        ..old(self)@.pages[page_num as int]
                    }),
                ),
                ..old(self)@
            }),
            final(self)@.pages[page_num as int].wf(),
    {
        self.pager.add_data(page_num, cell_pos, data)
    }

    /// The leaf a key lives in or would be inserted into, and the
    /// leftmost cell position whose key is at least `key`.
    pub fn find_key_pos(&self, key: i32) -> (r: Result<(u64, u64), DbError>)
        requires
            self.wf(),
            self@.num_pages > 0,
        ensures
            r matches Ok(pc) && {
                let leaf = self@.pages[pc.0 as int];
                &&& pc.0 == target_leaf(self@.pages, self@.num_pages, key)
                &&& leaf.is_leaf
                &&& pc.1 <= leaf.cells.len()
                &&& forall|i: int| 0 <= i < pc.1 ==> (#[trigger] leaf.cells[i]).key < key
                &&& forall|i: int|
                    pc.1 <= i < leaf.cells.len() ==> (#[trigger] leaf.cells[i]).key >= key
            },
    {
        let root = self.pager.page_at(0);
        if root.is_leaf() {
            let c = root.find_key_pos(key);
            proof {
                assert forall|i: int| 0 <= i < c implies (#[trigger] self@.pages[0].cells[i]).key
                    < key by {
                    assert(self@.pages[0].keys()[i] == self@.pages[0].cells[i].key);
                }
                assert forall|i: int|
                    c <= i < self@.pages[0].cells.len() implies (#[trigger] self@.pages[0].cells[i]).key
                    >= key by {
                    assert(self@.pages[0].keys()[i] == self@.pages[0].cells[i].key);
                }
            }
            Ok((0, c))
        } else {
            proof {
                assert(self@.num_pages == TABLE_MAX_PAGES);
                assert(self@.pages[0].keys().len() == 1);
                assert(self@.pages[0].keys()[0] == self@.pages[0].icells[0].key);
            }
            let i = root.find_key_pos(key);
            let child = root.get_page_num(i);
            let leaf = self.pager.page_at(child as usize);
            let c = leaf.find_key_pos(key);
            proof {
                let lv = self@.pages[child as int];
                assert forall|k: int| 0 <= k < c implies (#[trigger] lv.cells[k]).key < key by {
                    assert(lv.keys()[k] == lv.cells[k].key);
                }
                assert forall|k: int| c <= k < lv.cells.len() implies (#[trigger] lv.cells[k]).key
                    >= key by {
                    assert(lv.keys()[k] == lv.cells[k].key);
                }
            }
            Ok((child, c))
        }
    }
}

/// The page number of the leaf that owns `key`: the lone root leaf,
/// or the left child up to the separator and the right child past
/// it.
pub open spec fn target_leaf(ps: Seq<PageV>, np: int, key: i32) -> int {
    if np == 1 {
        0
    } else if key <= ps[0].icells[0].key {
        spec_left_num(ps)
    } else {
        spec_right_num(ps)
    }
}

/// Every key the table stores ascends strictly in scan order.
pub proof fn lemma_scan_keys_sorted(ps: Seq<PageV>, np: int)
    requires
        pages_wf(ps, np),
    ensures
        forall|i: int, j: int|
            0 <= i < j < scan_keys(ps, np).len() ==> scan_keys(ps, np)[i] < scan_keys(ps, np)[j],
{
    if np <= 0 {
    } else if np == 1 {
        assert forall|i: int, j: int|
            0 <= i < j < scan_keys(ps, np).len() implies scan_keys(ps, np)[i] < scan_keys(
            ps,
            np,
        )[j] by {
            assert(scan_keys(ps, np)[i] == ps[0].cells[i].key);
            assert(scan_keys(ps, np)[j] == ps[0].cells[j].key);
            assert(ps[0].keys()[i] == ps[0].cells[i].key);
            assert(ps[0].keys()[j] == ps[0].cells[j].key);
        }
    } else {
        let l = spec_left_num(ps);
        let r = spec_right_num(ps);
        let sep = ps[0].icells[0].key;
        let ln = ps[l].cells.len() as int;
        assert forall|i: int, j: int|
            0 <= i < j < scan_keys(ps, np).len() implies scan_keys(ps, np)[i] < scan_keys(
            ps,
            np,
        )[j] by {
            let sc = scan_cells(ps, np);
            assert(scan_keys(ps, np)[i] == sc[i].key);
            assert(scan_keys(ps, np)[j] == sc[j].key);
            if j < ln {
                assert(sc[i] == ps[l].cells[i]);
                assert(sc[j] == ps[l].cells[j]);
                assert(ps[l].keys()[i] == ps[l].cells[i].key);
                assert(ps[l].keys()[j] == ps[l].cells[j].key);
            } else if i >= ln {
                assert(sc[i] == ps[r].cells[i - ln]);
                assert(sc[j] == ps[r].cells[j - ln]);
                assert(ps[r].keys()[i - ln] == ps[r].cells[i - ln].key);
                assert(ps[r].keys()[j - ln] == ps[r].cells[j - ln].key);
            } else {
                // i in the left leaf, j in the right one: left keys
                // stay at or below the separator, right keys exceed
                // it.
                assert(sc[i] == ps[l].cells[i]);
                assert(sc[j] == ps[r].cells[j - ln]);
                assert(ps[l].keys()[i] == ps[l].cells[i].key);
                assert(ps[l].keys()[ln - 1] == ps[l].cells[ln - 1].key);
                if i < ln - 1 {
                    assert(ps[l].keys()[i] < ps[l].keys()[ln - 1]);
                }
                assert(ps[l].cells[i].key <= sep);
                assert(ps[r].cells[j - ln].key > sep);
            }
        }
    }
}

/// No key appears twice in a scan.
pub proof fn lemma_scan_keys_unique(ps: Seq<PageV>, np: int)
    requires
        pages_wf(ps, np),
    ensures
        forall|i: int, j: int|
            0 <= i < scan_keys(ps, np).len() && 0 <= j < scan_keys(ps, np).len() && i != j
                ==> scan_keys(ps, np)[i] != scan_keys(ps, np)[j],
{
    lemma_scan_keys_sorted(ps, np);
}

/// Every leaf page keeps its keys strictly ascending.
pub proof fn lemma_leaf_keys_ascending(ps: Seq<PageV>, np: int, n: int)
    requires
        pages_wf(ps, np),
        0 <= n < np,
        ps[n].is_leaf,
    ensures
        forall|i: int|
            0 <= i < ps[n].cells.len() - 1 ==> (#[trigger] ps[n].cells[i]).key < ps[n].cells[i
                + 1].key,
{
    assert forall|i: int|
        0 <= i < ps[n].cells.len() - 1 implies (#[trigger] ps[n].cells[i]).key < ps[n].cells[i
        + 1].key by {
        if np == 1 {
            assert(ps[0].keys()[i] == ps[0].cells[i].key);
            assert(ps[0].keys()[i + 1] == ps[0].cells[i + 1].key);
        } else {
            assert(n == spec_left_num(ps) || n == spec_right_num(ps));
            assert(ps[n].keys()[i] == ps[n].cells[i].key);
            assert(ps[n].keys()[i + 1] == ps[n].cells[i + 1].key);
        }
    }
}

/// A leaf with a sibling holds only keys below every key of that
/// sibling; in particular its largest key is below the sibling's
/// first.
pub proof fn lemma_sibling_order(ps: Seq<PageV>, np: int, n: int)
    requires
        pages_wf(ps, np),
        0 <= n < np,
        ps[n].is_leaf,
        ps[n].next != 0,
        ps[n].cells.len() > 0,
    ensures
        ps[n].next < np,
        ps[ps[n].next as int].cells.len() > 0,
        ps[n].cells.last().key < ps[ps[n].next as int].cells[0].key,
{
    let l = spec_left_num(ps);
    let r = spec_right_num(ps);
    assert(np == TABLE_MAX_PAGES);
    assert(n == l);
    assert(ps[l].keys().last() == ps[l].cells.last().key);
}

/// Exactly one live page is marked as root: page 0.
pub proof fn lemma_one_root(ps: Seq<PageV>, np: int)
    requires
        pages_wf(ps, np),
        np > 0,
    ensures
        ps[0].is_root,
        forall|n: int| 1 <= n < np ==> !(#[trigger] ps[n]).is_root,
{
    assert forall|n: int| 1 <= n < np implies !(#[trigger] ps[n]).is_root by {
        assert(np == TABLE_MAX_PAGES);
        assert(n == spec_left_num(ps) || n == spec_right_num(ps));
    }
}

/// Cells strictly ascending by key.
pub open spec fn cells_key_sorted(s: Seq<crate::page::CellV>) -> bool {
    forall|i: int, j: int| 0 <= i < j < s.len() ==> (#[trigger] s[i]).key < (#[trigger] s[j]).key
}

/// The scan's cells ascend strictly by key.
pub proof fn lemma_scan_cells_sorted(ps: Seq<PageV>, np: int)
    requires
        pages_wf(ps, np),
    ensures
        cells_key_sorted(scan_cells(ps, np)),
{
    lemma_scan_keys_sorted(ps, np);
    let s = scan_cells(ps, np);
    assert forall|i: int, j: int| 0 <= i < j < s.len() implies (#[trigger] s[i]).key < (
    #[trigger] s[j]).key by {
        assert(scan_keys(ps, np)[i] == s[i].key);
        assert(scan_keys(ps, np)[j] == s[j].key);
    }
}

/// Two scans that ascend strictly by key and hold the same cells
/// hold them in the same order: the scan is determined by what was
/// inserted, not by the order it was inserted in.
pub proof fn lemma_sorted_scan_determined(a: Seq<crate::page::CellV>, b: Seq<crate::page::CellV>)
    requires
        cells_key_sorted(a),
        cells_key_sorted(b),
        a.to_multiset() == b.to_multiset(),
    ensures
        a == b,
    decreases a.len(),
{
    broadcast use vstd::seq_lib::group_to_multiset_ensures;

    if a.len() == 0 {
        assert(b.len() == 0);
        assert(a =~= b);
    } else {
        let x = a.last();
        assert(a[a.len() - 1] == x);
        assert(a.contains(x));
        assert(b.to_multiset().count(x) > 0);
        assert(b.contains(x));
        assert(b.len() > 0);
        let i = choose|i: int| 0 <= i < b.len() && b[i] == x;
        if i < b.len() - 1 {
            let y = b.last();
            assert(b[b.len() - 1] == y);
            assert(b.contains(y));
            assert(a.to_multiset().count(y) > 0);
            assert(a.contains(y));
            let j = choose|j: int| 0 <= j < a.len() && a[j] == y;
            assert(x.key < y.key);
            if j < a.len() - 1 {
                assert(a[j].key < a[a.len() - 1].key);
            }
            assert(false);
        }
        assert(b.last() == x);
        assert(a.remove(a.len() - 1) =~= a.drop_last());
        assert(b.remove(b.len() - 1) =~= b.drop_last());
        assert(a.drop_last().to_multiset() == a.to_multiset().remove(x));
        assert(b.drop_last().to_multiset() == b.to_multiset().remove(x));
        assert(cells_key_sorted(a.drop_last()));
        assert(cells_key_sorted(b.drop_last()));
        lemma_sorted_scan_determined(a.drop_last(), b.drop_last());
        assert forall|ii: int| 0 <= ii < a.len() implies a[ii] == b[ii] by {
            if ii < a.len() - 1 {
                assert(a.drop_last()[ii] == a[ii]);
                assert(b.drop_last()[ii] == b[ii]);
            }
        }
        assert(a =~= b);
    }
}

/// A table never holds more rows than its two leaves can carry.
pub proof fn lemma_scan_capacity(ps: Seq<PageV>, np: int)
    requires
        pages_wf(ps, np),
    ensures
        scan_cells(ps, np).len() <= 2 * crate::consts::CELLS_PER_PAGE,
{
}

/// Closing a well-formed table and reopening the written image
/// yields a table with the same page count and the same scan, page
/// for page.
#[verifier::rlimit(100)]
pub proof fn lemma_close_reopen(ps: Seq<PageV>, np: int)
    requires
        pages_wf(ps, np),
    ensures
        spec_open_pager(spec_close_image(ps, np)) matches Ok(v) && {
            &&& pages_wf(v.pages, v.num_pages)
            &&& v.num_pages == np
            &&& forall|n: int| 0 <= n < np ==> v.pages[n] == ps[n]
            &&& scan_cells(v.pages, v.num_pages) == scan_cells(ps, np)
        },
{
    crate::consts::lemma_const_values();
    let bytes = spec_close_image(ps, np);
    lemma_close_image_len(ps, np);
    vstd::arithmetic::div_mod::lemma_fundamental_div_mod_converse(
        np * (PAGE_SIZE as int),
        PAGE_SIZE as int,
        np,
        0,
    );
    assert(bytes.len() as int % (PAGE_SIZE as int) == 0);
    assert(bytes.len() as int / (PAGE_SIZE as int) == np);
    assert forall|n: int| 0 <= n < np implies spec_chunk(bytes, n) == spec_page_bytes(
        #[trigger] ps[n],
    ) by {
        lemma_close_image_chunk(ps, np, n);
    }
    assert forall|n: int| 0 <= n < np implies spec_parse_page(#[trigger] spec_chunk(bytes, n))
        == Option::Some(ps[n]) by {
        lemma_page_round_trip(ps[n]);
    }
    let v = spec_open_pager(bytes)->Ok_0;
    assert forall|n: int| 0 <= n < np implies v.pages[n] == ps[n] by {}
    assert(scan_cells(v.pages, v.num_pages) == scan_cells(ps, np)) by {
        if np == 1 {
        } else if np == TABLE_MAX_PAGES {
            assert(v.pages[0] == ps[0]);
            assert(v.pages[spec_left_num(ps)] == ps[spec_left_num(ps)]);
            assert(v.pages[spec_right_num(ps)] == ps[spec_right_num(ps)]);
        }
    }
    assert(pages_wf(v.pages, v.num_pages)) by {
        assert forall|n: int| np <= n < v.pages.len() implies !(#[trigger] v.pages[n]).present by {}
        assert forall|n: int| 0 <= n < np implies (#[trigger] v.pages[n]).present && v.pages[n].wf()
        by {}
        if np == 1 {
            assert(root_leaf_wf(v.pages));
        }
        if np == TABLE_MAX_PAGES {
            assert(v.pages[0] == ps[0]);
            assert(v.pages[spec_left_num(ps)] == ps[spec_left_num(ps)]);
            assert(v.pages[spec_right_num(ps)] == ps[spec_right_num(ps)]);
            assert(split_wf(v.pages));
        }
    }
}

/// The close image holds exactly `num_pages` pages.
pub proof fn lemma_close_image_len(ps: Seq<PageV>, np: int)
    requires
        np >= 0,
    ensures
        spec_close_image(ps, np).len() == np * PAGE_SIZE,
    decreases np,
{
    if np > 0 {
        lemma_close_image_len(ps, np - 1);
        assert((np - 1) * PAGE_SIZE + PAGE_SIZE == np * PAGE_SIZE) by (nonlinear_arith);
    }
}

/// Page `n` of the close image is exactly that page's byte image.
proof fn lemma_close_image_chunk(ps: Seq<PageV>, np: int, n: int)
    requires
        0 <= n < np,
    ensures
        spec_chunk(spec_close_image(ps, np), n) == spec_page_bytes(ps[n]),
    decreases np,
{
    lemma_close_image_len(ps, np);
    lemma_close_image_len(ps, np - 1);
    assert((np - 1) * PAGE_SIZE + PAGE_SIZE == np * PAGE_SIZE) by (nonlinear_arith);
    if n == np - 1 {
        assert(n * PAGE_SIZE + PAGE_SIZE <= np * PAGE_SIZE);
        assert(spec_chunk(spec_close_image(ps, np), n) =~= spec_page_bytes(ps[n]));
    } else {
        lemma_close_image_chunk(ps, np - 1, n);
        assert((n + 1) * PAGE_SIZE <= (np - 1) * PAGE_SIZE) by (nonlinear_arith)
            requires
                n + 1 <= np - 1,
                PAGE_SIZE >= 0,
        ;
        assert(n * PAGE_SIZE >= 0) by (nonlinear_arith)
            requires
                n >= 0,
                PAGE_SIZE >= 0,
        ;
        assert(spec_chunk(spec_close_image(ps, np), n) =~= spec_chunk(
            spec_close_image(ps, np - 1),
            n,
        ));
    }
}

} // verus!
