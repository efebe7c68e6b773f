//! The pager: the bounded slot array of pages, page allocation, and
//! the split-and-promote step that grows the one-level tree.
//!
//! The pager's well-formedness `pages_wf` is the tree invariant of
//! the whole engine: either no page exists yet, or page 0 is a sorted
//! root leaf, or page 0 is an internal root with one separator over
//! two sorted non-root leaves chained left-to-right. `scan_cells` is
//! the key-ordered content of the table that the cursor walks.

use vstd::prelude::*;

use crate::consts::{PAGE_SIZE, TABLE_MAX_PAGES};
use crate::error::DbError;
use crate::page::{
    spec_empty_page, spec_new_leaf, spec_page_bytes, spec_parse_page, CellV, Page, PageV,
};
use crate::codec::{copy_range, push_bytes};

verus! {

/// The mathematical value of a pager: the three page slots and the
/// live page count.
#[verifier::ext_equal]
pub struct PagerV {
    pub pages: Seq<PageV>,
    pub num_pages: int,
    pub db_pages: int,
}

/// Page 0 is a sorted root leaf with no sibling.
pub open spec fn root_leaf_wf(ps: Seq<PageV>) -> bool {
    &&& ps[0].is_leaf
    &&& ps[0].is_root
    &&& ps[0].next == 0
    &&& ps[0].keys_sorted()
}

/// After the first split: page 0 is an internal root with one
/// separator; its two children are sorted non-root leaves, the left
/// one chained to the right one, and the separator is the left
/// leaf's largest key, strictly below every right-leaf key.
pub open spec fn split_wf(ps: Seq<PageV>) -> bool {
    let root = ps[0];
    let l = root.icells[0].left as int;
    let r = root.right as int;
    let sep = root.icells[0].key;
    &&& !root.is_leaf
    &&& root.is_root
    &&& root.icells.len() == 1
    &&& ((l == 1 && r == 2) || (l == 2 && r == 1))
    &&& ps[l].is_leaf
    &&& !ps[l].is_root
    &&& ps[l].keys_sorted()
    &&& ps[r].is_leaf
    &&& !ps[r].is_root
    &&& ps[r].keys_sorted()
    &&& ps[l].next == root.right
    &&& ps[r].next == 0
    &&& ps[l].cells.len() > 0
    &&& ps[r].cells.len() > 0
    &&& ps[l].cells.last().key == sep
    &&& forall|j: int| 0 <= j < ps[r].cells.len() ==> (#[trigger] ps[r].cells[j]).key > sep
}

/// The tree invariant of the engine.
pub open spec fn pages_wf(ps: Seq<PageV>, np: int) -> bool {
    &&& ps.len() == TABLE_MAX_PAGES
    &&& 0 <= np <= TABLE_MAX_PAGES
    &&& np != 2
    &&& forall|n: int| np <= n < ps.len() ==> !(#[trigger] ps[n]).present
    &&& forall|n: int| 0 <= n < np ==> (#[trigger] ps[n]).present && ps[n].wf()
    &&& (np == 1 ==> root_leaf_wf(ps))
    &&& (np == TABLE_MAX_PAGES ==> split_wf(ps))
}

/// The left child's page number, once the root is internal.
pub open spec fn spec_left_num(ps: Seq<PageV>) -> int {
    ps[0].icells[0].left as int
}

/// The right child's page number, once the root is internal.
pub open spec fn spec_right_num(ps: Seq<PageV>) -> int {
    ps[0].right as int
}

/// Every cell of the table, in key order: the single root leaf, or
/// the left leaf followed by the right leaf.
pub open spec fn scan_cells(ps: Seq<PageV>, np: int) -> Seq<CellV> {
    if np <= 0 {
        Seq::empty()
    } else if np == 1 {
        ps[0].cells
    } else {
        ps[spec_left_num(ps)].cells + ps[spec_right_num(ps)].cells
    }
}

/// The stored keys in scan order.
pub open spec fn scan_keys(ps: Seq<PageV>, np: int) -> Seq<i32> {
    scan_cells(ps, np).map_values(|c: CellV| c.key)
}

/// The stored rows in scan order.
pub open spec fn scan_values(ps: Seq<PageV>, np: int) -> Seq<Seq<u8>> {
    scan_cells(ps, np).map_values(|c: CellV| c.value)
}

/// The byte image a clean close writes: the pages in page-number
/// order.
pub open spec fn spec_close_image(ps: Seq<PageV>, np: int) -> Seq<u8>
    decreases np,
{
    if np <= 0 {
        Seq::empty()
    } else {
        spec_close_image(ps, np - 1) + spec_page_bytes(ps[np - 1])
    }
}

/// Page `n` of a file image.
pub open spec fn spec_chunk(bytes: Seq<u8>, n: int) -> Seq<u8> {
    bytes.subrange(n * PAGE_SIZE, (n + 1) * PAGE_SIZE)
}

/// Slot `n` of the pager built from a file image.
pub open spec fn spec_decoded_page(bytes: Seq<u8>, n: int, nd: int) -> PageV {
    if n < nd {
        spec_parse_page(spec_chunk(bytes, n))->Some_0
    } else {
        spec_empty_page()
    }
}

/// What opening a file image gives: the decoded pager, or the exact
/// error. The tree-shape check on top of this is the table's.
pub open spec fn spec_open_pager(bytes: Seq<u8>) -> Result<PagerV, DbError> {
    if bytes.len() as int % (PAGE_SIZE as int) != 0 {
        Err(DbError::CorruptFile)
    } else {
        let nd = bytes.len() as int / (PAGE_SIZE as int);
        if nd > TABLE_MAX_PAGES {
            Err(DbError::OutOfCapacity)
        } else if exists|n: int|
            0 <= n < nd && spec_parse_page(#[trigger] spec_chunk(bytes, n)) is None {
            Err(DbError::CorruptFile)
        } else {
            Ok(
                PagerV {
                    pages: Seq::new(
                        TABLE_MAX_PAGES as nat,
                        |n: int| spec_decoded_page(bytes, n, nd),
                    ),
                    num_pages: nd,
                    db_pages: nd,
                },
            )
        }
    }
}

/// The slot array, the live page count, and the count of pages that
/// were already in the file at open.
pub struct Pager {
    pages: Vec<Page>,
    num_pages: u64,
    db_pages: u64,
}

impl View for Pager {
    type V = PagerV;

    closed spec fn view(&self) -> PagerV {
        PagerV {
            pages: self.pages@.map_values(|p: Page| p@),
            num_pages: self.num_pages as int,
            db_pages: self.db_pages as int,
        }
    }
}

impl Pager {
    /// The tree invariant, as it applies to this pager.
    pub open spec fn wf(self) -> bool {
        pages_wf(self@.pages, self@.num_pages)
    }

    /// Opens a pager from the database file's bytes: the length must
    /// be whole pages, at most `TABLE_MAX_PAGES` of them, and each
    /// one must decode.
    #[verifier::loop_isolation(false)]
    pub fn new(file_bytes: Vec<u8>) -> (r: Result<Pager, DbError>)
        ensures
            match spec_open_pager(file_bytes@) {
                Ok(v) => r matches Ok(p) && p@ == v,
                Err(e) => r == Err::<Pager, DbError>(e),
            },
    {
        proof {
            crate::consts::lemma_const_values();
        }
        let len: usize = file_bytes.len();
        if len % PAGE_SIZE != 0 {
            return Err(DbError::CorruptFile);
        }
        let nd: usize = len / PAGE_SIZE;
        if nd > TABLE_MAX_PAGES {
            return Err(DbError::OutOfCapacity);
        }
        let mut pages: Vec<Page> = Vec::new();
        let mut n: usize = 0;
        while n < nd
            invariant
                n <= nd,
                pages@.len() == n,
                forall|j: int| 0 <= j < n ==> spec_parse_page(spec_chunk(file_bytes@, j)) is Some,
                forall|j: int| 0 <= j < n ==> (#[trigger] pages@[j])@ == spec_decoded_page(
                    file_bytes@,
                    j,
                    nd as int,
                ),
            decreases nd - n,
        {
            proof {
                assert(n * PAGE_SIZE + PAGE_SIZE <= 3 * 2046) by (nonlinear_arith)
                    requires
                        0 <= n < 3,
                        PAGE_SIZE == 2046,
                ;
                assert((n + 1) * PAGE_SIZE == n * PAGE_SIZE + PAGE_SIZE) by (nonlinear_arith);
                assert(nd * PAGE_SIZE == len) by {
                    vstd::arithmetic::div_mod::lemma_fundamental_div_mod(
                        len as int,
                        PAGE_SIZE as int,
                    );
                }
                assert(n * PAGE_SIZE + PAGE_SIZE <= nd * PAGE_SIZE) by (nonlinear_arith)
                    requires
                        n < nd,
                        PAGE_SIZE > 0,
                ;
            }
            let chunk = copy_range(&file_bytes, n * PAGE_SIZE, n * PAGE_SIZE + PAGE_SIZE);
            proof {
                assert(chunk@ =~= spec_chunk(file_bytes@, n as int));
            }
            match Page::new(chunk) {
                Ok(p) => {
                    pages.push(p);
                },
                Err(e) => {
                    proof {
                        assert(spec_parse_page(spec_chunk(file_bytes@, n as int)) is None);
                    }
                    return Err(DbError::CorruptFile);
                },
            }
            n = n + 1;
        }
        while pages.len() < TABLE_MAX_PAGES
            invariant
                nd <= pages@.len() <= TABLE_MAX_PAGES,
                forall|j: int| 0 <= j < nd ==> (#[trigger] pages@[j])@ == spec_decoded_page(
                    file_bytes@,
                    j,
                    nd as int,
                ),
                forall|j: int| nd <= j < pages@.len() ==> (#[trigger] pages@[j])@
                    == spec_empty_page(),
            decreases TABLE_MAX_PAGES - pages.len(),
        {
            pages.push(Page::empty());
        }
        let r = Pager { pages, num_pages: nd as u64, db_pages: nd as u64 };
        proof {
            let v = spec_open_pager(file_bytes@)->Ok_0;
            assert(r@.pages =~= v.pages);
            assert(r@ =~= v);
        }
        Ok(r)
    }

    /// Read access to a loaded page.
    pub fn page_at(&self, page_num: usize) -> (r: &Page)
        requires
            page_num < self@.pages.len(),
        ensures
            r@ == self@.pages[page_num as int],
    {
        &self.pages[page_num]
    }

    /// The page at `page_num`, creating the empty root leaf on the
    /// first touch of an empty table.
    pub fn get_page(&mut self, page_num: usize) -> (r: Result<&Page, DbError>)
        requires
            old(self).wf(),
            page_num < old(self)@.num_pages || page_num == 0,
        ensures
            final(self).wf(),
            old(self)@.num_pages > 0 ==> final(self)@ == old(self)@ && (r matches Ok(p) && p@
                == old(self)@.pages[page_num as int]),
            old(self)@.num_pages == 0 ==> final(self)@ == (PagerV {
                pages: old(self)@.pages.update(0, spec_new_leaf(true)),
                num_pages: 1,
                ..old(self)@
            }) && (r matches Ok(p) && p@ == spec_new_leaf(true)),
            scan_cells(final(self)@.pages, final(self)@.num_pages) == scan_cells(
                old(self)@.pages,
                old(self)@.num_pages,
            ),
    {
        if self.num_pages == 0 {
            self.pages[0] = Page::new_leaf(true);
            self.num_pages = 1;
            proof {
                assert(self@.pages =~= old(self)@.pages.update(0, spec_new_leaf(true)));
                assert(self@ =~= (PagerV {
                    pages: old(self)@.pages.update(0, spec_new_leaf(true)),
                    num_pages: 1,
                    ..old(self)@
                }));
                assert(scan_cells(self@.pages, 1) =~= scan_cells(
                    old(self)@.pages,
                    old(self)@.num_pages,
                ));
            }
            Ok(&self.pages[0])
        } else {
            Ok(&self.pages[page_num])
        }
    }

    /// How many pages the opened file held.
    pub fn num_db_pages(&self) -> (r: u64)
        ensures
            r == self@.db_pages,
    {
        self.db_pages
    }

    /// How many pages are live.
    pub fn num_pages(&self) -> (r: u64)
        ensures
            r == self@.num_pages,
    {
        self.num_pages
    }

    /// Returns and reserves the next free page number.
    fn get_unused_page_num(&mut self) -> (r: u64)
        requires
            old(self)@.num_pages < TABLE_MAX_PAGES,
        ensures
            r == old(self)@.num_pages,
            final(self)@ == (PagerV { num_pages: old(self)@.num_pages + 1, ..old(self)@ }),
    {
        let old_num_pages = self.num_pages;
        self.num_pages = self.num_pages + 1;
        proof {
            assert(self@ =~= (PagerV { num_pages: old(self)@.num_pages + 1, ..old(self)@ }));
        }
        old_num_pages
    }

    /// The byte image of page `page_pos`, header freshly encoded.
    pub fn flush_page(&self, page_pos: usize) -> (r: Vec<u8>)
        requires
            self.wf(),
            page_pos < self@.num_pages,
        ensures
            r@ == spec_page_bytes(self@.pages[page_pos as int]),
            r@.len() == PAGE_SIZE,
    {
        self.pages[page_pos].flush()
    }

    /// The whole database image a clean close writes: every live
    /// page, in page-number order. Its length is exactly
    /// `num_pages * PAGE_SIZE`.
    pub fn close_db(&self) -> (r: Vec<u8>)
        requires
            self.wf(),
        ensures
            r@ == spec_close_image(self@.pages, self@.num_pages),
            r@.len() == self@.num_pages * PAGE_SIZE,
    {
        proof {
            crate::consts::lemma_const_values();
        }
        let mut r: Vec<u8> = Vec::new();
        let np64 = self.num_pages;
        let np: usize = np64 as usize;
        let mut n: usize = 0;
        while n < np
            invariant
                n <= np,
                self.wf(),
                np == self@.num_pages,
                PAGE_SIZE == 2046,
                r@ == spec_close_image(self@.pages, n as int),
                r@.len() == n * PAGE_SIZE,
            decreases np - n,
        {
            let page_bytes = self.flush_page(n);
            push_bytes(&mut r, &page_bytes);
            proof {
                assert((n + 1) * PAGE_SIZE == n * PAGE_SIZE + PAGE_SIZE) by (nonlinear_arith);
            }
            n = n + 1;
        }
        r
    }

    /// Inserts one serialized row into a leaf page at `cell_pos`,
    /// shifting later cells right.
    pub fn add_data(&mut self, page_num: usize, cell_pos: u64, data: &Vec<u8>)
        requires
            page_num < old(self)@.pages.len(),
            old(self)@.pages[page_num as int].wf(),
            old(self)@.pages[page_num as int].is_leaf,
            cell_pos <= old(self)@.pages[page_num as int].cells.len(),
            data@.len() == crate::consts::ROW_SIZE,
            old(self)@.pages[page_num as int].cells.len() < crate::consts::CELLS_PER_PAGE,
        ensures
            final(self)@ == (PagerV {
                pages: old(self)@.pages.update(
                    page_num as int,
                    (PageV {
                        cells: old(self)@.pages[page_num as int].cells.insert(
                            cell_pos as int,
                            (CellV {
                                key: crate::codec::spec_i32_from_be(
                                    data@.take(crate::consts::KEY_SIZE as int),
                                ),
                                value: data@,
                            }),
                        ),
                        ..old(self)@.pages[page_num as int]
                    }),
                ),
                ..old(self)@
            }),
            final(self)@.pages[page_num as int].wf(),
    {
        proof {
            assert(self@.pages == self.pages@.map_values(|p: Page| p@));
            assert(self.pages@.len() == self@.pages.len());
            assert(self.pages@[page_num as int]@ == self@.pages[page_num as int]);
        }
        self.pages[page_num].add_data(cell_pos, data);
        proof {
            let newpage = (PageV {
                cells: old(self)@.pages[page_num as int].cells.insert(
                    cell_pos as int,
                    (CellV {
                        key: crate::codec::spec_i32_from_be(
                            data@.take(crate::consts::KEY_SIZE as int),
                        ),
                        value: data@,
                    }),
                ),
                ..old(self)@.pages[page_num as int]
            });
            assert forall|n: int| 0 <= n < self@.pages.len() implies #[trigger] self@.pages[n]
                == old(self)@.pages.update(page_num as int, newpage)[n] by {
                assert(self@.pages[n] == self.pages@[n]@);
            }
            assert(self@.pages =~= old(self)@.pages.update(page_num as int, newpage));
            assert(self@ =~= (PagerV {
                pages: old(self)@.pages.update(page_num as int, newpage),
                ..old(self)@
            }));
        }
    }

    /// Splits the full root leaf and promotes: the upper half moves
    /// to page 1, the lower half is copied to page 2, and page 0
    /// becomes the internal root over the two. The table's cells are
    /// unchanged; only the shape grows.
    pub fn split_page(&mut self, page_num: usize) -> (r: Result<(), DbError>)
        requires
            old(self).wf(),
            page_num < old(self)@.num_pages,
            old(self)@.pages[page_num as int].num_cells() >= 2,
        ensures
            old(self)@.num_pages == TABLE_MAX_PAGES ==> r == Err::<(), DbError>(
                DbError::OutOfCapacity,
            ) && final(self)@ == old(self)@,
            old(self)@.num_pages < TABLE_MAX_PAGES ==> {
                &&& r is Ok
                &&& final(self).wf()
                &&& final(self)@.num_pages == TABLE_MAX_PAGES
                &&& scan_cells(final(self)@.pages, final(self)@.num_pages) == scan_cells(
                    old(self)@.pages,
                    old(self)@.num_pages,
                )
                &&& final(self)@.db_pages == old(self)@.db_pages
            },
    {
        if self.num_pages >= TABLE_MAX_PAGES as u64 {
            return Err(DbError::OutOfCapacity);
        }
        // With fewer than three live pages the tree is a lone root
        // leaf, so the page being split is the root.
        proof {
            assert(old(self)@.num_pages == 1);
            assert(page_num == 0);
            assert(self.pages@[0]@ == old(self)@.pages[0]);
        }
        let ghost old_root = old(self)@.pages[0];
        let ghost cv = old_root.cells;
        let ghost h = cv.len() as int / 2;
        let mut left_page = self.pages[page_num].clone_page();
        let new_sibling = match left_page.split() {
            Ok(s) => s,
            Err(e) => {
                proof {
                    assert(false);
                }
                return Err(e);
            },
        };
        let next_page_num = self.get_unused_page_num();
        let left_num = self.get_unused_page_num();
        left_page.set_non_root();
        left_page.set_next_sibling_num(next_page_num);
        let new_root = Page::new_root(left_num, next_page_num, &left_page);
        let ghost left_v = left_page@;
        let ghost sib_v = new_sibling@;
        let ghost root_v = new_root@;
        proof {
            assert(self@.pages == self.pages@.map_values(|p: Page| p@));
            assert(self.pages@.len() == TABLE_MAX_PAGES);
        }
        self.pages[next_page_num as usize] = new_sibling;
        proof {
            assert(self.pages@.len() == TABLE_MAX_PAGES);
        }
        self.pages[left_num as usize] = left_page;
        proof {
            assert(self.pages@.len() == TABLE_MAX_PAGES);
        }
        self.pages[page_num] = new_root;
        proof {
            let ps = self@.pages;
            assert forall|n: int| 0 <= n < TABLE_MAX_PAGES implies #[trigger] ps[n] == (if n == 0 {
                root_v
            } else if n == 1 {
                sib_v
            } else if n == 2 {
                left_v
            } else {
                old(self)@.pages[n]
            }) by {
                assert(ps[n] == self.pages@[n]@);
            }
            assert(left_v.cells =~= cv.take(h));
            assert(sib_v.cells =~= cv.skip(h));
            assert(left_v.cells.last() == cv[h - 1]);
            assert(root_v.icells[0].key == cv[h - 1].key);
            assert forall|i: int, j: int|
                0 <= i < j < left_v.keys().len() implies left_v.keys()[i] < left_v.keys()[j] by {
                assert(left_v.keys()[i] == left_v.cells[i].key);
                assert(left_v.cells[i].key == cv[i].key);
                assert(left_v.cells[j].key == cv[j].key);
                assert(old_root.keys()[i] == cv[i].key);
                assert(old_root.keys()[j] == cv[j].key);
            }
            assert forall|i: int, j: int|
                0 <= i < j < sib_v.keys().len() implies sib_v.keys()[i] < sib_v.keys()[j] by {
                assert(sib_v.keys()[i] == sib_v.cells[i].key);
                assert(sib_v.cells[i].key == cv[h + i].key);
                assert(sib_v.cells[j].key == cv[h + j].key);
                assert(old_root.keys()[h + i] == cv[h + i].key);
                assert(old_root.keys()[h + j] == cv[h + j].key);
            }
            assert forall|j: int| 0 <= j < sib_v.cells.len() implies (#[trigger] sib_v.cells[j]).key
                > cv[h - 1].key by {
                assert(sib_v.cells[j].key == cv[h + j].key);
                assert(old_root.keys()[h + j] == cv[h + j].key);
                assert(old_root.keys()[h - 1] == cv[h - 1].key);
            }
            assert(split_wf(ps));
            assert(pages_wf(ps, 3));
            assert(scan_cells(ps, 3) =~= scan_cells(old(self)@.pages, 1));
        }
        Ok(())
    }
}

} // verus!
