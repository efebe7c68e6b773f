//! Pages: typed views over the fixed-size on-disk page format.
//!
//! A page is either a leaf, holding `{key, row}` cells in strictly
//! ascending key order plus a sibling pointer, or an internal node,
//! holding `{left child, separator key}` cells plus a right child.
//! The engine keeps pages decoded; `flush` produces the exact
//! `PAGE_SIZE` byte image and `new` parses one back, and the two are
//! proved inverse on well-formed pages.

use vstd::prelude::*;

use crate::codec::{
    copy_range, i32_to_be, push_bytes, push_zeros, read_i32_be, read_u64_be, spec_i32_be,
    spec_i32_from_be, spec_u64_be, spec_u64_from_be, u64_to_be,
};
use crate::consts::{
    CELLS_PER_PAGE, CELL_SIZE, INTERNAL_CELLS_PER_PAGE, INTERNAL_NODE_CELL_SIZE,
    INTERNAL_NODE_CELL_START_OFFSET, INTERNAL_NODE_KEY_OFFSET,
    INTERNAL_NODE_RIGHT_PAGE_NUM_OFFSET, IS_ROOT_OFFSET, IS_ROOT_TYPE, KEY_SIZE, LEAF_NODE_TYPE,
    NEXT_LEAF_NODE_OFFSET, NONLEAF_NODE_TYPE, NON_ROOT_TYPE, NUM_ENTRIES_OFFSET, PAGE_HEADER_SIZE,
    PAGE_SIZE, PAGE_TYPE_OFFSET, ROW_SIZE, VALUE_OFFSET,
};
use crate::error::DbError;
use vstd::arithmetic::div_mod::{lemma_div_is_ordered, lemma_fundamental_div_mod_converse};

verus! {

/// The two page kinds.
#[derive(Clone, Copy, Debug, PartialEq, Eq, Structural)]
pub enum NodeType {
    Leaf,
    Internal,
}

/// One leaf cell: a key and the serialized row it indexes. The first
/// `KEY_SIZE` bytes of the row are the key's big-endian image.
pub struct LeafCell {
    pub key: i32,
    pub value: Vec<u8>,
}

/// The mathematical value of a leaf cell.
#[verifier::ext_equal]
pub struct CellV {
    pub key: i32,
    pub value: Seq<u8>,
}

impl View for LeafCell {
    type V = CellV;

    open spec fn view(&self) -> CellV {
        CellV { key: self.key, value: self.value@ }
    }
}

impl CellV {
    /// The row is exactly `ROW_SIZE` bytes and starts with the key.
    pub open spec fn wf(self) -> bool {
        &&& self.value.len() == ROW_SIZE
        &&& self.value.take(KEY_SIZE as int) == spec_i32_be(self.key)
    }
}

/// One internal cell: a child page number and the largest key stored
/// under that child.
#[derive(Clone, Copy, Debug)]
pub struct InternalCell {
    pub left: u64,
    pub key: i32,
}

/// The mathematical value of a page.
#[verifier::ext_equal]
pub struct PageV {
    pub present: bool,
    pub is_root: bool,
    pub is_leaf: bool,
    /// Leaf only: the page number of the next leaf in key order, 0
    /// for none.
    pub next: u64,
    /// Internal only: the rightmost child page number.
    pub right: u64,
    pub cells: Seq<CellV>,
    pub icells: Seq<InternalCell>,
}

impl PageV {
    /// Shape constraints every live page keeps: the fields of the
    /// other kind are blank and the cells fit one page body.
    pub open spec fn wf(self) -> bool {
        &&& self.present
        &&& (self.is_leaf ==> {
            &&& self.icells.len() == 0
            &&& self.right == 0
            &&& self.cells.len() <= CELLS_PER_PAGE
            &&& forall|i: int| 0 <= i < self.cells.len() ==> (#[trigger] self.cells[i]).wf()
        })
        &&& (!self.is_leaf ==> {
            &&& self.cells.len() == 0
            &&& self.next == 0
            &&& self.icells.len() <= INTERNAL_CELLS_PER_PAGE
        })
    }

    /// How many cells the page stores, whatever its kind.
    pub open spec fn num_cells(self) -> nat {
        if self.is_leaf {
            self.cells.len()
        } else {
            self.icells.len()
        }
    }

    /// The stored keys, in cell order.
    pub open spec fn keys(self) -> Seq<i32> {
        if self.is_leaf {
            self.cells.map_values(|c: CellV| c.key)
        } else {
            self.icells.map_values(|c: InternalCell| c.key)
        }
    }

    /// Keys strictly ascending.
    pub open spec fn keys_sorted(self) -> bool {
        forall|i: int, j: int| 0 <= i < j < self.keys().len() ==> self.keys()[i] < self.keys()[j]
    }

    /// The rows stored in a leaf, in cell order.
    pub open spec fn values(self) -> Seq<Seq<u8>> {
        self.cells.map_values(|c: CellV| c.value)
    }
}

/// A page slot that holds no page yet.
pub open spec fn spec_empty_page() -> PageV {
    PageV {
        present: false,
        is_root: false,
        is_leaf: true,
        next: 0,
        right: 0,
        cells: Seq::empty(),
        icells: Seq::empty(),
    }
}

/// A fresh leaf with no cells.
pub open spec fn spec_new_leaf(is_root: bool) -> PageV {
    PageV {
        present: true,
        is_root,
        is_leaf: true,
        next: 0,
        right: 0,
        cells: Seq::empty(),
        icells: Seq::empty(),
    }
}

/// One page of the table, kept decoded in memory.
pub struct Page {
    present: bool,
    is_root: bool,
    node_type: NodeType,
    next_sibling: u64,
    right_page: u64,
    cells: Vec<LeafCell>,
    icells: Vec<InternalCell>,
}

impl View for Page {
    type V = PageV;

    closed spec fn view(&self) -> PageV {
        PageV {
            present: self.present,
            is_root: self.is_root,
            is_leaf: self.node_type is Leaf,
            next: self.next_sibling,
            right: self.right_page,
            cells: self.cells@.map_values(|c: LeafCell| c@),
            icells: self.icells@,
        }
    }
}

impl Page {
    /// A placeholder for a slot whose page was never touched.
    pub fn empty() -> (r: Page)
        ensures
            r@ == spec_empty_page(),
    {
        let r = Page {
            present: false,
            is_root: false,
            node_type: NodeType::Leaf,
            next_sibling: 0,
            right_page: 0,
            cells: Vec::new(),
            icells: Vec::new(),
        };
        proof {
            assert(r@ =~= spec_empty_page());
        }
        r
    }

    /// A fresh empty leaf.
    pub fn new_leaf(is_root: bool) -> (r: Page)
        ensures
            r@ == spec_new_leaf(is_root),
            r@.wf(),
    {
        let r = Page {
            present: true,
            is_root,
            node_type: NodeType::Leaf,
            next_sibling: 0,
            right_page: 0,
            cells: Vec::new(),
            icells: Vec::new(),
        };
        proof {
            assert(r@ =~= spec_new_leaf(is_root));
        }
        r
    }

    /// The internal root made on the first split: one separator cell
    /// carrying the left child and its largest key, and the new
    /// sibling as the right child.
    pub fn new_root(left_page_num: u64, right_page_num: u64, left: &Page) -> (r: Page)
        requires
            left@.present,
            left@.num_cells() > 0,
        ensures
            r@ == (PageV {
                present: true,
                is_root: true,
                is_leaf: false,
                next: 0,
                right: right_page_num,
                cells: Seq::empty(),
                icells: seq![
                    InternalCell { left: left_page_num, key: left@.keys().last() },
                ],
            }),
            r@.wf(),
    {
        let max_key = left.max_key();
        let mut icells: Vec<InternalCell> = Vec::new();
        icells.push(InternalCell { left: left_page_num, key: max_key });
        let r = Page {
            present: true,
            is_root: true,
            node_type: NodeType::Internal,
            next_sibling: 0,
            right_page: right_page_num,
            cells: Vec::new(),
            icells,
        };
        proof {
            assert(r@.icells =~= seq![
                InternalCell { left: left_page_num, key: left@.keys().last() },
            ]);
            assert(r@.cells =~= Seq::<CellV>::empty());
        }
        r
    }

    /// Clears the root mark, used when the old root's contents move
    /// to a fresh child page.
    pub fn set_non_root(&mut self)
        ensures
            final(self)@ == (PageV { is_root: false, ..old(self)@ }),
    {
        self.is_root = false;
    }

    /// The largest stored key.
    pub fn max_key(&self) -> (r: i32)
        requires
            self@.present,
            self@.num_cells() > 0,
        ensures
            r == self@.keys().last(),
    {
        self.get_key_at(self.num_cells() - 1)
    }

    pub fn is_root(&self) -> (r: bool)
        ensures
            r == self@.is_root,
    {
        self.is_root
    }

    pub fn is_leaf(&self) -> (r: bool)
        ensures
            r == self@.is_leaf,
    {
        match self.node_type {
            NodeType::Leaf => true,
            NodeType::Internal => false,
        }
    }

    pub fn num_cells(&self) -> (r: u64)
        ensures
            r == self@.num_cells(),
    {
        match self.node_type {
            NodeType::Leaf => self.cells.len() as u64,
            NodeType::Internal => self.icells.len() as u64,
        }
    }

    /// Whether the slot holds no page.
    pub fn is_empty(&self) -> (r: bool)
        ensures
            r == !self@.present,
    {
        !self.present
    }

    /// The size of the page's byte image: a never-touched slot has
    /// none.
    pub fn page_size(&self) -> (r: usize)
        ensures
            r == if self@.present {
                PAGE_SIZE as int
            } else {
                0
            },
    {
        if self.present {
            PAGE_SIZE
        } else {
            0
        }
    }

    /// The key stored at `key_pos`.
    pub fn get_key_at(&self, key_pos: u64) -> (r: i32)
        requires
            key_pos < self@.num_cells(),
        ensures
            r == self@.keys()[key_pos as int],
    {
        match self.node_type {
            NodeType::Leaf => {
                let nn: usize = self.cells.len();
                self.cells[key_pos as usize].key
            },
            NodeType::Internal => {
                let nn: usize = self.icells.len();
                self.icells[key_pos as usize].key
            },
        }
    }

    /// Inserts a cell at `cell_pos`, shifting later cells right. For
    /// a leaf the bytes are a whole row, whose first `KEY_SIZE` bytes
    /// are the key; for an internal node they are a
    /// `{left child, separator}` cell.
    pub fn add_data(&mut self, cell_pos: u64, data: &Vec<u8>)
        requires
            old(self)@.wf(),
            cell_pos <= old(self)@.num_cells(),
            old(self)@.is_leaf ==> data@.len() == ROW_SIZE && old(self)@.cells.len()
                < CELLS_PER_PAGE,
            !old(self)@.is_leaf ==> data@.len() == INTERNAL_NODE_CELL_SIZE && old(
                self,
            )@.icells.len() < INTERNAL_CELLS_PER_PAGE,
        ensures
            old(self)@.is_leaf ==> final(self)@ == (PageV {
                cells: old(self)@.cells.insert(
                    cell_pos as int,
                    CellV {
                        key: spec_i32_from_be(data@.take(KEY_SIZE as int)),
                        value: data@,
                    },
                ),
                ..old(self)@
            }),
            !old(self)@.is_leaf ==> final(self)@ == (PageV {
                icells: old(self)@.icells.insert(
                    cell_pos as int,
                    InternalCell {
                        left: spec_u64_from_be(data@.take(8)),
                        key: spec_i32_from_be(data@.subrange(8, 12)),
                    },
                ),
                ..old(self)@
            }),
            final(self)@.wf(),
    {
        match self.node_type {
            NodeType::Leaf => {
                let key = read_i32_be(data, 0);
                let value = copy_range(data, 0, ROW_SIZE);
                proof {
                    assert(data@.subrange(0, ROW_SIZE as int) =~= data@);
                    assert(data@.subrange(0, KEY_SIZE as int) =~= data@.take(KEY_SIZE as int));
                }
                let cell = LeafCell { key, value };
                let nn: usize = self.cells.len();
                self.cells.insert(cell_pos as usize, cell);
                proof {
                    let cv = CellV {
                        key: spec_i32_from_be(data@.take(KEY_SIZE as int)),
                        value: data@,
                    };
                    assert(self.cells@.map_values(|c: LeafCell| c@) =~= old(
                        self,
                    )@.cells.insert(cell_pos as int, cv));
                    crate::codec::lemma_i32_be_parse_round_trip(data@.take(KEY_SIZE as int));
                    assert(cv.value.take(KEY_SIZE as int) =~= data@.take(KEY_SIZE as int));
                    assert(forall|i: int|
                        0 <= i < self@.cells.len() ==> (#[trigger] self@.cells[i]).wf());
                }
            },
            NodeType::Internal => {
                let left = read_u64_be(data, 0);
                let key = read_i32_be(data, 8);
                proof {
                    assert(data@.subrange(0, 8) =~= data@.take(8));
                }
                let nn: usize = self.icells.len();
                self.icells.insert(cell_pos as usize, InternalCell { left, key });
                proof {
                    assert(self.icells@ =~= old(self)@.icells.insert(
                        cell_pos as int,
                        InternalCell {
                            left: spec_u64_from_be(data@.take(8)),
                            key: spec_i32_from_be(data@.subrange(8, 12)),
                        },
                    ));
                }
            },
        }
    }

    /// Overwrites the cell at `cell_pos` in place.
    pub fn update_data(&mut self, cell_pos: u64, data: &Vec<u8>)
        requires
            old(self)@.wf(),
            cell_pos < old(self)@.num_cells(),
            old(self)@.is_leaf ==> data@.len() == ROW_SIZE,
            !old(self)@.is_leaf ==> data@.len() == INTERNAL_NODE_CELL_SIZE,
        ensures
            old(self)@.is_leaf ==> final(self)@ == (PageV {
                cells: old(self)@.cells.update(
                    cell_pos as int,
                    CellV {
                        key: spec_i32_from_be(data@.take(KEY_SIZE as int)),
                        value: data@,
                    },
                ),
                ..old(self)@
            }),
            !old(self)@.is_leaf ==> final(self)@ == (PageV {
                icells: old(self)@.icells.update(
                    cell_pos as int,
                    InternalCell {
                        left: spec_u64_from_be(data@.take(8)),
                        key: spec_i32_from_be(data@.subrange(8, 12)),
                    },
                ),
                ..old(self)@
            }),
            final(self)@.wf(),
    {
        match self.node_type {
            NodeType::Leaf => {
                let key = read_i32_be(data, 0);
                let value = copy_range(data, 0, ROW_SIZE);
                proof {
                    assert(data@.subrange(0, ROW_SIZE as int) =~= data@);
                    assert(data@.subrange(0, KEY_SIZE as int) =~= data@.take(KEY_SIZE as int));
                }
                let nn: usize = self.cells.len();
                self.cells[cell_pos as usize] = LeafCell { key, value };
                proof {
                    let cv = CellV {
                        key: spec_i32_from_be(data@.take(KEY_SIZE as int)),
                        value: data@,
                    };
                    assert(self.cells@.map_values(|c: LeafCell| c@) =~= old(
                        self,
                    )@.cells.update(cell_pos as int, cv));
                    crate::codec::lemma_i32_be_parse_round_trip(data@.take(KEY_SIZE as int));
                    assert(cv.value.take(KEY_SIZE as int) =~= data@.take(KEY_SIZE as int));
                    assert(forall|i: int|
                        0 <= i < self@.cells.len() ==> (#[trigger] self@.cells[i]).wf());
                }
            },
            NodeType::Internal => {
                let left = read_u64_be(data, 0);
                let key = read_i32_be(data, 8);
                proof {
                    assert(data@.subrange(0, 8) =~= data@.take(8));
                }
                let nn: usize = self.icells.len();
                self.icells[cell_pos as usize] = InternalCell { left, key };
                proof {
                    assert(self.icells@ =~= old(self)@.icells.update(
                        cell_pos as int,
                        InternalCell {
                            left: spec_u64_from_be(data@.take(8)),
                            key: spec_i32_from_be(data@.subrange(8, 12)),
                        },
                    ));
                }
            },
        }
    }

    /// Splits a full leaf: the upper half of the cells moves to a
    /// fresh non-root leaf that inherits this page's sibling pointer.
    /// The caller rewires this page's own sibling pointer. Internal
    /// pages cannot be split by the one-level engine.
    pub fn split(&mut self) -> (r: Result<Page, DbError>)
        requires
            old(self)@.wf(),
        ensures
            old(self)@.is_leaf ==> (r matches Ok(sib) && {
                let n = old(self)@.cells.len() as int;
                &&& final(self)@ == (PageV { cells: old(self)@.cells.take(n / 2), ..old(self)@ })
                &&& sib@ == (PageV {
                    present: true,
                    is_root: false,
                    is_leaf: true,
                    next: old(self)@.next,
                    right: 0,
                    cells: old(self)@.cells.skip(n / 2),
                    icells: Seq::empty(),
                })
                &&& sib@.wf()
                &&& final(self)@.wf()
            }),
            !old(self)@.is_leaf ==> r == Err::<Page, DbError>(DbError::Unsupported) && final(self)@
                == old(self)@,
    {
        match self.node_type {
            NodeType::Internal => Err(DbError::Unsupported),
            NodeType::Leaf => {
                let ghost cv = old(self)@.cells;
                let n: usize = self.cells.len();
                let half: usize = n / 2;
                let mut tmp: Vec<LeafCell> = Vec::new();
                while self.cells.len() > half
                    invariant
                        half <= self.cells.len() <= n,
                        n == cv.len(),
                        half == n as int / 2,
                        self.cells@.map_values(|c: LeafCell| c@) =~= cv.take(
                            self.cells@.len() as int,
                        ),
                        tmp@.len() == n - self.cells@.len(),
                        forall|j: int|
                            0 <= j < tmp@.len() ==> (#[trigger] tmp@[j])@ == cv[n - 1 - j],
                        self.present == old(self).present,
                        self.is_root == old(self).is_root,
                        self.node_type == old(self).node_type,
                        self.next_sibling == old(self).next_sibling,
                        self.right_page == old(self).right_page,
                        self.icells@ == old(self).icells@,
                    decreases self.cells.len(),
                {
                    let ghost before = self.cells@.map_values(|c: LeafCell| c@);
                    let c = self.cells.pop().unwrap();
                    proof {
                        assert(self.cells@.map_values(|c: LeafCell| c@) =~= before.drop_last());
                        assert(c@ == before.last());
                    }
                    tmp.push(c);
                }
                let mut upper: Vec<LeafCell> = Vec::new();
                let m: usize = tmp.len();
                while tmp.len() > 0
                    invariant
                        m == n - half,
                        n == cv.len(),
                        half == n as int / 2,
                        tmp@.len() + upper@.len() == m,
                        forall|j: int|
                            0 <= j < tmp@.len() ==> (#[trigger] tmp@[j])@ == cv[n - 1 - j],
                        forall|j: int|
                            0 <= j < upper@.len() ==> (#[trigger] upper@[j])@ == cv[half + j],
                    decreases tmp.len(),
                {
                    let c = tmp.pop().unwrap();
                    proof {
                        assert(c@ == cv[n - 1 - (tmp@.len() as int)]);
                        assert(n - 1 - (tmp@.len() as int) == half + upper@.len() as int);
                    }
                    upper.push(c);
                }
                let sibling = Page {
                    present: true,
                    is_root: false,
                    node_type: NodeType::Leaf,
                    next_sibling: self.next_sibling,
                    right_page: 0,
                    cells: upper,
                    icells: Vec::new(),
                };
                proof {
                    assert(self@ =~= (PageV { cells: cv.take(n as int / 2), ..old(self)@ }));
                    assert(sibling@.cells =~= cv.skip(n as int / 2));
                    assert(sibling@ =~= (PageV {
                        present: true,
                        is_root: false,
                        is_leaf: true,
                        next: old(self)@.next,
                        right: 0,
                        cells: cv.skip(n as int / 2),
                        icells: Seq::empty(),
                    }));
                }
                Ok(sibling)
            },
        }
    }

    /// The leftmost position whose key is at least `key`, or
    /// `num_cells` when every key is smaller: both the position to
    /// read an existing key and the position to insert a new one.
    pub fn find_key_pos(&self, key: i32) -> (r: u64)
        requires
            self@.present,
            self@.keys_sorted(),
        ensures
            r <= self@.num_cells(),
            forall|i: int| 0 <= i < r ==> self@.keys()[i] < key,
            forall|i: int| r <= i < self@.num_cells() ==> self@.keys()[i] >= key,
    {
        let n: u64 = self.num_cells();
        let mut lo: u64 = 0;
        let mut hi: u64 = n;
        while lo < hi
            invariant
                0 <= lo <= hi <= n,
                n == self@.num_cells(),
                self@.keys_sorted(),
                self@.keys().len() == n,
                forall|i: int| 0 <= i < lo ==> self@.keys()[i] < key,
                forall|i: int| hi <= i < n ==> self@.keys()[i] >= key,
            decreases hi - lo,
        {
            let mid: u64 = lo + (hi - lo) / 2;
            let mid_key = self.get_key_at(mid);
            if mid_key < key {
                lo = mid + 1;
            } else {
                hi = mid;
            }
        }
        lo
    }

    /// The page's current byte image. The typed page is the system
    /// of record, so the image is computed on demand; it equals what
    /// `flush` hands the pager.
    pub fn get_data(&self) -> (r: Vec<u8>)
        requires
            self@.wf(),
        ensures
            r@ == spec_page_bytes(self@),
            r@.len() == PAGE_SIZE,
    {
        self.flush()
    }

    /// A copy of the serialized row stored at `pos` in a leaf.
    pub fn cell_value(&self, pos: u64) -> (r: Vec<u8>)
        requires
            self@.is_leaf,
            pos < self@.cells.len(),
        ensures
            r@ == self@.cells[pos as int].value,
    {
        let nn: usize = self.cells.len();
        let c = &self.cells[pos as usize];
        let len: usize = c.value.len();
        let r = copy_range(&c.value, 0, len);
        proof {
            assert(c.value@.subrange(0, c.value@.len() as int) =~= c.value@);
        }
        r
    }

    /// The byte image of the internal cell at `key_pos`.
    pub fn get_cell(&self, key_pos: u64) -> (r: Vec<u8>)
        requires
            !self@.is_leaf,
            key_pos < self@.num_cells(),
        ensures
            r@ == spec_u64_be(self@.icells[key_pos as int].left) + spec_i32_be(
                self@.icells[key_pos as int].key,
            ),
            r@.len() == INTERNAL_NODE_CELL_SIZE,
    {
        let nn: usize = self.icells.len();
        let cell = self.icells[key_pos as usize];
        let mut r = u64_to_be(cell.left);
        let k = i32_to_be(cell.key);
        push_bytes(&mut r, &k);
        r
    }

    /// The child to descend into from separator position `cell_pos`:
    /// the cell's left child, or the page's right child at the far
    /// end.
    pub fn get_page_num(&self, cell_pos: u64) -> (r: u64)
        requires
            !self@.is_leaf,
            cell_pos <= self@.num_cells(),
        ensures
            cell_pos < self@.num_cells() ==> r == self@.icells[cell_pos as int].left,
            cell_pos == self@.num_cells() ==> r == self@.right,
    {
        let n = self.num_cells();
        if cell_pos == n {
            self.right_page
        } else {
            let nn: usize = self.icells.len();
            self.icells[cell_pos as usize].left
        }
    }

    /// The next leaf in key order; 0 means none.
    pub fn next_sibling_num(&self) -> (r: u64)
        requires
            self@.is_leaf,
        ensures
            r == self@.next,
    {
        self.next_sibling
    }

    pub fn set_next_sibling_num(&mut self, v: u64)
        requires
            old(self)@.is_leaf,
        ensures
            final(self)@ == (PageV { next: v, ..old(self)@ }),
    {
        self.next_sibling = v;
    }

    /// Repoints the rightmost child of an internal page.
    pub fn update_right_page_num(&mut self, right_page_num: u64)
        requires
            !old(self)@.is_leaf,
        ensures
            final(self)@ == (PageV { right: right_page_num, ..old(self)@ }),
    {
        self.right_page = right_page_num;
    }
}

/// The page-kind header byte.
pub open spec fn spec_type_byte(is_leaf: bool) -> u8 {
    if is_leaf {
        LEAF_NODE_TYPE
    } else {
        NONLEAF_NODE_TYPE
    }
}

/// The root-mark header byte.
pub open spec fn spec_root_byte(is_root: bool) -> u8 {
    if is_root {
        IS_ROOT_TYPE
    } else {
        NON_ROOT_TYPE
    }
}

/// Byte `i` of a page's on-disk image.
pub open spec fn spec_page_byte(p: PageV, i: int) -> u8
    recommends
        0 <= i < PAGE_SIZE,
        p.wf(),
{
    if i == PAGE_TYPE_OFFSET {
        spec_type_byte(p.is_leaf)
    } else if i == IS_ROOT_OFFSET {
        spec_root_byte(p.is_root)
    } else if NUM_ENTRIES_OFFSET <= i < NEXT_LEAF_NODE_OFFSET {
        spec_u64_be(p.num_cells() as u64)[i - NUM_ENTRIES_OFFSET]
    } else if NEXT_LEAF_NODE_OFFSET <= i < PAGE_HEADER_SIZE {
        spec_u64_be(p.next)[i - NEXT_LEAF_NODE_OFFSET]
    } else if p.is_leaf {
        let c = (i - PAGE_HEADER_SIZE) / (CELL_SIZE as int);
        let o = (i - PAGE_HEADER_SIZE) % (CELL_SIZE as int);
        if c < p.cells.len() {
            if o < KEY_SIZE {
                spec_i32_be(p.cells[c].key)[o]
            } else {
                p.cells[c].value[o - KEY_SIZE]
            }
        } else {
            0u8
        }
    } else if INTERNAL_NODE_RIGHT_PAGE_NUM_OFFSET <= i < INTERNAL_NODE_CELL_START_OFFSET {
        spec_u64_be(p.right)[i - INTERNAL_NODE_RIGHT_PAGE_NUM_OFFSET]
    } else {
        let c = (i - INTERNAL_NODE_CELL_START_OFFSET) / (INTERNAL_NODE_CELL_SIZE as int);
        let o = (i - INTERNAL_NODE_CELL_START_OFFSET) % (INTERNAL_NODE_CELL_SIZE as int);
        if c < p.icells.len() {
            if o < INTERNAL_NODE_KEY_OFFSET {
                spec_u64_be(p.icells[c].left)[o]
            } else {
                spec_i32_be(p.icells[c].key)[o - INTERNAL_NODE_KEY_OFFSET]
            }
        } else {
            0u8
        }
    }
}

/// The full `PAGE_SIZE` on-disk image of a page.
pub open spec fn spec_page_bytes(p: PageV) -> Seq<u8> {
    Seq::new(PAGE_SIZE as nat, |i: int| spec_page_byte(p, i))
}

/// Where leaf cell `c` starts in the image.
pub open spec fn spec_leaf_cell_off(c: int) -> int {
    PAGE_HEADER_SIZE + c * CELL_SIZE
}

/// Where internal cell `c` starts in the image.
pub open spec fn spec_icell_off(c: int) -> int {
    INTERNAL_NODE_CELL_START_OFFSET + c * INTERNAL_NODE_CELL_SIZE
}

/// Leaf cell `c` as stored in the image.
pub open spec fn spec_parse_leaf_cell(s: Seq<u8>, c: int) -> CellV {
    CellV {
        key: spec_i32_from_be(s.subrange(spec_leaf_cell_off(c), spec_leaf_cell_off(c) + KEY_SIZE)),
        value: s.subrange(spec_leaf_cell_off(c) + VALUE_OFFSET, spec_leaf_cell_off(c) + CELL_SIZE),
    }
}

/// In a stored leaf cell the row's first bytes repeat the key bytes.
pub open spec fn spec_leaf_link_ok(s: Seq<u8>, c: int) -> bool {
    s.subrange(
        spec_leaf_cell_off(c) + VALUE_OFFSET,
        spec_leaf_cell_off(c) + VALUE_OFFSET + KEY_SIZE,
    ) == s.subrange(spec_leaf_cell_off(c), spec_leaf_cell_off(c) + KEY_SIZE)
}

/// Internal cell `c` as stored in the image.
pub open spec fn spec_parse_icell(s: Seq<u8>, c: int) -> InternalCell {
    InternalCell {
        left: spec_u64_from_be(
            s.subrange(spec_icell_off(c), spec_icell_off(c) + INTERNAL_NODE_KEY_OFFSET),
        ),
        key: spec_i32_from_be(
            s.subrange(
                spec_icell_off(c) + INTERNAL_NODE_KEY_OFFSET,
                spec_icell_off(c) + INTERNAL_NODE_CELL_SIZE,
            ),
        ),
    }
}

/// What a `PAGE_SIZE` byte string decodes to, or nothing when it is
/// not a well-formed page image.
pub open spec fn spec_parse_page(s: Seq<u8>) -> Option<PageV> {
    if s.len() != PAGE_SIZE {
        Option::None
    } else {
        let tb = s[PAGE_TYPE_OFFSET as int];
        let rb = s[IS_ROOT_OFFSET as int];
        let n = spec_u64_from_be(
            s.subrange(NUM_ENTRIES_OFFSET as int, NEXT_LEAF_NODE_OFFSET as int),
        ) as int;
        if rb != IS_ROOT_TYPE && rb != NON_ROOT_TYPE {
            Option::None
        } else if tb == LEAF_NODE_TYPE {
            if n > CELLS_PER_PAGE {
                Option::None
            } else if !(forall|c: int| 0 <= c < n ==> spec_leaf_link_ok(s, c)) {
                Option::None
            } else {
                Option::Some(
                    PageV {
                        present: true,
                        is_root: rb == IS_ROOT_TYPE,
                        is_leaf: true,
                        next: spec_u64_from_be(
                            s.subrange(NEXT_LEAF_NODE_OFFSET as int, PAGE_HEADER_SIZE as int),
                        ),
                        right: 0,
                        cells: Seq::new(n as nat, |c: int| spec_parse_leaf_cell(s, c)),
                        icells: Seq::empty(),
                    },
                )
            }
        } else if tb == NONLEAF_NODE_TYPE {
            if n > INTERNAL_CELLS_PER_PAGE {
                Option::None
            } else {
                Option::Some(
                    PageV {
                        present: true,
                        is_root: rb == IS_ROOT_TYPE,
                        is_leaf: false,
                        next: 0,
                        right: spec_u64_from_be(
                            s.subrange(
                                INTERNAL_NODE_RIGHT_PAGE_NUM_OFFSET as int,
                                INTERNAL_NODE_CELL_START_OFFSET as int,
                            ),
                        ),
                        cells: Seq::empty(),
                        icells: Seq::new(n as nat, |c: int| spec_parse_icell(s, c)),
                    },
                )
            }
        } else {
            Option::None
        }
    }
}

/// The bytes of leaf cell `c` inside a leaf's image.
proof fn lemma_leaf_cell_bytes(p: PageV, c: int)
    requires
        p.wf(),
        p.is_leaf,
        0 <= c < p.cells.len(),
    ensures
        spec_page_bytes(p).subrange(spec_leaf_cell_off(c), spec_leaf_cell_off(c) + KEY_SIZE)
            == spec_i32_be(p.cells[c].key),
        spec_page_bytes(p).subrange(
            spec_leaf_cell_off(c) + VALUE_OFFSET,
            spec_leaf_cell_off(c) + CELL_SIZE,
        ) == p.cells[c].value,
        spec_leaf_link_ok(spec_page_bytes(p), c),
{
    crate::consts::lemma_const_values();
    let s = spec_page_bytes(p);
    let off = spec_leaf_cell_off(c);
    assert(c * CELL_SIZE + CELL_SIZE <= 28 * 72) by (nonlinear_arith)
        requires
            0 <= c < 28,
    ;
    assert(off + CELL_SIZE <= PAGE_SIZE);
    assert forall|j: int| off <= j < off + CELL_SIZE implies #[trigger] s[j] == (if j - off
        < KEY_SIZE {
        spec_i32_be(p.cells[c].key)[j - off]
    } else {
        p.cells[c].value[j - off - KEY_SIZE]
    }) by {
        vstd::arithmetic::div_mod::lemma_fundamental_div_mod_converse(
            c * CELL_SIZE + (j - off),
            CELL_SIZE as int,
            c,
            j - off,
        );
    }
    assert(s.subrange(off, off + KEY_SIZE) =~= spec_i32_be(p.cells[c].key));
    assert(s.subrange(off + VALUE_OFFSET, off + CELL_SIZE) =~= p.cells[c].value);
    assert forall|k: int| 0 <= k < KEY_SIZE implies #[trigger] s[off + VALUE_OFFSET + k] == s[off
        + k] by {
        assert(p.cells[c].value.take(KEY_SIZE as int)[k] == p.cells[c].value[k]);
        assert(s[off + VALUE_OFFSET + k] == p.cells[c].value[k]);
        assert(s[off + k] == spec_i32_be(p.cells[c].key)[k]);
    }
    assert(s.subrange(off + VALUE_OFFSET, off + VALUE_OFFSET + KEY_SIZE) =~= s.subrange(
        off,
        off + KEY_SIZE,
    ));
}

/// The bytes of internal cell `c` inside an internal page's image.
proof fn lemma_icell_bytes(p: PageV, c: int)
    requires
        p.wf(),
        !p.is_leaf,
        0 <= c < p.icells.len(),
    ensures
        spec_page_bytes(p).subrange(
            spec_icell_off(c),
            spec_icell_off(c) + INTERNAL_NODE_KEY_OFFSET,
        ) == spec_u64_be(p.icells[c].left),
        spec_page_bytes(p).subrange(
            spec_icell_off(c) + INTERNAL_NODE_KEY_OFFSET,
            spec_icell_off(c) + INTERNAL_NODE_CELL_SIZE,
        ) == spec_i32_be(p.icells[c].key),
{
    crate::consts::lemma_const_values();
    let s = spec_page_bytes(p);
    let off = spec_icell_off(c);
    assert(c * INTERNAL_NODE_CELL_SIZE + INTERNAL_NODE_CELL_SIZE <= 168 * 12) by (nonlinear_arith)
        requires
            0 <= c < 168,
    ;
    assert(off + INTERNAL_NODE_CELL_SIZE <= PAGE_SIZE);
    assert forall|j: int| off <= j < off + INTERNAL_NODE_CELL_SIZE implies #[trigger] s[j] == (if j
        - off < INTERNAL_NODE_KEY_OFFSET {
        spec_u64_be(p.icells[c].left)[j - off]
    } else {
        spec_i32_be(p.icells[c].key)[j - off - INTERNAL_NODE_KEY_OFFSET]
    }) by {
        vstd::arithmetic::div_mod::lemma_fundamental_div_mod_converse(
            c * INTERNAL_NODE_CELL_SIZE + (j - off),
            INTERNAL_NODE_CELL_SIZE as int,
            c,
            j - off,
        );
    }
    assert(s.subrange(off, off + INTERNAL_NODE_KEY_OFFSET) =~= spec_u64_be(p.icells[c].left));
    assert(s.subrange(off + INTERNAL_NODE_KEY_OFFSET, off + INTERNAL_NODE_CELL_SIZE)
        =~= spec_i32_be(p.icells[c].key));
}

/// Whatever parses is a shape-well-formed page.
pub proof fn lemma_parse_wf(s: Seq<u8>)
    requires
        spec_parse_page(s) is Some,
    ensures
        spec_parse_page(s)->Some_0.wf(),
{
    crate::consts::lemma_const_values();
    let v = spec_parse_page(s)->Some_0;
    if v.is_leaf {
        assert forall|j: int| 0 <= j < v.cells.len() implies (#[trigger] v.cells[j]).wf() by {
            let coff = spec_leaf_cell_off(j);
            assert(j * CELL_SIZE + CELL_SIZE <= 28 * 72) by (nonlinear_arith)
                requires
                    0 <= j < 28,
            ;
            assert(spec_leaf_link_ok(s, j));
            crate::codec::lemma_i32_be_parse_round_trip(s.subrange(coff, coff + KEY_SIZE));
            let val = s.subrange(coff + VALUE_OFFSET, coff + CELL_SIZE);
            assert(v.cells[j].value == val);
            assert forall|kk: int| 0 <= kk < KEY_SIZE implies val.take(KEY_SIZE as int)[kk]
                == s.subrange(coff + VALUE_OFFSET, coff + VALUE_OFFSET + KEY_SIZE)[kk] by {
                assert(val[kk] == s[coff + VALUE_OFFSET + kk]);
                assert(s.subrange(coff + VALUE_OFFSET, coff + VALUE_OFFSET + KEY_SIZE)[kk] == s[coff
                    + VALUE_OFFSET + kk]);
            }
            assert(val.take(KEY_SIZE as int) =~= s.subrange(
                coff + VALUE_OFFSET,
                coff + VALUE_OFFSET + KEY_SIZE,
            ));
        }
    }
}

/// Parsing a well-formed page's image gives that page back.
pub proof fn lemma_page_round_trip(p: PageV)
    requires
        p.wf(),
    ensures
        spec_parse_page(spec_page_bytes(p)) == Option::Some(p),
{
    crate::consts::lemma_const_values();
    let s = spec_page_bytes(p);
    assert(s.len() == PAGE_SIZE);
    assert(s[PAGE_TYPE_OFFSET as int] == spec_type_byte(p.is_leaf));
    assert(s[IS_ROOT_OFFSET as int] == spec_root_byte(p.is_root));
    assert(s.subrange(NUM_ENTRIES_OFFSET as int, NEXT_LEAF_NODE_OFFSET as int) =~= spec_u64_be(
        p.num_cells() as u64,
    ));
    crate::codec::lemma_u64_be_round_trip(p.num_cells() as u64);
    let n = p.num_cells() as int;
    if p.is_leaf {
        assert(s.subrange(NEXT_LEAF_NODE_OFFSET as int, PAGE_HEADER_SIZE as int) =~= spec_u64_be(
            p.next,
        ));
        crate::codec::lemma_u64_be_round_trip(p.next);
        assert forall|c: int| 0 <= c < n implies spec_leaf_link_ok(s, c) && spec_parse_leaf_cell(
            s,
            c,
        ) == p.cells[c] by {
            lemma_leaf_cell_bytes(p, c);
            assert(p.cells[c].wf());
            crate::codec::lemma_i32_be_round_trip(p.cells[c].key);
            assert(spec_parse_leaf_cell(s, c) =~= p.cells[c]);
        }
        let v = spec_parse_page(s)->Some_0;
        assert(v.cells =~= p.cells);
        assert(v =~= p);
    } else {
        assert(s.subrange(NEXT_LEAF_NODE_OFFSET as int, PAGE_HEADER_SIZE as int) =~= spec_u64_be(
            0u64,
        ));
        crate::codec::lemma_u64_be_round_trip(0u64);
        assert(s.subrange(
            INTERNAL_NODE_RIGHT_PAGE_NUM_OFFSET as int,
            INTERNAL_NODE_CELL_START_OFFSET as int,
        ) =~= spec_u64_be(p.right));
        crate::codec::lemma_u64_be_round_trip(p.right);
        assert forall|c: int| 0 <= c < n implies spec_parse_icell(s, c) == p.icells[c] by {
            lemma_icell_bytes(p, c);
            crate::codec::lemma_u64_be_round_trip(p.icells[c].left);
            crate::codec::lemma_i32_be_round_trip(p.icells[c].key);
        }
        let v = spec_parse_page(s)->Some_0;
        assert(v.icells =~= p.icells);
        assert(v =~= p);
    }
}

impl Page {
    /// Produces the page's exact on-disk byte image.
    pub fn flush(&self) -> (r: Vec<u8>)
        requires
            self@.wf(),
        ensures
            r@ == spec_page_bytes(self@),
            r@.len() == PAGE_SIZE,
    {
        proof {
            crate::consts::lemma_const_values();
        }
        let ghost p = self@;
        let mut r: Vec<u8> = Vec::new();
        match self.node_type {
            NodeType::Leaf => r.push(LEAF_NODE_TYPE),
            NodeType::Internal => r.push(NONLEAF_NODE_TYPE),
        }
        if self.is_root {
            r.push(IS_ROOT_TYPE);
        } else {
            r.push(NON_ROOT_TYPE);
        }
        let n = self.num_cells();
        let nb = u64_to_be(n);
        push_bytes(&mut r, &nb);
        let xb = u64_to_be(self.next_sibling);
        push_bytes(&mut r, &xb);
        proof {
            assert forall|i: int| 0 <= i < PAGE_HEADER_SIZE implies #[trigger] r@[i]
                == spec_page_byte(p, i) by {}
        }
        match self.node_type {
            NodeType::Leaf => {
                let cn: usize = self.cells.len();
                let mut c: usize = 0;
                while c < cn
                    invariant
                        c <= cn,
                        cn == p.cells.len(),
                        p.wf(),
                        p.is_leaf,
                        p == self@,
                        r@.len() == PAGE_HEADER_SIZE + c * CELL_SIZE,
                        CELL_SIZE == 72,
                        PAGE_HEADER_SIZE == 18,
                        VALUE_OFFSET == 4,
                        KEY_SIZE == 4,
                        CELLS_PER_PAGE == 28,
                        PAGE_SIZE == 2046,
                        forall|i: int| 0 <= i < r@.len() ==> #[trigger] r@[i] == spec_page_byte(
                            p,
                            i,
                        ),
                    decreases cn - c,
                {
                    let ghost oldlen = r@.len() as int;
                    let kb = i32_to_be(self.cells[c].key);
                    push_bytes(&mut r, &kb);
                    push_bytes(&mut r, &self.cells[c].value);
                    proof {
                        assert(p.cells[c as int].wf());
                        assert(r@.len() == oldlen + CELL_SIZE);
                        assert forall|i: int| oldlen <= i < r@.len() implies #[trigger] r@[i]
                            == spec_page_byte(p, i) by {
                            lemma_fundamental_div_mod_converse(
                                i - PAGE_HEADER_SIZE,
                                CELL_SIZE as int,
                                c as int,
                                i - oldlen,
                            );
                            if i - oldlen < KEY_SIZE {
                                assert(r@[i] == spec_i32_be(p.cells[c as int].key)[i - oldlen]);
                            } else {
                                assert(r@[i] == p.cells[c as int].value[i - oldlen - KEY_SIZE]);
                            }
                        }
                        assert((c + 1) * CELL_SIZE == c * CELL_SIZE + CELL_SIZE) by (nonlinear_arith);
                    }
                    c = c + 1;
                }
                proof {
                    assert(c * CELL_SIZE <= 28 * 72) by (nonlinear_arith)
                        requires
                            0 <= c <= 28,
                    ;
                }
                let cur: usize = r.len();
                let ghost tail_start = r@.len() as int;
                push_zeros(&mut r, PAGE_SIZE - cur);
                proof {
                    assert forall|i: int| tail_start <= i < PAGE_SIZE implies spec_page_byte(p, i)
                        == 0u8 by {
                        lemma_fundamental_div_mod_converse(
                            cn * CELL_SIZE as int,
                            CELL_SIZE as int,
                            cn as int,
                            0,
                        );
                        lemma_div_is_ordered(
                            cn * CELL_SIZE as int,
                            i - PAGE_HEADER_SIZE,
                            CELL_SIZE as int,
                        );
                    }
                    assert(r@ =~= spec_page_bytes(p));
                }
            },
            NodeType::Internal => {
                let rb = u64_to_be(self.right_page);
                push_bytes(&mut r, &rb);
                proof {
                    assert forall|i: int|
                        0 <= i < INTERNAL_NODE_CELL_START_OFFSET implies #[trigger] r@[i]
                        == spec_page_byte(p, i) by {}
                }
                let cn: usize = self.icells.len();
                let mut c: usize = 0;
                while c < cn
                    invariant
                        c <= cn,
                        cn == p.icells.len(),
                        p.wf(),
                        !p.is_leaf,
                        p == self@,
                        r@.len() == INTERNAL_NODE_CELL_START_OFFSET + c * INTERNAL_NODE_CELL_SIZE,
                        INTERNAL_NODE_CELL_SIZE == 12,
                        INTERNAL_NODE_CELL_START_OFFSET == 26,
                        INTERNAL_NODE_KEY_OFFSET == 8,
                        INTERNAL_CELLS_PER_PAGE == 168,
                        PAGE_SIZE == 2046,
                        forall|i: int| 0 <= i < r@.len() ==> #[trigger] r@[i] == spec_page_byte(
                            p,
                            i,
                        ),
                    decreases cn - c,
                {
                    let ghost oldlen = r@.len() as int;
                    let lb = u64_to_be(self.icells[c].left);
                    push_bytes(&mut r, &lb);
                    let kb = i32_to_be(self.icells[c].key);
                    push_bytes(&mut r, &kb);
                    proof {
                        assert(r@.len() == oldlen + INTERNAL_NODE_CELL_SIZE);
                        assert forall|i: int| oldlen <= i < r@.len() implies #[trigger] r@[i]
                            == spec_page_byte(p, i) by {
                            lemma_fundamental_div_mod_converse(
                                i - INTERNAL_NODE_CELL_START_OFFSET,
                                INTERNAL_NODE_CELL_SIZE as int,
                                c as int,
                                i - oldlen,
                            );
                        }
                        assert((c + 1) * INTERNAL_NODE_CELL_SIZE == c * INTERNAL_NODE_CELL_SIZE
                            + INTERNAL_NODE_CELL_SIZE) by (nonlinear_arith);
                    }
                    c = c + 1;
                }
                proof {
                    assert(c * INTERNAL_NODE_CELL_SIZE <= 168 * 12) by (nonlinear_arith)
                        requires
                            0 <= c <= 168,
                    ;
                }
                let cur: usize = r.len();
                let ghost tail_start = r@.len() as int;
                push_zeros(&mut r, PAGE_SIZE - cur);
                proof {
                    assert forall|i: int| tail_start <= i < PAGE_SIZE implies spec_page_byte(p, i)
                        == 0u8 by {
                        lemma_fundamental_div_mod_converse(
                            cn * INTERNAL_NODE_CELL_SIZE as int,
                            INTERNAL_NODE_CELL_SIZE as int,
                            cn as int,
                            0,
                        );
                        lemma_div_is_ordered(
                            cn * INTERNAL_NODE_CELL_SIZE as int,
                            i - INTERNAL_NODE_CELL_START_OFFSET,
                            INTERNAL_NODE_CELL_SIZE as int,
                        );
                    }
                    assert(r@ =~= spec_page_bytes(p));
                }
            },
        }
        r
    }

    /// An equal copy of the page, cell by cell.
    pub fn clone_page(&self) -> (r: Page)
        ensures
            r@ == self@,
    {
        let mut cells: Vec<LeafCell> = Vec::new();
        let n: usize = self.cells.len();
        let mut i: usize = 0;
        while i < n
            invariant
                i <= n,
                n == self.cells@.len(),
                cells@.len() == i,
                forall|j: int| 0 <= j < i ==> (#[trigger] cells@[j])@ == self.cells@[j]@,
            decreases n - i,
        {
            let c = &self.cells[i];
            let len: usize = c.value.len();
            let value = copy_range(&c.value, 0, len);
            proof {
                assert(c.value@.subrange(0, c.value@.len() as int) =~= c.value@);
            }
            cells.push(LeafCell { key: c.key, value });
            i = i + 1;
        }
        let mut icells: Vec<InternalCell> = Vec::new();
        let n2: usize = self.icells.len();
        let mut i2: usize = 0;
        while i2 < n2
            invariant
                i2 <= n2,
                n2 == self.icells@.len(),
                icells@ == self.icells@.take(i2 as int),
            decreases n2 - i2,
        {
            icells.push(self.icells[i2]);
            proof {
                assert(self.icells@.take(i2 + 1) =~= self.icells@.take(i2 as int).push(
                    self.icells@[i2 as int],
                ));
            }
            i2 = i2 + 1;
        }
        let r = Page {
            present: self.present,
            is_root: self.is_root,
            node_type: self.node_type,
            next_sibling: self.next_sibling,
            right_page: self.right_page,
            cells,
            icells,
        };
        proof {
            assert(self.icells@.take(n2 as int) =~= self.icells@);
            assert(r@.cells =~= self@.cells);
            assert(r@ =~= self@);
        }
        r
    }

    /// Parses a page from its byte image, rejecting anything that is
    /// not a well-formed image.
    #[verifier::loop_isolation(false)]
    pub fn new(data: Vec<u8>) -> (r: Result<Page, DbError>)
        ensures
            match spec_parse_page(data@) {
                Option::None => r == Err::<Page, DbError>(DbError::CorruptFile),
                Option::Some(v) => r matches Ok(p) && p@ == v && p@.wf(),
            },
    {
        proof {
            crate::consts::lemma_const_values();
        }
        if data.len() != PAGE_SIZE {
            return Err(DbError::CorruptFile);
        }
        let tb = data[0];
        let rb = data[1];
        if rb != IS_ROOT_TYPE && rb != NON_ROOT_TYPE {
            return Err(DbError::CorruptFile);
        }
        let n64 = read_u64_be(&data, NUM_ENTRIES_OFFSET);
        let ghost n_spec = spec_u64_from_be(
            data@.subrange(NUM_ENTRIES_OFFSET as int, NEXT_LEAF_NODE_OFFSET as int),
        ) as int;
        if tb == LEAF_NODE_TYPE {
            if n64 > CELLS_PER_PAGE as u64 {
                return Err(DbError::CorruptFile);
            }
            let n: usize = n64 as usize;
            let next = read_u64_be(&data, NEXT_LEAF_NODE_OFFSET);
            let mut cells: Vec<LeafCell> = Vec::new();
            let mut c: usize = 0;
            while c < n
                invariant
                    c <= n,
                    n == n_spec,
                    n <= CELLS_PER_PAGE,
                    data@.len() == PAGE_SIZE,
                    CELL_SIZE == 72,
                    PAGE_HEADER_SIZE == 18,
                    VALUE_OFFSET == 4,
                    KEY_SIZE == 4,
                    CELLS_PER_PAGE == 28,
                    PAGE_SIZE == 2046,
                    cells@.len() == c,
                    forall|j: int| 0 <= j < c ==> (#[trigger] cells@[j])@ == spec_parse_leaf_cell(
                        data@,
                        j,
                    ),
                    forall|j: int| 0 <= j < c ==> spec_leaf_link_ok(data@, j),
                decreases n - c,
            {
                proof {
                    assert(c * CELL_SIZE + CELL_SIZE <= 28 * 72) by (nonlinear_arith)
                        requires
                            0 <= c < 28,
                    ;
                }
                let off: usize = PAGE_HEADER_SIZE + c * CELL_SIZE;
                let mut k: usize = 0;
                while k < KEY_SIZE
                    invariant
                        k <= KEY_SIZE,
                        KEY_SIZE == 4,
                        VALUE_OFFSET == 4,
                        data@.len() == PAGE_SIZE,
                        PAGE_SIZE == 2046,
                        off + CELL_SIZE <= PAGE_SIZE,
                        CELL_SIZE == 72,
                        forall|kk: int|
                            0 <= kk < k ==> #[trigger] data@[off + VALUE_OFFSET + kk] == data@[off
                                + kk],
                    decreases KEY_SIZE - k,
                {
                    if data[off + VALUE_OFFSET + k] != data[off + k] {
                        proof {
                            let s1 = data@.subrange(
                                off + VALUE_OFFSET,
                                off + VALUE_OFFSET + KEY_SIZE as int,
                            );
                            let s2 = data@.subrange(off as int, off + KEY_SIZE as int);
                            assert(s1[k as int] == data@[off + VALUE_OFFSET + k]);
                            assert(s2[k as int] == data@[off + k as int]);
                            assert(!spec_leaf_link_ok(data@, c as int));
                        }
                        return Err(DbError::CorruptFile);
                    }
                    k = k + 1;
                }
                proof {
                    let s1 = data@.subrange(
                        off + VALUE_OFFSET,
                        off + VALUE_OFFSET + KEY_SIZE as int,
                    );
                    let s2 = data@.subrange(off as int, off + KEY_SIZE as int);
                    assert forall|kk: int| 0 <= kk < KEY_SIZE implies s1[kk] == s2[kk] by {
                        assert(s1[kk] == data@[off + VALUE_OFFSET + kk]);
                        assert(s2[kk] == data@[off + kk]);
                    }
                    assert(s1 =~= s2);
                    assert(spec_leaf_link_ok(data@, c as int));
                }
                let key = read_i32_be(&data, off);
                let value = copy_range(&data, off + VALUE_OFFSET, off + CELL_SIZE);
                cells.push(LeafCell { key, value });
                c = c + 1;
            }
            let p = Page {
                present: true,
                is_root: rb == IS_ROOT_TYPE,
                node_type: NodeType::Leaf,
                next_sibling: next,
                right_page: 0,
                cells,
                icells: Vec::new(),
            };
            proof {
                let v = spec_parse_page(data@)->Some_0;
                assert(p@.cells =~= v.cells);
                assert(p@ =~= v);
                assert forall|j: int| 0 <= j < p@.cells.len() implies (#[trigger] p@.cells[j]).wf()
                by {
                    let coff = spec_leaf_cell_off(j);
                    assert(j * CELL_SIZE + CELL_SIZE <= 28 * 72) by (nonlinear_arith)
                        requires
                            0 <= j < 28,
                    ;
                    assert(spec_leaf_link_ok(data@, j));
                    crate::codec::lemma_i32_be_parse_round_trip(
                        data@.subrange(coff, coff + KEY_SIZE),
                    );
                    let val = data@.subrange(coff + VALUE_OFFSET, coff + CELL_SIZE);
                    assert(p@.cells[j].value == val);
                    assert forall|kk: int| 0 <= kk < KEY_SIZE implies val.take(KEY_SIZE as int)[kk]
                        == data@.subrange(coff + VALUE_OFFSET, coff + VALUE_OFFSET + KEY_SIZE)[kk]
                    by {
                        assert(val[kk] == data@[coff + VALUE_OFFSET + kk]);
                        assert(data@.subrange(
                            coff + VALUE_OFFSET,
                            coff + VALUE_OFFSET + KEY_SIZE,
                        )[kk] == data@[coff + VALUE_OFFSET + kk]);
                    }
                    assert(val.take(KEY_SIZE as int) =~= data@.subrange(
                        coff + VALUE_OFFSET,
                        coff + VALUE_OFFSET + KEY_SIZE,
                    ));
                    assert(p@.cells[j].wf());
                }
            }
            Ok(p)
        } else if tb == NONLEAF_NODE_TYPE {
            if n64 > INTERNAL_CELLS_PER_PAGE as u64 {
                return Err(DbError::CorruptFile);
            }
            let n: usize = n64 as usize;
            let right = read_u64_be(&data, INTERNAL_NODE_RIGHT_PAGE_NUM_OFFSET);
            let mut icells: Vec<InternalCell> = Vec::new();
            let mut c: usize = 0;
            while c < n
                invariant
                    c <= n,
                    n == n_spec,
                    n <= INTERNAL_CELLS_PER_PAGE,
                    data@.len() == PAGE_SIZE,
                    INTERNAL_NODE_CELL_SIZE == 12,
                    INTERNAL_NODE_CELL_START_OFFSET == 26,
                    INTERNAL_NODE_KEY_OFFSET == 8,
                    INTERNAL_CELLS_PER_PAGE == 168,
                    PAGE_SIZE == 2046,
                    icells@.len() == c,
                    forall|j: int| 0 <= j < c ==> #[trigger] icells@[j] == spec_parse_icell(
                        data@,
                        j,
                    ),
                decreases n - c,
            {
                proof {
                    assert(c * INTERNAL_NODE_CELL_SIZE + INTERNAL_NODE_CELL_SIZE <= 168 * 12)
                        by (nonlinear_arith)
                        requires
                            0 <= c < 168,
                    ;
                }
                let off: usize = INTERNAL_NODE_CELL_START_OFFSET + c * INTERNAL_NODE_CELL_SIZE;
                let left = read_u64_be(&data, off);
                let key = read_i32_be(&data, off + INTERNAL_NODE_KEY_OFFSET);
                icells.push(InternalCell { left, key });
                c = c + 1;
            }
            let p = Page {
                present: true,
                is_root: rb == IS_ROOT_TYPE,
                node_type: NodeType::Internal,
                next_sibling: 0,
                right_page: right,
                cells: Vec::new(),
                icells,
            };
            proof {
                let v = spec_parse_page(data@)->Some_0;
                assert(p@.icells =~= v.icells);
                assert(p@.cells =~= Seq::<CellV>::empty());
                assert(p@ =~= v);
            }
            Ok(p)
        } else {
            Err(DbError::CorruptFile)
        }
    }
}

/// Reads the big-endian key at the start of a serialized cell or
/// row.
pub fn deserialize_key(buf: &Vec<u8>) -> (r: i32)
    requires
        buf@.len() >= KEY_SIZE,
    ensures
        r == spec_i32_from_be(buf@.take(KEY_SIZE as int)),
{
    let r = read_i32_be(buf, 0);
    proof {
        assert(buf@.subrange(0, KEY_SIZE as int) =~= buf@.take(KEY_SIZE as int));
    }
    r
}

} // verus!
