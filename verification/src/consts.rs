//! Fixed sizes and offsets of the row and page formats.
//!
//! All multi-byte integers in the formats are big-endian. A page is a
//! fixed `PAGE_SIZE` buffer: an 18-byte header, then the body. Leaf
//! bodies are arrays of `CELL_SIZE` cells `{key, row}`; internal
//! bodies hold the right child page number followed by
//! `{left child, separator key}` cells.

use vstd::prelude::*;

verus! {

// Row layout
pub const ID_SIZE: usize = 4;
pub const USERNAME_SIZE: usize = 32;
pub const EMAIL_SIZE: usize = 32;

pub const ID_OFFSET: usize = 0;
pub const USERNAME_OFFSET: usize = ID_OFFSET + ID_SIZE;
pub const EMAIL_OFFSET: usize = USERNAME_OFFSET + USERNAME_SIZE;
pub const INSERT_STATEMENT_SIZE: usize = EMAIL_OFFSET + EMAIL_SIZE;

// Page
pub const PAGE_SIZE: usize = 2046;
pub const TABLE_MAX_PAGES: usize = 3;
pub const ROW_SIZE: usize = INSERT_STATEMENT_SIZE;

// Header layout, shared by both page kinds
pub const PAGE_TYPE_SIZE: usize = 1;
pub const PAGE_TYPE_OFFSET: usize = 0;
pub const IS_ROOT_SIZE: usize = 1;
pub const IS_ROOT_OFFSET: usize = PAGE_TYPE_OFFSET + PAGE_TYPE_SIZE;
pub const NUM_ENTRIES_SIZE: usize = 8;
pub const NUM_ENTRIES_OFFSET: usize = IS_ROOT_OFFSET + IS_ROOT_SIZE;
pub const NEXT_LEAF_NODE_NUM_SIZE: usize = 8;
pub const NEXT_LEAF_NODE_OFFSET: usize = NUM_ENTRIES_OFFSET + NUM_ENTRIES_SIZE;
pub const PAGE_HEADER_SIZE: usize = NEXT_LEAF_NODE_OFFSET + NEXT_LEAF_NODE_NUM_SIZE;

// Leaf body layout
pub const KEY_SIZE: usize = ID_SIZE;
pub const KEY_OFFSET: usize = 0;
pub const VALUE_SIZE: usize = ROW_SIZE;
pub const VALUE_OFFSET: usize = KEY_OFFSET + KEY_SIZE;
pub const CELL_SIZE: usize = VALUE_OFFSET + VALUE_SIZE;
pub const CELLS_PER_PAGE: usize = (PAGE_SIZE - PAGE_HEADER_SIZE) / CELL_SIZE;

pub const TABLE_MAX_ROWS: usize = CELLS_PER_PAGE * TABLE_MAX_PAGES;

// Header byte values
pub const LEAF_NODE_TYPE: u8 = 1;
pub const NONLEAF_NODE_TYPE: u8 = 2;
pub const IS_ROOT_TYPE: u8 = 67;
pub const NON_ROOT_TYPE: u8 = 66;

// Internal body layout
pub const INTERNAL_NODE_PAGE_NUM_SIZE: usize = 8;
pub const INTERNAL_NODE_KEY_SIZE: usize = ID_SIZE;
pub const INTERNAL_NODE_LEFT_PAGE_NUM_OFFSET: usize = 0;
pub const INTERNAL_NODE_KEY_OFFSET: usize = INTERNAL_NODE_LEFT_PAGE_NUM_OFFSET
    + INTERNAL_NODE_PAGE_NUM_SIZE;
pub const INTERNAL_NODE_RIGHT_PAGE_NUM_OFFSET: usize = PAGE_HEADER_SIZE;
pub const INTERNAL_NODE_CELL_SIZE: usize = INTERNAL_NODE_PAGE_NUM_SIZE
    + INTERNAL_NODE_KEY_SIZE;
pub const INTERNAL_NODE_CELL_START_OFFSET: usize = PAGE_HEADER_SIZE
    + INTERNAL_NODE_PAGE_NUM_SIZE;

// Most internal cells that fit in one page body.
pub const INTERNAL_CELLS_PER_PAGE: usize =
    (PAGE_SIZE - INTERNAL_NODE_CELL_START_OFFSET) / INTERNAL_NODE_CELL_SIZE;

/// The concrete values of the derived layout constants.
pub proof fn lemma_const_values()
    ensures
        ID_OFFSET == 0,
        USERNAME_OFFSET == 4,
        EMAIL_OFFSET == 36,
        INSERT_STATEMENT_SIZE == 68,
        ROW_SIZE == 68,
        IS_ROOT_OFFSET == 1,
        NUM_ENTRIES_OFFSET == 2,
        NEXT_LEAF_NODE_OFFSET == 10,
        PAGE_HEADER_SIZE == 18,
        VALUE_OFFSET == 4,
        CELL_SIZE == 72,
        CELLS_PER_PAGE == 28,
        TABLE_MAX_ROWS == 84,
        INTERNAL_NODE_KEY_OFFSET == 8,
        INTERNAL_NODE_RIGHT_PAGE_NUM_OFFSET == 18,
        INTERNAL_NODE_CELL_SIZE == 12,
        INTERNAL_NODE_CELL_START_OFFSET == 26,
        INTERNAL_CELLS_PER_PAGE == 168,
{
}

} // verus!
