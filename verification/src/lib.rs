//! A single-file, key-ordered table engine organized as a one-level
//! B+-tree of fixed-size pages, together with a handful of small
//! verified container exercises.
//!
//! The engine keeps every page decoded in memory and treats the
//! on-disk byte image as the durable form: `Page::flush` produces the
//! exact bytes of a page, `Page::new` parses them back, and the two
//! are proved inverse on well-formed pages. The pager, table and
//! cursor layers maintain the tree invariants (sorted leaves, a
//! single root, a sibling chain in key order), and the command layer
//! exposes `insert` and `select` with contracts that pin the scan
//! result down to the sorted sequence of inserted rows.

pub mod codec;
pub mod consts;
pub mod context;
pub mod cursor;
pub mod deque;
pub mod error;
pub mod genlist;
pub mod list;
pub mod page;
pub mod pager;
pub mod persistentlist;
pub mod queue;
pub mod sqlcommands;
pub mod statement;
pub mod table;
