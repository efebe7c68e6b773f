//! The error kinds of the engine.

use vstd::prelude::*;

verus! {

/// Everything that can go wrong inside the engine. I/O failures of
/// the surrounding program are not represented here: the library
/// itself never touches a file.
#[derive(Clone, Copy, Debug, PartialEq, Eq, Structural)]
pub enum DbError {
    /// Malformed command text or a non-integer id.
    ParseError,
    /// Username or email longer than its fixed field.
    FieldTooLong,
    /// The page count would exceed `TABLE_MAX_PAGES`, or a requested
    /// slot is out of range.
    OutOfCapacity,
    /// The id is already present in the table.
    DuplicateKey,
    /// A file image whose length or contents do not form a
    /// well-formed one-level tree.
    CorruptFile,
    /// Operations the one-level engine cannot perform, such as
    /// splitting an internal page.
    Unsupported,
}

} // verus!
