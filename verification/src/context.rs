//! Sinks for the rows a `select` emits.
//!
//! The interactive program renders rows as text lines; the test
//! sink checks that the rows arrive as consecutive ids.

use vstd::prelude::*;

use crate::codec::{i32_to_decimal, push_bytes, spec_i32_dec};
use crate::statement::{spec_field_text, InsertStatement, RowV};

verus! {

/// The text line a row renders to: the id in decimal, then the two
/// text fields, comma-separated.
pub open spec fn spec_row_line(r: RowV) -> Seq<u8> {
    spec_i32_dec(r.id as int) + seq![44u8, 32u8] + spec_field_text(r.username) + seq![
        44u8,
        32u8,
    ] + spec_field_text(r.email)
}

/// The console sink: it turns each emitted row into one text line,
/// which the surrounding program prints.
pub struct ConsoleOutFn {}

impl ConsoleOutFn {
    pub fn new() -> (r: ConsoleOutFn) {
        ConsoleOutFn {  }
    }

    /// Renders one row as its display line.
    pub fn render(&self, insert: &InsertStatement) -> (r: Vec<u8>)
        ensures
            r@ == spec_row_line(insert@),
    {
        let mut r = i32_to_decimal(insert.id());
        r.push(44u8);
        r.push(32u8);
        let u = insert.username_text();
        push_bytes(&mut r, &u);
        r.push(44u8);
        r.push(32u8);
        let e = insert.email_text();
        push_bytes(&mut r, &e);
        proof {
            assert(r@ =~= spec_row_line(insert@));
        }
        r
    }
}

/// A sink that checks that a select emits exactly the consecutive
/// ids starting at the count it was made with.
pub struct AssertSelectOutFn {
    count: i32,
}

impl AssertSelectOutFn {
    /// The next id the sink expects.
    pub closed spec fn spec_count(self) -> i32 {
        self.count
    }

    pub fn new(count: i32) -> (r: AssertSelectOutFn)
        ensures
            r.spec_count() == count,
    {
        AssertSelectOutFn { count }
    }

    pub fn count(&self) -> (r: i32)
        ensures
            r == self.spec_count(),
    {
        self.count
    }

    /// Accepts one emitted row: true exactly when the row carries
    /// the expected id, which then advances.
    pub fn outfn(&mut self, insert: &InsertStatement) -> (r: bool)
        requires
            old(self).spec_count() < i32::MAX,
        ensures
            r == (old(self).spec_count() == insert@.id),
            r ==> final(self).spec_count() == old(self).spec_count() + 1,
            !r ==> final(self).spec_count() == old(self).spec_count(),
    {
        if self.count == insert.id() {
            self.count = self.count + 1;
            true
        } else {
            false
        }
    }
}

} // verus!
