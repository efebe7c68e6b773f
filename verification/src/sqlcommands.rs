//! Executing parsed commands against a table.
//!
//! `insert` places one row at its sorted position, splitting the
//! root leaf first when it is full; `select` returns every row in
//! ascending id order.

use vstd::prelude::*;

use crate::codec::{lemma_i32_be_round_trip, spec_i32_be};
use crate::consts::KEY_SIZE;
use crate::cursor::{cursor_ok, cursor_pos, insert_target_full, spec_insert_pos, Cursor};
use crate::error::DbError;
use crate::page::{CellV, PageV};
use crate::pager::{pages_wf, scan_cells, scan_keys, scan_values, spec_left_num, spec_right_num};
use crate::statement::{
    deserialize_row, prepare_statement, serialize_row, spec_deserialize_row, spec_prepare,
    spec_serialize_row, spec_tokens, InsertStatement, Statement, StatementV,
};
use crate::table::Table;

verus! {

/// What a successfully executed command hands back: nothing for an
/// insert, the rows in key order for a select.
pub enum CommandOutput {
    Executed,
    Rows(Vec<InsertStatement>),
}

/// Every cell a scan yields is a well-formed leaf cell.
proof fn lemma_scan_cell_wf(ps: Seq<PageV>, np: int, k: int)
    requires
        pages_wf(ps, np),
        0 <= k < scan_cells(ps, np).len(),
    ensures
        scan_cells(ps, np)[k].wf(),
{
    let s = scan_cells(ps, np);
    if np == 1 {
        assert(s[k] == ps[0].cells[k]);
    } else {
        let l = spec_left_num(ps);
        let r = spec_right_num(ps);
        let ln = ps[l].cells.len() as int;
        if k < ln {
            assert(s[k] == ps[l].cells[k]);
        } else {
            assert(s[k] == ps[r].cells[k - ln]);
        }
    }
}

/// Inserts one row: the scan afterwards is the scan before with the
/// row's cell at its sorted position, or the exact error the inputs
/// force.
pub fn execute_insert_statement(table: &mut Table, statement: InsertStatement) -> (r: Result<
    (),
    DbError,
>)
    requires
        old(table).wf(),
        statement@.wf(),
    ensures
        final(table).wf(),
        ({
            let ps = old(table)@.pages;
            let np = old(table)@.num_pages;
            let key = statement@.id;
            let s = scan_cells(ps, np);
            let full = insert_target_full(ps, np, key);
            let present = scan_keys(ps, np).contains(key);
            &&& (np == crate::consts::TABLE_MAX_PAGES && full ==> r == Err::<(), DbError>(
                DbError::OutOfCapacity,
            ) && final(table)@ == old(table)@)
            &&& (!(np == crate::consts::TABLE_MAX_PAGES && full) && present ==> r == Err::<
                (),
                DbError,
            >(DbError::DuplicateKey) && scan_cells(final(table)@.pages, final(table)@.num_pages)
                == s)
            &&& (!(np == crate::consts::TABLE_MAX_PAGES && full) && !present ==> r is Ok
                && scan_cells(final(table)@.pages, final(table)@.num_pages) == s.insert(
                spec_insert_pos(s, key),
                (CellV { key: key, value: spec_serialize_row(statement@) }),
            ) && final(table)@.num_pages == (if full {
                crate::consts::TABLE_MAX_PAGES as int
            } else if np == 0 {
                1
            } else {
                np
            }))
        }),
{
    let data = serialize_row(&statement);
    let id = statement.id();
    proof {
        assert(data@.take(KEY_SIZE as int) =~= spec_i32_be(statement@.id));
        lemma_i32_be_round_trip(statement@.id);
    }
    let mut cursor = match Cursor::table_find(table, id) {
        Ok(c) => c,
        Err(e) => {
            proof {
                assert(false);
            }
            return Err(e);
        },
    };
    cursor.serialize_row_add(table, data)
}

/// Emits every stored row, in ascending id order.
#[verifier::loop_isolation(false)]
pub fn execute_select_statement(table: &Table) -> (r: Result<Vec<InsertStatement>, DbError>)
    requires
        table.wf(),
    ensures
        r matches Ok(rows) && rows@.len() == scan_cells(table@.pages, table@.num_pages).len() && (
        forall|j: int|
            0 <= j < rows@.len() ==> (#[trigger] rows@[j])@ == spec_deserialize_row(
                scan_values(table@.pages, table@.num_pages)[j],
            )),
{
    let ghost ps = table@.pages;
    let ghost np = table@.num_pages;
    let mut rows: Vec<InsertStatement> = Vec::new();
    let mut cursor = match Cursor::table_start(table) {
        Ok(c) => c,
        Err(e) => {
            proof {
                assert(false);
            }
            return Err(e);
        },
    };
    while !cursor.end_of_table()
        invariant
            cursor_ok(cursor@, ps, np),
            rows@.len() == cursor_pos(cursor@, ps, np),
            forall|j: int|
                0 <= j < rows@.len() ==> (#[trigger] rows@[j])@ == spec_deserialize_row(
                    scan_values(ps, np)[j],
                ),
        decreases scan_cells(ps, np).len() - cursor_pos(cursor@, ps, np),
    {
        let ghost k = cursor_pos(cursor@, ps, np);
        let v = match cursor.cursor_value(table) {
            Ok(v) => v,
            Err(e) => {
                proof {
                    assert(false);
                }
                return Err(e);
            },
        };
        proof {
            lemma_scan_cell_wf(ps, np, k);
            assert(scan_values(ps, np)[k] == scan_cells(ps, np)[k].value);
        }
        let row = match deserialize_row(&v) {
            Ok(r) => r,
            Err(e) => {
                proof {
                    assert(false);
                }
                return Err(e);
            },
        };
        rows.push(row);
        match cursor.advance_cursor(table) {
            Ok(_) => {},
            Err(e) => {
                proof {
                    assert(false);
                }
                return Err(e);
            },
        }
    }
    Ok(rows)
}

/// Parses and runs one command line against the table. A parse
/// error, a duplicate id and exhausted capacity come back as the
/// matching error with the stored rows unchanged; a good `insert`
/// adds its row at the sorted position and a good `select` returns
/// every row in id order.
pub fn process_sql_command(table: &mut Table, command: &Vec<u8>) -> (r: Result<
    CommandOutput,
    DbError,
>)
    requires
        old(table).wf(),
    ensures
        final(table).wf(),
        ({
            let ps = old(table)@.pages;
            let np = old(table)@.num_pages;
            let s = scan_cells(ps, np);
            match spec_prepare(spec_tokens(command@)) {
                Err(e) => r == Err::<CommandOutput, DbError>(e) && final(table)@ == old(table)@,
                Ok(StatementV::Select) => final(table)@ == old(table)@ && (r matches Ok(out) && out
                    matches CommandOutput::Rows(rows) && rows@.len() == s.len() && (forall|j: int|
                    0 <= j < rows@.len() ==> (#[trigger] rows@[j])@ == spec_deserialize_row(
                        scan_values(ps, np)[j],
                    ))),
                Ok(StatementV::Insert(row)) => {
                    let key = row.id;
                    let full = insert_target_full(ps, np, key);
                    let present = scan_keys(ps, np).contains(key);
                    &&& (np == crate::consts::TABLE_MAX_PAGES && full ==> r == Err::<
                        CommandOutput,
                        DbError,
                    >(DbError::OutOfCapacity) && final(table)@ == old(table)@)
                    &&& (!(np == crate::consts::TABLE_MAX_PAGES && full) && present ==> r == Err::<
                        CommandOutput,
                        DbError,
                    >(DbError::DuplicateKey) && scan_cells(
                        final(table)@.pages,
                        final(table)@.num_pages,
                    ) == s)
                    &&& (!(np == crate::consts::TABLE_MAX_PAGES && full) && !present ==> (r
                        matches Ok(out) && out is Executed) && scan_cells(
                        final(table)@.pages,
                        final(table)@.num_pages,
                    ) == s.insert(
                        spec_insert_pos(s, key),
                        (CellV { key: key, value: spec_serialize_row(row) }),
                    ))
                },
            }
        }),
{
    let statement = match prepare_statement(command) {
        Ok(st) => st,
        Err(e) => {
            return Err(e);
        },
    };
    match statement {
        Statement::Insert(insert_statement) => {
            match execute_insert_statement(table, insert_statement) {
                Ok(_) => Ok(CommandOutput::Executed),
                Err(e) => Err(e),
            }
        },
        Statement::Select => {
            match execute_select_statement(table) {
                Ok(rows) => Ok(CommandOutput::Rows(rows)),
                Err(e) => Err(e),
            }
        },
    }
}

} // verus!
