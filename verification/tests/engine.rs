use sqliters::codec::i32_to_decimal;
use sqliters::consts::{CELLS_PER_PAGE, PAGE_SIZE};
use sqliters::context::{AssertSelectOutFn, ConsoleOutFn};
use sqliters::error::DbError;
use sqliters::page::Page;
use sqliters::sqlcommands::{process_sql_command, CommandOutput};
use sqliters::statement::{deserialize_row, prepare_statement, serialize_row, InsertStatement, Statement};
use sqliters::table::Table;

fn fresh_table() -> Table {
    Table::new(Vec::new()).expect("an empty file must open")
}

fn cmd(table: &mut Table, line: &str) -> Result<CommandOutput, DbError> {
    process_sql_command(table, &line.as_bytes().to_vec())
}

fn insert_id(table: &mut Table, id: i32) -> Result<CommandOutput, DbError> {
    cmd(table, &format!("insert {} ashishnegi abc@abc.com", id))
}

fn select_ids(table: &mut Table) -> Vec<i32> {
    match cmd(table, "select") {
        Ok(CommandOutput::Rows(rows)) => rows.iter().map(|r| r.id()).collect(),
        other => panic!("select did not return rows: {:?}", other.is_ok()),
    }
}

#[test]
fn one_insert_select() {
    let mut table = fresh_table();
    assert!(matches!(cmd(&mut table, "insert 1 ashishnegi abc@abc.com"), Ok(CommandOutput::Executed)));
    match cmd(&mut table, "select") {
        Ok(CommandOutput::Rows(rows)) => {
            assert_eq!(rows.len(), 1);
            assert_eq!(rows[0].id(), 1);
            assert_eq!(rows[0].username_text(), b"ashishnegi".to_vec());
            assert_eq!(rows[0].email_text(), b"abc@abc.com".to_vec());
        }
        _ => panic!("select failed"),
    }
}

#[test]
fn empty_select() {
    let mut table = fresh_table();
    assert_eq!(select_ids(&mut table), Vec::<i32>::new());
}

#[test]
fn fill_single_leaf() {
    let mut table = fresh_table();
    for id in 1..=28 {
        assert!(insert_id(&mut table, id).is_ok(), "insert {} failed", id);
    }
    assert_eq!(select_ids(&mut table), (1..=28).collect::<Vec<i32>>());
    assert_eq!(table.num_pages(), 1);
    assert!(table.page_at(0).is_leaf());
    assert!(table.page_at(0).is_root());
}

#[test]
fn overflow_split() {
    let mut table = fresh_table();
    for id in 1..=29 {
        assert!(insert_id(&mut table, id).is_ok(), "insert {} failed", id);
    }
    assert_eq!(select_ids(&mut table), (1..=29).collect::<Vec<i32>>());
    assert_eq!(table.num_pages(), 3);
    // The root stays at page 0, now internal with one separator that
    // equals the left leaf's largest key.
    let root = table.page_at(0);
    assert!(!root.is_leaf());
    assert!(root.is_root());
    assert_eq!(root.num_cells(), 1);
    let sep = root.get_key_at(0);
    let left = root.get_page_num(0);
    let right = root.get_page_num(1);
    assert_eq!(sep, 14);
    assert!(table.page_at(left as usize).is_leaf());
    assert!(!table.page_at(left as usize).is_root());
    assert!(table.page_at(right as usize).is_leaf());
    assert!(!table.page_at(right as usize).is_root());
    assert_eq!(table.page_at(left as usize).max_key(), sep);
    assert_eq!(table.page_at(left as usize).next_sibling_num(), right);
    assert_eq!(table.page_at(right as usize).next_sibling_num(), 0);
}

#[test]
fn reverse_order() {
    let mut table = fresh_table();
    for id in (1..=28).rev() {
        assert!(insert_id(&mut table, id).is_ok(), "insert {} failed", id);
    }
    assert_eq!(select_ids(&mut table), (1..=28).collect::<Vec<i32>>());
}

#[test]
fn permutation_scan() {
    let mut table = fresh_table();
    for id in [11, 3, 19, 1, 7, 20, 2, 15, 9, 4, 18, 5, 13, 6, 8, 10, 12, 14, 16, 17] {
        assert!(insert_id(&mut table, id).is_ok(), "insert {} failed", id);
    }
    assert_eq!(select_ids(&mut table), (1..=20).collect::<Vec<i32>>());
}

#[test]
fn negative_keys_in_order() {
    let mut table = fresh_table();
    for id in [3, -40, 0, -5, 17] {
        assert!(insert_id(&mut table, id).is_ok(), "insert {} failed", id);
    }
    assert_eq!(select_ids(&mut table), vec![-40, -5, 0, 3, 17]);
}

#[test]
fn durability_close_reopen() {
    let mut table = fresh_table();
    for id in 1..=28 {
        assert!(insert_id(&mut table, id).is_ok(), "insert {} failed", id);
    }
    let image = table.close_db();
    assert_eq!(image.len(), table.num_pages() as usize * PAGE_SIZE);
    let mut reopened = Table::new(image).expect("a clean close must reopen");
    assert_eq!(select_ids(&mut reopened), (1..=28).collect::<Vec<i32>>());
}

#[test]
fn durability_after_split() {
    let mut table = fresh_table();
    for id in 1..=30 {
        assert!(insert_id(&mut table, id).is_ok(), "insert {} failed", id);
    }
    let image = table.close_db();
    assert_eq!(image.len(), 3 * PAGE_SIZE);
    let mut reopened = Table::new(image).expect("a clean close must reopen");
    assert_eq!(select_ids(&mut reopened), (1..=30).collect::<Vec<i32>>());
}

#[test]
fn capacity_limit() {
    // Ascending inserts fill the single leaf (28), split it (14/14),
    // then fill the right leaf back up to 28; with all three pages
    // used the next insert has nowhere to go.
    let mut table = fresh_table();
    for id in 1..=42 {
        assert!(insert_id(&mut table, id).is_ok(), "insert {} failed", id);
    }
    assert!(matches!(insert_id(&mut table, 43), Err(DbError::OutOfCapacity)));
    assert_eq!(select_ids(&mut table), (1..=42).collect::<Vec<i32>>());
}

#[test]
fn duplicate_key() {
    let mut table = fresh_table();
    assert!(insert_id(&mut table, 5).is_ok());
    assert!(matches!(insert_id(&mut table, 5), Err(DbError::DuplicateKey)));
    assert_eq!(select_ids(&mut table), vec![5]);
}

#[test]
fn duplicate_key_on_full_leaf() {
    // A duplicate that lands on a full leaf still splits the page
    // first; the row set stays unchanged all the same.
    let mut table = fresh_table();
    for id in 1..=28 {
        assert!(insert_id(&mut table, id).is_ok(), "insert {} failed", id);
    }
    assert!(matches!(insert_id(&mut table, 10), Err(DbError::DuplicateKey)));
    assert_eq!(table.num_pages(), 3);
    assert_eq!(select_ids(&mut table), (1..=28).collect::<Vec<i32>>());
}

#[test]
fn field_length_bounds() {
    let mut table = fresh_table();
    let name32 = "a".repeat(32);
    let name33 = "a".repeat(33);
    assert!(cmd(&mut table, &format!("insert 1 {} mail@x.com", name32)).is_ok());
    assert!(matches!(
        cmd(&mut table, &format!("insert 2 {} mail@x.com", name33)),
        Err(DbError::FieldTooLong)
    ));
    assert!(cmd(&mut table, &format!("insert 3 user {}", name32)).is_ok());
    assert!(matches!(
        cmd(&mut table, &format!("insert 4 user {}", name33)),
        Err(DbError::FieldTooLong)
    ));
    assert_eq!(select_ids(&mut table), vec![1, 3]);
}

#[test]
fn parse_errors() {
    let mut table = fresh_table();
    assert!(matches!(cmd(&mut table, "frobnicate"), Err(DbError::ParseError)));
    assert!(matches!(cmd(&mut table, "insert 1 onlyname"), Err(DbError::ParseError)));
    assert!(matches!(cmd(&mut table, "insert x name mail"), Err(DbError::ParseError)));
    assert!(matches!(cmd(&mut table, "insert 99999999999 name mail"), Err(DbError::ParseError)));
    assert!(matches!(cmd(&mut table, "select me"), Err(DbError::ParseError)));
    assert!(matches!(cmd(&mut table, ""), Err(DbError::ParseError)));
    assert_eq!(select_ids(&mut table), Vec::<i32>::new());
}

#[test]
fn parser_accepts_extremes() {
    match prepare_statement(&b"insert -2147483648 a b".to_vec()) {
        Ok(Statement::Insert(st)) => assert_eq!(st.id(), i32::MIN),
        _ => panic!("minimum id must parse"),
    }
    match prepare_statement(&b"insert +2147483647 a b".to_vec()) {
        Ok(Statement::Insert(st)) => assert_eq!(st.id(), i32::MAX),
        _ => panic!("maximum id must parse"),
    }
    assert!(matches!(prepare_statement(&b"  select  ".to_vec()), Ok(Statement::Select)));
}

#[test]
fn row_codec_round_trip() {
    let row = InsertStatement::new(7, &b"ab".to_vec(), &b"cd@ef".to_vec()).unwrap();
    let bytes = serialize_row(&row);
    assert_eq!(bytes.len(), 68);
    let back = deserialize_row(&bytes).unwrap();
    assert_eq!(back.id(), 7);
    assert_eq!(back.username(), row.username());
    assert_eq!(back.email(), row.email());
    assert_eq!(back.username_text(), b"ab".to_vec());
    assert_eq!(back.email_text(), b"cd@ef".to_vec());
}

#[test]
fn row_codec_rejects_short_input() {
    assert!(matches!(deserialize_row(&vec![1u8, 2, 3]), Err(DbError::CorruptFile)));
}

#[test]
fn page_image_round_trip() {
    let page = Page::new_leaf(true);
    let image = page.flush();
    assert_eq!(image.len(), PAGE_SIZE);
    let back = Page::new(image).expect("a flushed page must parse");
    assert!(back.is_leaf());
    assert!(back.is_root());
    assert_eq!(back.num_cells(), 0);
    assert_eq!(back.next_sibling_num(), 0);
}

#[test]
fn corrupt_and_oversized_files() {
    assert!(matches!(Table::new(vec![0u8; 5]), Err(DbError::CorruptFile)));
    assert!(matches!(Table::new(vec![0u8; PAGE_SIZE]), Err(DbError::CorruptFile)));
    assert!(matches!(Table::new(vec![0u8; 4 * PAGE_SIZE]), Err(DbError::OutOfCapacity)));
}

#[test]
fn split_internal_unsupported() {
    // An internal page cannot be split by the one-level engine.
    let mut bytes = vec![0u8; PAGE_SIZE];
    bytes[0] = 2;  // internal
    bytes[1] = 66;  // non-root
    let mut page = Page::new(bytes).expect("an empty internal page parses");
    assert!(matches!(page.split(), Err(DbError::Unsupported)));
}

#[test]
fn decimal_rendering() {
    assert_eq!(i32_to_decimal(0), b"0".to_vec());
    assert_eq!(i32_to_decimal(9), b"9".to_vec());
    assert_eq!(i32_to_decimal(10), b"10".to_vec());
    assert_eq!(i32_to_decimal(-123), b"-123".to_vec());
    assert_eq!(i32_to_decimal(2147483647), b"2147483647".to_vec());
    assert_eq!(i32_to_decimal(i32::MIN), b"-2147483648".to_vec());
}

#[test]
fn console_render() {
    let row = InsertStatement::new(1, &b"ashishnegi".to_vec(), &b"abc@abc.com".to_vec()).unwrap();
    let sink = ConsoleOutFn::new();
    assert_eq!(sink.render(&row), b"1, ashishnegi, abc@abc.com".to_vec());
}

#[test]
fn assert_sink_counts() {
    let mut table = fresh_table();
    for id in 1..=5 {
        assert!(insert_id(&mut table, id).is_ok());
    }
    let mut sink = AssertSelectOutFn::new(1);
    match cmd(&mut table, "select") {
        Ok(CommandOutput::Rows(rows)) => {
            for row in rows.iter() {
                assert!(sink.outfn(row), "ids must arrive consecutively");
            }
        }
        _ => panic!("select failed"),
    }
    assert_eq!(sink.count(), 6);
}

#[test]
fn capacity_fits_two_leaves() {
    // Any order that balances the two leaves reaches 2 * 28 rows.
    let mut table = fresh_table();
    for id in 1..=28 {
        assert!(insert_id(&mut table, id).is_ok(), "insert {} failed", id);
    }
    for id in 29..=42 {
        assert!(insert_id(&mut table, id).is_ok(), "insert {} failed", id);
    }
    for id in (-13..=0).rev() {
        assert!(insert_id(&mut table, id).is_ok(), "insert {} failed", id);
    }
    assert_eq!(select_ids(&mut table).len(), 2 * CELLS_PER_PAGE);
    assert!(matches!(insert_id(&mut table, 100), Err(DbError::OutOfCapacity)));
}
