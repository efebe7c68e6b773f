use std::collections::hash_map::DefaultHasher;
use std::hash::{Hash, Hasher};

use sqliters::consts::{CELLS_PER_PAGE, TABLE_MAX_ROWS};

#[test]
fn test_consts() {
    assert!(TABLE_MAX_ROWS == 84, "TABLE_MAX_ROWS {}", TABLE_MAX_ROWS);
    assert!(CELLS_PER_PAGE == 28, "CELLS_PER_PAGE {}", CELLS_PER_PAGE);
}

#[test]
fn hash() {
    let ashish_hash;
    let ashish_negi_hash;
    let mut s = DefaultHasher::new();
    "ashish".hash(&mut s);
    ashish_hash = s.finish();

    let mut s = DefaultHasher::new();
    "ashish negi".hash(&mut s);
    ashish_negi_hash = s.finish();

    assert!(ashish_hash != ashish_negi_hash);
}
