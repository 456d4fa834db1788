use connect_four::board::Board;
use connect_four::tt::{TransTable, DRAW, LOSS, UNKNOWN, WIN};

#[test]
fn empty_table_lookup_is_unknown() {
    let tt = TransTable::new(101);
    assert_eq!(tt.lookup(0, 12345), UNKNOWN);
}

#[test]
fn store_then_lookup_round_trip() {
    let mut tt = TransTable::new(101);
    tt.store(5, 999, WIN, 3);
    assert_eq!(tt.lookup(5, 999), WIN);
    // Different lock at the same bucket must miss.
    assert_eq!(tt.lookup(5, 1000), UNKNOWN);
}

#[test]
fn low_work_store_goes_to_new_slot_not_big() {
    let mut tt = TransTable::new(101);
    tt.store(0, 111, WIN, 10); // occupies "big" (nothing there yet, work>=0)
    tt.store(0, 222, LOSS, 2); // lower work, different lock -> "new" slot only
    assert_eq!(tt.lookup(0, 111), WIN); // big slot survives
    assert_eq!(tt.lookup(0, 222), LOSS); // new slot holds the second entry
}

#[test]
fn higher_work_store_replaces_big_slot() {
    let mut tt = TransTable::new(101);
    tt.store(0, 111, WIN, 2);
    tt.store(0, 222, LOSS, 9); // higher work -> takes over "big"
    assert_eq!(tt.lookup(0, 222), LOSS);
    assert_eq!(tt.lookup(0, 111), UNKNOWN); // evicted from big, wasn't in new
}

#[test]
fn same_lock_update_replaces_big_regardless_of_work() {
    let mut tt = TransTable::new(101);
    tt.store(0, 111, DRAW, 20);
    tt.store(0, 111, WIN, 0); // same lock, low work -> still updates big
    assert_eq!(tt.lookup(0, 111), WIN);
}

#[test]
fn clear_resets_table_and_posed_count() {
    let mut tt = TransTable::new(50);
    tt.store(0, 111, WIN, 5);
    assert_eq!(tt.posed, 1);
    tt.clear();
    assert_eq!(tt.posed, 0);
    assert_eq!(tt.lookup(0, 111), UNKNOWN);
}

#[test]
fn hash_key_stable_for_same_position() {
    let tt = TransTable::new(8306069);
    let b = Board::new();
    let (lock1, idx1) = tt.hash_key(&b);
    let (lock2, idx2) = tt.hash_key(&b);
    assert_eq!((lock1, idx1), (lock2, idx2));
}

#[test]
fn hash_key_index_in_bounds() {
    let tt = TransTable::new(8306069);
    let mut b = Board::new();
    for &col in &[3usize, 2, 4, 3, 5] {
        b.make_move(col);
        let (_, idx) = tt.hash_key(&b);
        assert!(idx < tt.len());
    }
}
