use connect_four::board::Board;
use connect_four::tt::{TransTable, DRAW, DRAWWIN, LOSS, UNKNOWN, WIN};

fn play(moves: &[usize]) -> Board {
    let mut b = Board::new();
    for &c in moves {
        b.make_move(c);
    }
    b
}

#[test]
fn mirror_positions_share_hash_key() {
    let tt = TransTable::new(8306069);
    assert_eq!(tt.hash_key(&play(&[0])), tt.hash_key(&play(&[6])));
    assert_eq!(tt.hash_key(&play(&[0, 1, 2])), tt.hash_key(&play(&[6, 5, 4])));
    assert_ne!(tt.hash_key(&play(&[0])), tt.hash_key(&play(&[1])));
}

#[test]
fn mirror_normalization_stops_after_symmrec_plies() {
    let tt = TransTable::new(8306069);
    let left = [0usize, 0, 0, 1, 1, 1, 2, 2, 2, 3];
    let right = [6usize, 6, 6, 5, 5, 5, 4, 4, 4, 3];
    assert_ne!(tt.hash_key(&play(&left)), tt.hash_key(&play(&right)));
    assert_eq!(tt.hash_key(&play(&left[..9])), tt.hash_key(&play(&right[..9])));
}

#[test]
fn lock_fits_26_bits_and_index_in_range() {
    let tt = TransTable::new(1009);
    let mut b = Board::new();
    for &c in &[3usize, 3, 3, 3, 3, 3, 2, 4, 2, 4, 6, 0] {
        b.make_move(c);
        let (lock, idx) = tt.hash_key(&b);
        assert!(lock < (1 << 26));
        assert!(idx < 1009);
    }
}

#[test]
fn lower_work_store_keeps_big_entry_and_replaces_new() {
    let mut tt = TransTable::new(7);
    tt.store(3, 10, WIN, 20);
    tt.store(3, 11, DRAW, 1);
    tt.store(3, 12, LOSS, 1); // overwrites the new entry only
    assert_eq!(tt.lookup(3, 10), WIN);
    assert_eq!(tt.lookup(3, 11), UNKNOWN);
    assert_eq!(tt.lookup(3, 12), LOSS);
    assert_eq!(tt.posed, 3);
}

#[test]
fn big_store_keeps_new_entry() {
    let mut tt = TransTable::new(7);
    tt.store(1, 5, WIN, 9);
    tt.store(1, 6, DRAWWIN, 2); // new entry
    tt.store(1, 7, LOSS, 30); // big entry replaced, new entry kept
    assert_eq!(tt.lookup(1, 5), UNKNOWN);
    assert_eq!(tt.lookup(1, 6), DRAWWIN);
    assert_eq!(tt.lookup(1, 7), LOSS);
}

#[test]
fn score_counts_counts_both_entries() {
    let mut tt = TransTable::new(10);
    tt.store(0, 1, WIN, 5);
    tt.store(0, 2, LOSS, 1);
    tt.store(4, 3, WIN, 0);
    tt.store(9, 4, DRAW, 0);
    let counts = tt.score_counts();
    assert_eq!(counts, [0, 1, 0, 1, 0, 2]);
    tt.clear();
    assert_eq!(tt.score_counts(), [0; 6]);
}

#[test]
fn len_and_is_empty() {
    let tt = TransTable::new(13);
    assert_eq!(tt.len(), 13);
    assert!(!tt.is_empty());
    assert!(TransTable::new(0).is_empty());
}

#[test]
fn distinct_positions_get_distinct_keys_in_a_large_table() {
    let tt = TransTable::new(1 << 23);
    let lines: [&[usize]; 6] = [
        &[3, 3, 3, 3, 2, 2, 2, 2, 4, 4],
        &[3, 3, 3, 3, 2, 2, 2, 2, 4, 4, 4],
        &[3, 3, 3, 3, 2, 2, 2, 2, 4, 5],
        &[3, 3, 3, 3, 2, 2, 2, 2, 5, 4],
        &[2, 2, 2, 2, 3, 3, 3, 3, 4, 4],
        &[0, 1, 2, 3, 4, 5, 6, 0, 1, 2],
    ];
    let keys: Vec<(u64, usize)> = lines.iter().map(|m| tt.hash_key(&play(m))).collect();
    for i in 0..keys.len() {
        for j in 0..keys.len() {
            let same_position = play(lines[i]).position_code() == play(lines[j]).position_code();
            assert_eq!(keys[i] == keys[j], same_position, "lines {} and {}", i, j);
        }
    }
}
