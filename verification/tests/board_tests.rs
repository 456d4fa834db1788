use connect_four::board::{Board, H1, HEIGHT, WIDTH};

#[test]
fn reset_heights_match_column_starts() {
    let b = Board::new();
    for i in 0..WIDTH {
        assert_eq!(b.height[i], (H1 * i) as u8);
    }
    assert_eq!(b.nplies, 0);
    assert_eq!(b.color, [0, 0]);
}

#[test]
fn make_unmake_round_trip_restores_state() {
    let mut b = Board::new();
    let before = (b.color, b.height, b.nplies);
    for &col in &[3usize, 3, 2, 4, 4, 4] {
        b.make_move(col);
    }
    for _ in 0..6 {
        b.unmake_move();
    }
    assert_eq!((b.color, b.height, b.nplies), before);
}

#[test]
fn no_win_on_empty_board() {
    assert!(!Board::has_won(0));
}

#[test]
fn vertical_win_detected() {
    let mut b = Board::new();
    // Four stacked stones for side 0 in column 0: plies 0,2,4,6 are side 0's moves
    // (side alternates each ply), so play col 0 alternated with col 1.
    for _ in 0..4 {
        b.make_move(0); // side 0
        if b.nplies < 7 {
            b.make_move(1); // side 1, elsewhere, avoid interfering
        }
    }
    assert!(Board::has_won(b.color[0]));
}

#[test]
fn horizontal_win_detected() {
    let mut b = Board::new();
    b.make_move(0); // side0 col0
    b.make_move(0); // side1 col0
    b.make_move(1); // side0 col1
    b.make_move(1); // side1 col1
    b.make_move(2); // side0 col2
    b.make_move(2); // side1 col2
    b.make_move(3); // side0 col3
    assert!(Board::has_won(b.color[0]));
}

#[test]
fn overflow_column_is_illegal() {
    let mut b = Board::new();
    // Fill column 0 to the top (HEIGHT stones), alternating opponent moves elsewhere.
    for _ in 0..HEIGHT {
        b.make_move(0);
        b.make_move(6); // keep alternation away from column 0
    }
    // One more stone in column 0 would overflow into the guard row.
    let overflow = b.color[b.side()] | (1u64 << b.height[0]);
    assert!(!Board::is_legal(overflow));
}

#[test]
fn position_code_changes_with_moves() {
    let mut b = Board::new();
    let code0 = b.position_code();
    b.make_move(3);
    let code1 = b.position_code();
    assert_ne!(code0, code1);
}
