use connect_four::board::{Board, HEIGHT, SIZE, WIDTH};

fn play(moves: &[usize]) -> Board {
    let mut b = Board::new();
    for &c in moves {
        b.make_move(c);
    }
    b
}

#[test]
fn unmake_restores_every_prefix() {
    let moves = [3usize, 2, 3, 4, 0, 6, 6, 1, 3];
    let mut snapshots = Vec::new();
    let mut b = Board::new();
    for &c in &moves {
        snapshots.push((b.color, b.height, b.nplies));
        b.make_move(c);
    }
    for snap in snapshots.into_iter().rev() {
        b.unmake_move();
        assert_eq!((b.color, b.height, b.nplies), snap);
    }
}

#[test]
fn rising_diagonal_win_detected() {
    // side 0 ends with stones at (0,0), (1,1), (2,2), (3,3).
    let b = play(&[0, 1, 1, 2, 2, 3, 2, 3, 3, 6, 3]);
    assert!(Board::has_won(b.color[0]));
    assert!(!Board::has_won(b.color[1]));
}

#[test]
fn falling_diagonal_win_detected() {
    // side 0 ends with stones at (3,0), (2,1), (1,2), (0,3).
    let b = play(&[3, 2, 2, 1, 1, 0, 1, 0, 0, 6, 0]);
    assert!(Board::has_won(b.color[0]));
}

#[test]
fn three_in_a_row_is_not_a_win() {
    let b = play(&[0, 6, 1, 6, 2]);
    assert!(!Board::has_won(b.color[0]));
}

#[test]
fn column_runs_do_not_wrap_across_the_guard_row() {
    // Rows 3..5 of column 0 and row 0 of column 1: not four in a row on the
    // board, and the empty guard square keeps the bitboard test from seeing one.
    let x: u64 = (1 << 3) | (1 << 4) | (1 << 5) | (1 << 7);
    assert!(!Board::has_won(x));
    // With the guard square filled the bits would be contiguous.
    assert!(Board::has_won(x | (1 << 6)));
    assert!(!Board::is_legal(x | (1 << 6)));
}

#[test]
fn playable_until_column_full() {
    let mut b = Board::new();
    for _ in 0..HEIGHT {
        assert!(b.is_playable(2));
        b.make_move(2);
    }
    assert!(!b.is_playable(2));
    assert!(b.is_playable(3));
}

#[test]
fn to_string_lists_zero_based_moves() {
    let b = play(&[3, 3, 2, 4]);
    assert_eq!(b.to_string(), "Moves: 3324");
    assert_eq!(Board::new().to_string(), "Moves: ");
}

#[test]
fn position_code_fits_49_bits_on_full_board() {
    let mut moves = Vec::new();
    for col in 0..WIDTH {
        for _ in 0..HEIGHT {
            moves.push(col);
        }
    }
    let b = play(&moves);
    assert_eq!(b.nplies, SIZE);
    assert!(b.position_code() < (1u64 << 49));
}

#[test]
fn position_code_of_empty_board_is_bottom_row() {
    assert_eq!(Board::new().position_code(), 0x40810204081);
}

#[test]
fn reset_returns_to_empty() {
    let mut b = play(&[1, 2, 3]);
    b.reset();
    assert_eq!(b.nplies, 0);
    assert_eq!(b.color, [0, 0]);
    assert_eq!(b.height, [0, 7, 14, 21, 28, 35, 42]);
    assert_eq!(Board::default().height, b.height);
}

#[test]
fn side_alternates() {
    let mut b = Board::new();
    assert_eq!(b.side(), 0);
    b.make_move(0);
    assert_eq!(b.side(), 1);
    b.make_move(0);
    assert_eq!(b.side(), 0);
}

#[test]
fn position_code_depends_on_position_not_order() {
    let a = play(&[0, 1, 2, 3]);
    let b = play(&[2, 3, 0, 1]);
    assert_eq!(a.position_code(), b.position_code());
    assert_eq!((a.color, a.height, a.nplies), (b.color, b.height, b.nplies));
    // same squares filled, stones swapped between the players
    let c = play(&[1, 0, 3, 2]);
    assert_ne!(a.position_code(), c.position_code());
    // same stones of the mover, different side to move
    let d = play(&[0, 1, 2]);
    let e = play(&[0, 1, 2, 6]);
    assert_ne!(d.position_code(), e.position_code());
}
