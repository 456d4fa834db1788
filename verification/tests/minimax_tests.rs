use connect_four::board::Board;
use connect_four::minimax::MinimaxAi;

fn board_from_moves(moves: &str) -> Board {
    let mut b = Board::new();
    for c in moves.chars() {
        let col = c.to_digit(10).unwrap() as usize - 1;
        b.make_move(col);
    }
    b
}

#[test]
fn takes_immediate_win_when_available() {
    // Side to move has three in a row horizontally at row 0, cols 0-2,
    // with column 3 open -- col4 (1-indexed) completes it.
    let mut b = board_from_moves("");
    for &(col, opponent_col) in &[(0, 4), (1, 4), (2, 4)] {
        b.make_move(col);
        b.make_move(opponent_col);
    }
    let ai = MinimaxAi::new(4);
    assert_eq!(ai.best_move(&b), Some(3));
}

#[test]
fn always_returns_a_legal_column() {
    let b = board_from_moves("445544554455"); // arbitrary midgame position
    let ai = MinimaxAi::new(3);
    let mv = ai.best_move(&b).expect("board isn't full");
    assert!(b.is_playable(mv));
}
