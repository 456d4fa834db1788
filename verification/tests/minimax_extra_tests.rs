use connect_four::board::{Board, HEIGHT, WIDTH};
use connect_four::minimax::MinimaxAi;

fn play(moves: &[usize]) -> Board {
    let mut b = Board::new();
    for &c in moves {
        b.make_move(c);
    }
    b
}

#[test]
fn blocks_opponent_threat() {
    // Side 1 to move; side 0 threatens to complete the bottom row at column 3.
    let b = play(&[0, 6, 1, 6, 2]);
    assert_eq!(MinimaxAi::new(2).best_move(&b), Some(3));
}

#[test]
fn full_board_has_no_move() {
    let mut moves = Vec::new();
    for col in 0..WIDTH {
        for _ in 0..HEIGHT {
            moves.push(col);
        }
    }
    let b = play(&moves);
    assert_eq!(MinimaxAi::new(3).best_move(&b), None);
}

#[test]
fn depth_zero_picks_best_static_evaluation() {
    // On the empty board the center column is the best single move.
    assert_eq!(MinimaxAi::new(0).best_move(&Board::new()), Some(3));
    assert_eq!(MinimaxAi::new(1).best_move(&Board::new()), Some(3));
}

#[test]
fn default_depth_is_eight() {
    assert_eq!(MinimaxAi::default().depth, 8);
}
