use connect_four::board::Board;
use connect_four::eval::{evaluate, winning_windows};

fn play(moves: &[usize]) -> Board {
    let mut b = Board::new();
    for &c in moves {
        b.make_move(c);
    }
    b
}

#[test]
fn every_window_is_four_distinct_squares() {
    let windows = winning_windows();
    for (i, w) in windows.iter().enumerate() {
        assert_eq!(w.count_ones(), 4);
        for v in &windows[i + 1..] {
            assert_ne!(w, v);
        }
    }
}

#[test]
fn single_center_stone_scores_exactly() {
    // The bottom center square lies in 7 windows (4 horizontal, 1 vertical,
    // 1 per diagonal), each worth 1, plus the center bonus of 3.
    let b = play(&[3]);
    assert_eq!(evaluate(&b, 0), 10);
    assert_eq!(evaluate(&b, 1), -10);
}

#[test]
fn evaluation_is_zero_sum() {
    for moves in [&[3usize, 2, 4, 4, 1][..], &[0, 0, 6, 5, 3, 3, 2][..], &[1, 2, 3, 4, 5, 6][..]] {
        let b = play(moves);
        assert_eq!(evaluate(&b, 0), -evaluate(&b, 1));
    }
}

#[test]
fn contested_window_scores_nothing() {
    // Two stones side by side on the bottom row: every window holding both
    // is contested.
    let b = play(&[0, 1]);
    let solo = play(&[0]);
    assert!(evaluate(&b, 0) < evaluate(&solo, 0));
}
