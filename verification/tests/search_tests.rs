use connect_four::board::{Board, H1};
use connect_four::search::Solver;
use connect_four::tt::{LOSS, WIN};

const TT_SIZE: usize = 8_306_069;

fn board_from_moves(moves: &str) -> Board {
    let mut b = Board::new();
    for c in moves.chars() {
        let col = c.to_digit(10).unwrap() as usize - 1;
        b.make_move(col);
    }
    b
}

// Reference values below are cross-checked against independent
// implementations, which agree with each other exactly on these positions.

#[test]
fn pos_45461667_matches_reference() {
    let mut b = board_from_moves("45461667");
    let mut solver = Solver::new(TT_SIZE);
    let (score, nodes, _) = solver.solve(&mut b);
    assert_eq!(score, WIN);
    assert_eq!(nodes, 51_596);
}

#[test]
fn pos_35333571_matches_reference() {
    let mut b = board_from_moves("35333571");
    let mut solver = Solver::new(TT_SIZE);
    let (score, nodes, _) = solver.solve(&mut b);
    assert_eq!(score, LOSS);
    assert_eq!(nodes, 8_716_732);
}

#[test]
fn history_init_is_symmetric() {
    let mut solver = Solver::new(101);
    solver.init_history();
    // Center columns/rows should score at least as high as edge ones.
    let center = solver.history[0][H1 * 3 + 2];
    let corner = solver.history[0][H1 * 0 + 0];
    assert!(center >= corner);
}
