use connect_four::board::{Board, HEIGHT, WIDTH};
use connect_four::search::{candidates, format_moves, intlog, pick_next_move, Candidates, Solver};
use connect_four::tt::{DRAW, LOSS, WIN};

fn play(moves: &[usize]) -> Board {
    let mut b = Board::new();
    for &c in moves {
        b.make_move(c);
    }
    b
}

#[test]
fn intlog_is_floor_log2() {
    assert_eq!(intlog(0), 0);
    assert_eq!(intlog(1), 0);
    assert_eq!(intlog(2), 1);
    assert_eq!(intlog(3), 1);
    assert_eq!(intlog(1024), 10);
    assert_eq!(intlog(1025), 10);
    assert_eq!(intlog(u64::MAX), 63);
}

#[test]
fn format_moves_is_one_based() {
    assert_eq!(format_moves(&play(&[0, 3, 6])), "147");
    assert_eq!(format_moves(&Board::new()), "");
}

#[test]
fn candidates_on_empty_board_are_all_columns() {
    match candidates(&Board::new()) {
        Candidates::Open(av, n) => {
            assert_eq!(n, WIDTH);
            assert_eq!(av, [0, 1, 2, 3, 4, 5, 6]);
        }
        Candidates::Forced(_) => panic!("empty board is not forced"),
    }
}

#[test]
fn candidates_force_the_block_of_a_single_threat() {
    // side 0 has three on the bottom row (cols 0..2); side 1 to move must block col 3.
    let b = play(&[0, 6, 1, 6, 2]);
    match candidates(&b) {
        Candidates::Open(av, n) => {
            assert_eq!(n, 1);
            assert_eq!(av[0], 3);
        }
        Candidates::Forced(_) => panic!("a single threat can be blocked"),
    }
}

#[test]
fn candidates_detect_unstoppable_double_threat() {
    // side 0 has (1,0),(2,0),(3,0) with both ends open; side 1 to move is lost.
    let b = play(&[1, 6, 2, 6, 3]);
    match candidates(&b) {
        Candidates::Forced(score) => assert_eq!(score, LOSS),
        Candidates::Open(..) => panic!("double threat must be forced"),
    }
}

#[test]
fn pick_next_move_prefers_earliest_of_equal_values() {
    let b = Board::new();
    let mut history = [0i32; 49];
    history[14] = 5; // column 2, bottom row
    history[28] = 5; // column 4, bottom row
    let mut av = [0, 1, 2, 3, 4, 5, 6];
    let chosen = pick_next_move(&history, &b, &mut av, 0, 7);
    assert_eq!(chosen, 2);
    assert_eq!(av, [2, 0, 1, 3, 4, 5, 6]);
    let chosen = pick_next_move(&history, &b, &mut av, 1, 7);
    assert_eq!(chosen, 4);
    assert_eq!(av, [2, 4, 0, 1, 3, 5, 6]);
}

#[test]
fn solve_reports_immediate_win_without_search() {
    let mut b = play(&[0, 6, 1, 6, 2, 5]);
    let mut solver = Solver::new(1009);
    assert_eq!(solver.solve(&mut b), (WIN, 0, 1));
}

#[test]
fn solve_reports_loss_when_opponent_already_won() {
    let mut b = play(&[0, 6, 1, 6, 2, 6, 3]);
    let mut solver = Solver::new(1009);
    assert_eq!(solver.solve(&mut b), (LOSS, 0, 1));
}

#[test]
fn solve_leaves_board_unchanged() {
    let mut b = play(&[3, 4, 3, 5, 0, 5, 5, 6]);
    let before = (b.color, b.height, b.nplies);
    let mut solver = Solver::new(100_003);
    let (score, nodes, ms) = solver.solve(&mut b);
    assert!(LOSS <= score && score <= WIN);
    assert!(nodes >= 1);
    assert!(ms >= 1);
    assert_eq!((b.color, b.height, b.nplies), before);
}

#[test]
fn solve_of_nearly_full_board_is_draw() {
    // Fill columns 0..=5 completely then leave column 6 with one square.
    let mut moves = Vec::new();
    for col in [0usize, 2, 4, 1, 3, 5] {
        for _ in 0..HEIGHT {
            moves.push(col);
        }
    }
    for _ in 0..HEIGHT - 1 {
        moves.push(6);
    }
    let mut b = play(&moves);
    let mut solver = Solver::new(1009);
    let opponent_won = Board::has_won(b.color[b.side() ^ 1]);
    let (score, _, _) = solver.solve(&mut b);
    if !opponent_won {
        assert!(score == DRAW || score == WIN);
    }
}

#[test]
fn best_move_takes_immediate_win() {
    let mut b = play(&[0, 6, 1, 6, 2, 5]);
    let mut solver = Solver::new(1009);
    assert_eq!(solver.best_move(&mut b), Some(3));
}

#[test]
fn best_move_blocks_single_threat() {
    let mut b = play(&[0, 6, 1, 6, 2]);
    let mut solver = Solver::new(100_003);
    assert_eq!(solver.best_move(&mut b), Some(3));
}

#[test]
fn best_move_on_full_board_is_none() {
    let mut moves = Vec::new();
    for col in 0..WIDTH {
        for _ in 0..HEIGHT {
            moves.push(col);
        }
    }
    let mut b = play(&moves);
    let mut solver = Solver::new(1009);
    assert_eq!(solver.best_move(&mut b), None);
}

#[test]
fn new_solver_history_is_seeded_symmetrically() {
    let solver = Solver::new(11);
    for side in 0..2 {
        for c in 0..7 {
            for r in 0..6 {
                let v = solver.history[side][7 * c + r];
                assert_eq!(v, solver.history[side][7 * (6 - c) + r]);
                assert_eq!(v, solver.history[side][7 * c + (5 - r)]);
            }
            assert_eq!(solver.history[side][7 * c + 6], 0);
        }
    }
    // corner, center
    assert_eq!(solver.history[0][0], 3);
    assert_eq!(solver.history[0][7 * 3 + 2], 13);
}

#[test]
fn verbose_solve_records_nodes_near_the_root() {
    let mut b = play(&[3, 4, 3, 5, 0, 5, 5, 6]);
    let mut solver = Solver::new(100_003);
    solver.verbose = true;
    let (score, _, _) = solver.solve(&mut b);
    assert!(!solver.report.is_empty());
    for entry in &solver.report {
        assert!(entry.moves.starts_with("45461667"));
        assert!(entry.moves.len() <= 10);
        assert!(LOSS <= entry.score && entry.score <= WIN);
    }
    let root = solver.report.last().unwrap();
    assert_eq!(root.moves, "45461667");
    assert_eq!(root.score, score);
}

#[test]
fn ab_must_block_position_wins_after_one_forced_reply() {
    let mut s = Solver::new(8306069);
    let mut b = play(&[1, 4, 2, 5, 4, 6, 5, 1, 6, 2]);
    let before = (b.color, b.height, b.nplies);
    let n0 = s.nodes;
    let p0 = s.tt.posed;
    assert_eq!(s.ab(&mut b, LOSS, WIN), WIN);
    assert_eq!(s.nodes, n0 + 2);
    assert_eq!(s.tt.posed, p0);
    assert_eq!((b.color, b.height, b.nplies), before);
}

#[test]
fn ab_double_threat_is_lost_without_search() {
    let mut s = Solver::new(8306069);
    let mut b = play(&[2, 0, 3, 0, 4]);
    let n0 = s.nodes;
    assert_eq!(s.ab(&mut b, LOSS, WIN), LOSS);
    assert_eq!(s.nodes, n0 + 1);
}

#[test]
fn solve_of_full_board_is_draw() {
    let mut moves: Vec<usize> = Vec::new();
    for (a, b) in [(0usize, 2usize), (1, 3), (4, 6)] {
        for _ in 0..3 {
            moves.extend_from_slice(&[a, b, b, a]);
        }
    }
    moves.extend_from_slice(&[5, 5, 5, 5, 5, 5]);
    let full = play(&moves);
    assert_eq!(full.nplies, 42);
    assert!(!Board::has_won(full.color[0]) && !Board::has_won(full.color[1]));
    let mut b = full;
    let mut s = Solver::new(101);
    assert_eq!(s.solve(&mut b).0, DRAW);
    let mut last = play(&moves[..41]);
    assert_eq!(s.solve(&mut last).0, DRAW);
}
