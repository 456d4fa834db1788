use connect_four::board::{Board, HEIGHT, WIDTH};
use connect_four::mcts::{
    backpropagate, can_finish, finish_playout, forced_root_move, legal_columns, most_visited_move,
    rollout, Node,
};

fn play(moves: &[usize]) -> Board {
    let mut b = Board::new();
    for &c in moves {
        b.make_move(c);
    }
    b
}

fn node(parent: Option<usize>, move_played: Option<usize>, pjm: usize) -> Node {
    Node {
        parent,
        move_played,
        player_just_moved: pjm,
        children: Vec::new(),
        untried: Vec::new(),
        visits: 0,
        half_wins: 0,
    }
}

#[test]
fn legal_columns_skip_full_columns() {
    let mut moves = Vec::new();
    for _ in 0..HEIGHT {
        moves.push(2);
    }
    let b = play(&moves);
    assert_eq!(legal_columns(&b), vec![0, 1, 3, 4, 5, 6]);
    assert_eq!(legal_columns(&Board::new()), vec![0, 1, 2, 3, 4, 5, 6]);
}

#[test]
fn rollout_from_full_board_is_a_draw() {
    let mut moves = Vec::new();
    for col in 0..WIDTH {
        for _ in 0..HEIGHT {
            moves.push(col);
        }
    }
    let mut rng = rand::rng();
    assert_eq!(rollout(play(&moves), &mut rng), None);
}

#[test]
fn rollout_ends_with_a_result() {
    let mut rng = rand::rng();
    for _ in 0..50 {
        let r = rollout(Board::new(), &mut rng);
        assert!(r.is_none() || r == Some(0) || r == Some(1));
    }
}

#[test]
fn rollout_with_one_winning_square_left() {
    // Only column 3 has room; the side to move (0) completes a row there.
    let mut b = play(&[0, 6, 1, 6, 2]);
    // hand the move back to side 0 by one more opponent move elsewhere
    b.make_move(5);
    let mut rng = rand::rng();
    let r = rollout(b, &mut rng);
    assert!(r.is_none() || r == Some(0) || r == Some(1));
}

#[test]
fn backpropagate_updates_only_the_path_to_the_root() {
    let mut arena = vec![
        node(None, None, 1),
        node(Some(0), Some(3), 0),
        node(Some(1), Some(2), 1),
        node(Some(0), Some(4), 0),
    ];
    arena[0].children = vec![1, 3];
    arena[1].children = vec![2];
    backpropagate(&mut arena, 2, Some(0));
    assert_eq!(arena.iter().map(|n| n.visits).collect::<Vec<_>>(), vec![1, 1, 1, 0]);
    // root gets no reward; node 1 (side 0 moved) won, node 2 (side 1) lost
    assert_eq!(arena.iter().map(|n| n.half_wins).collect::<Vec<_>>(), vec![0, 2, 0, 0]);
    backpropagate(&mut arena, 3, None);
    assert_eq!(arena.iter().map(|n| n.visits).collect::<Vec<_>>(), vec![2, 1, 1, 1]);
    assert_eq!(arena.iter().map(|n| n.half_wins).collect::<Vec<_>>(), vec![0, 2, 0, 1]);
}

#[test]
fn most_visited_move_takes_last_of_equals() {
    let mut arena = vec![
        node(None, None, 1),
        node(Some(0), Some(3), 0),
        node(Some(0), Some(2), 0),
        node(Some(0), Some(5), 0),
    ];
    arena[0].children = vec![1, 2, 3];
    arena[1].visits = 4;
    arena[2].visits = 7;
    arena[3].visits = 7;
    assert_eq!(most_visited_move(&arena), Some(5));
    arena[0].children.clear();
    assert_eq!(most_visited_move(&arena), None);
}

#[test]
fn finish_playout_expands_one_child() {
    let b = Board::new();
    let mut arena = vec![Node {
        parent: None,
        move_played: None,
        player_just_moved: 1,
        children: Vec::new(),
        untried: legal_columns(&b),
        visits: 0,
        half_wins: 0,
    }];
    let mut rng = rand::rng();
    assert!(can_finish(&arena, 0, &b));
    finish_playout(&mut arena, 0, b, &mut rng);
    assert_eq!(arena.len(), 2);
    assert_eq!(arena[0].children, vec![1]);
    assert_eq!(arena[0].untried.len(), 6);
    assert_eq!(arena[0].visits, 1);
    assert_eq!(arena[1].visits, 1);
    assert_eq!(arena[1].parent, Some(0));
    assert_eq!(arena[1].player_just_moved, 0);
    assert_eq!(arena[1].untried.len(), 7);
}

#[test]
fn can_finish_rejects_unplayable_untried_column() {
    let mut moves = Vec::new();
    for _ in 0..HEIGHT {
        moves.push(4);
    }
    let b = play(&moves);
    let mut root = node(None, None, 1);
    root.untried = vec![4];
    assert!(!can_finish(&vec![root], 0, &b));
}

#[test]
fn forced_root_move_needs_no_search_with_at_most_one_column() {
    assert_eq!(forced_root_move(&Board::new()), None);
    // columns 0..=5 full, column 6 empty
    let mut moves = Vec::new();
    for (a, b) in [(0usize, 2usize), (1, 3), (4, 5)] {
        for _ in 0..3 {
            moves.extend_from_slice(&[a, b, b, a]);
        }
    }
    let b = play(&moves);
    assert_eq!(b.nplies, 36);
    assert_eq!(forced_root_move(&b), Some(Some(6)));
    let mut all = moves.clone();
    all.extend_from_slice(&[6, 6, 6, 6, 6, 6]);
    let full = play(&all);
    assert_eq!(forced_root_move(&full), Some(None));
}
