use connect_four::board::{Board, WIDTH};
use connect_four::eval::{evaluate, winning_windows};

#[test]
fn window_count_is_69() {
    assert_eq!(winning_windows().len(), 69);
}

#[test]
fn empty_board_is_neutral() {
    let b = Board::new();
    assert_eq!(evaluate(&b, 0), 0);
    assert_eq!(evaluate(&b, 1), 0);
}

#[test]
fn center_column_piece_favors_its_owner() {
    let mut b = Board::new();
    b.make_move(WIDTH / 2); // side 0 plays center
    assert!(evaluate(&b, 0) > 0);
    assert!(evaluate(&b, 1) < 0);
    // Symmetric from either side's viewpoint.
    assert_eq!(evaluate(&b, 0), -evaluate(&b, 1));
}

#[test]
fn three_in_a_row_scores_higher_than_two() {
    let mut two = Board::new();
    two.make_move(0);
    two.make_move(4); // opponent plays elsewhere, spread out so it
    two.make_move(1); // never builds a threat of its own that would
    two.make_move(5); // confound this comparison

    let mut three = Board::new();
    three.make_move(0);
    three.make_move(4);
    three.make_move(1);
    three.make_move(5);
    three.make_move(2);
    three.make_move(6);

    assert!(evaluate(&three, 0) > evaluate(&two, 0));
}
