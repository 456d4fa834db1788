use connect_four::ai::AiKind;
use connect_four::play::{board_from_moves, Action, App, Controller, Input, MovesError, Player};

#[test]
fn board_from_moves_ignores_other_characters() {
    let b = board_from_moves("4a4 5x9").unwrap();
    assert_eq!(b.nplies, 3);
    assert_eq!(&b.moves[..3], &[3, 3, 4]);
}

#[test]
fn board_from_moves_reports_full_column() {
    match board_from_moves("1111111") {
        Err(e) => assert_eq!(e, MovesError { column: 1, position: 7 }),
        Ok(_) => panic!("a seventh coin in one column must be refused"),
    }
    match board_from_moves("7x777777") {
        Err(e) => assert_eq!(e, MovesError { column: 7, position: 8 }),
        Ok(_) => panic!("a seventh coin in one column must be refused"),
    }
}

#[test]
fn player_from_side() {
    assert_eq!(Player::from_side(0), Player::Player1);
    assert_eq!(Player::from_side(1), Player::Player2);
    assert_eq!(Player::Player2.index(), 1);
}

#[test]
fn controller_names() {
    assert_eq!(Controller::Human.name(), "Human");
    assert_eq!(Controller::Ai(AiKind::Perfect).name(), "Perfect");
    assert_eq!(Controller::Ai(AiKind::Minimax).name(), "MiniMax");
    assert_eq!(Controller::Ai(AiKind::Mcts).name(), "MCTS");
}

fn drop_in(app: &mut App, col: usize) {
    app.selected_column = col;
    app.try_drop_coin();
    while app.falling_coin.is_some() {
        app.update();
    }
}

#[test]
fn coin_falls_then_lands() {
    let mut app = App::new([Controller::Human, Controller::Human]);
    app.try_drop_coin();
    let coin = app.falling_coin.unwrap();
    assert_eq!((coin.col, coin.animation_tenths, coin.target_row), (3, 50, 0));
    let mut ticks = 0;
    while app.falling_coin.is_some() {
        app.update();
        ticks += 1;
    }
    assert_eq!(ticks, 7);
    assert_eq!(app.board.nplies, 1);
    assert_eq!(app.cell(0, 3), Some(Player::Player1));
    assert_eq!(app.current_turn(), Player::Player2);
}

#[test]
fn win_is_detected_and_tallied_and_restart_keeps_tally() {
    let mut app = App::new([Controller::Human, Controller::Human]);
    for &col in &[0usize, 6, 1, 6, 2, 6, 3] {
        drop_in(&mut app, col);
    }
    assert_eq!(app.winner, Some(Player::Player1));
    assert_eq!(app.wins, [1, 0]);
    // no more moves once the game is won
    app.selected_column = 5;
    app.try_drop_coin();
    assert!(app.falling_coin.is_none());
    app.try_restart();
    assert_eq!(app.winner, None);
    assert_eq!(app.board.nplies, 0);
    assert_eq!(app.wins, [1, 0]);
}

#[test]
fn preloaded_finished_position_is_recognized() {
    let b = board_from_moves("1727374").unwrap();
    let app = App::from_position(b, [Controller::Human, Controller::Human]);
    assert_eq!(app.winner, Some(Player::Player1));
    assert_eq!(app.wins, [0, 0]);
}

#[test]
fn cursor_moves_within_board() {
    let mut app = App::new([Controller::Human, Controller::Human]);
    assert_eq!(app.selected_column, 3);
    app.move_left();
    assert_eq!(app.selected_column, 2);
    app.move_right();
    app.move_right();
    assert_eq!(app.selected_column, 4);
    for _ in 0..10 {
        app.move_right();
    }
    assert_eq!(app.selected_column, 6);
    for _ in 0..10 {
        app.move_left();
    }
    assert_eq!(app.selected_column, 0);
}

#[test]
fn step_quit_changes_nothing() {
    let mut app = App::new([Controller::Human, Controller::Human]);
    assert_eq!(app.step(Input::Quit, false), Action::Quit);
    assert_eq!(app.selected_column, 3);
    assert!(app.falling_coin.is_none());
}

#[test]
fn step_moves_cursor_and_drops_for_a_human() {
    let mut app = App::new([Controller::Human, Controller::Human]);
    assert_eq!(app.step(Input::Left, false), Action::Continue);
    assert_eq!(app.selected_column, 2);
    assert_eq!(app.step(Input::Drop, false), Action::Continue);
    let coin = app.falling_coin.unwrap();
    // the drop and one tick of the fall happen in the same frame
    assert_eq!((coin.col, coin.animation_tenths, coin.target_row), (2, 41, 0));
    for _ in 0..10 {
        app.step(Input::Tick, false);
    }
    assert!(app.falling_coin.is_none());
    assert_eq!(app.cell(0, 2), Some(Player::Player1));
}

#[test]
fn step_ignores_keys_and_requests_search_on_an_ai_turn() {
    let mut app = App::new([Controller::Ai(AiKind::Minimax), Controller::Human]);
    assert_eq!(app.step(Input::Left, false), Action::Search(0));
    assert_eq!(app.selected_column, 3);
    assert_eq!(app.step(Input::Drop, true), Action::Poll);
    assert!(app.falling_coin.is_none());
    app.apply_ai_move(Some(5));
    assert_eq!(app.selected_column, 5);
    assert_eq!(app.falling_coin.unwrap().col, 5);
    assert_eq!(app.step(Input::Tick, false), Action::Continue);
}

#[test]
fn apply_ai_move_none_changes_nothing() {
    let mut app = App::new([Controller::Ai(AiKind::Mcts), Controller::Human]);
    app.apply_ai_move(None);
    assert_eq!(app.selected_column, 3);
    assert!(app.falling_coin.is_none());
}
