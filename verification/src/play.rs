//! Game state of the interactive Connect Four front end: the board, who
//! controls each seat, the running tally, and the coin currently dropping.
//! Each seat is either a human or one of the AI engines.

use vstd::prelude::*;
use crate::ai::AiKind;
use crate::board::{bit, has_four, legal_history, Board, H1, HEIGHT, SIZE, WIDTH};

verus! {

#[derive(Clone, Copy, PartialEq, Eq, Debug, Structural)]
pub enum Player {
    Player1,
    Player2,
}

impl Player {
    /// The player of side `side` (0 moves first).
    pub open spec fn of_side(side: int) -> Player {
        if side == 0 {
            Player::Player1
        } else {
            Player::Player2
        }
    }

    /// Side index of the player: 0 for the first player, 1 for the second.
    pub open spec fn side_index(self) -> int {
        match self {
            Player::Player1 => 0,
            Player::Player2 => 1,
        }
    }

    pub fn from_side(side: usize) -> (p: Self)
        ensures
            p == Player::of_side(side as int),
    {
        if side == 0 {
            Player::Player1
        } else {
            Player::Player2
        }
    }

    /// Side index of the player: 0 for the first player, 1 for the second.
    pub fn index(&self) -> (i: usize)
        ensures
            i == self.side_index(),
    {
        match self {
            Player::Player1 => 0,
            Player::Player2 => 1,
        }
    }
}

#[derive(Clone, Copy, PartialEq, Eq, Debug, Structural)]
pub enum Controller {
    Human,
    Ai(AiKind),
}

impl Controller {
    /// The seat's display name.
    pub fn name(&self) -> (s: &'static str)
        ensures
            *self == Controller::Human ==> s@ == "Human"@,
            *self == Controller::Ai(AiKind::Perfect) ==> s@ == "Perfect"@,
            *self == Controller::Ai(AiKind::Minimax) ==> s@ == "MiniMax"@,
            *self == Controller::Ai(AiKind::Mcts) ==> s@ == "MCTS"@,
    {
        match self {
            Controller::Human => "Human",
            Controller::Ai(AiKind::Perfect) => "Perfect",
            Controller::Ai(AiKind::Minimax) => "MiniMax",
            Controller::Ai(AiKind::Mcts) => "MCTS",
        }
    }
}

/// The 0-based column a character names: the digits 1..=7 name columns,
/// every other character is ignored.
pub open spec fn char_column(c: char) -> Option<u8> {
    if '1' <= c <= '7' {
        Some((c as int - 49) as u8)
    } else {
        None
    }
}

/// The moves a column-digit string spells, in order.
pub open spec fn moves_from_text(t: Seq<char>) -> Seq<u8>
    decreases t.len(),
{
    if t.len() == 0 {
        Seq::empty()
    } else {
        let prev = moves_from_text(t.drop_last());
        match char_column(t.last()) {
            Some(c) => prev.push(c),
            None => prev,
        }
    }
}

/// A legal move sequence stays legal when cut short.
pub proof fn lemma_legal_prefix(s: Seq<u8>, k: int)
    requires
        legal_history(s),
        0 <= k <= s.len(),
    ensures
        legal_history(s.take(k)),
    decreases s.len(),
{
    if k == s.len() {
        assert(s.take(k) =~= s);
    } else {
        assert(s.take(k) =~= s.drop_last().take(k));
        lemma_legal_prefix(s.drop_last(), k);
    }
}

proof fn lemma_text_prefix(t: Seq<char>, k: int, n: int)
    requires
        0 <= k <= n <= t.len(),
    ensures
        moves_from_text(t.take(k)).len() <= moves_from_text(t.take(n)).len(),
        moves_from_text(t.take(k)) == moves_from_text(t.take(n)).take(
            moves_from_text(t.take(k)).len() as int,
        ),
    decreases n - k,
{
    if k == n {
        assert(moves_from_text(t.take(k)) =~= moves_from_text(t.take(n)).take(
            moves_from_text(t.take(k)).len() as int,
        ));
    } else {
        lemma_text_prefix(t, k, n - 1);
        assert(t.take(n).drop_last() =~= t.take(n - 1));
        assert(moves_from_text(t.take(k)) =~= moves_from_text(t.take(n)).take(
            moves_from_text(t.take(k)).len() as int,
        ));
    }
}

/// A column digit that could not be played: its column was already full.
#[derive(Clone, Copy, PartialEq, Eq, Debug, Structural)]
pub struct MovesError {
    /// The digit as written (1-based column).
    pub column: u32,
    /// 1-based position of the offending character.
    pub position: usize,
}

/// Parse a column-digit string into a `Board`, validating each move as
/// it's applied. Characters other than the digits 1..=7 are ignored.
pub fn board_from_moves(spec: &str) -> (r: Result<Board, MovesError>)
    ensures
        r is Ok == legal_history(moves_from_text(spec@)),
        r matches Ok(b) ==> b.wf() && b.history() == moves_from_text(spec@),
        r matches Err(e) ==> {
            &&& 1 <= e.position <= spec@.len()
            &&& legal_history(moves_from_text(spec@.take(e.position - 1)))
            &&& !legal_history(moves_from_text(spec@.take(e.position as int)))
            &&& char_column(spec@[e.position - 1]) == Some((e.column - 1) as u8)
        },
{
    let mut board = Board::new();
    let n = spec.unicode_len();
    let mut i = 0usize;
    proof {
        assert(spec@.take(0) =~= Seq::<char>::empty());
        assert(board.history() =~= Seq::<u8>::empty());
    }
    while i < n
        invariant
            n == spec@.len(),
            i <= n,
            board.wf(),
            board.history() == moves_from_text(spec@.take(i as int)),
        decreases n - i,
    {
        let c = spec.get_char(i);
        proof {
            assert(spec@.take(i + 1).drop_last() =~= spec@.take(i as int));
            assert(spec@.take(i + 1).last() == c);
        }
        if '1' <= c && c <= '7' {
            let col = (c as u32 - 49) as usize;
            proof {
                board.lemma_shape();
                crate::board::lemma_open_column(board, col as int);
            }
            if !board.is_playable(col) {
                proof {
                    assert(moves_from_text(spec@.take(i + 1)) == board.history().push(col as u8));
                    assert(moves_from_text(spec@.take(i + 1)).drop_last() =~= board.history());
                    assert(board.height[col as int] as int == crate::board::replay_height(
                        board.history(),
                        col as int,
                    ));
                    assert(!legal_history(moves_from_text(spec@.take(i + 1))));
                    assert(spec@.take(i as int) == spec@.take(i + 1 - 1));
                    lemma_text_prefix(spec@, i + 1, spec@.len() as int);
                    assert(spec@.take(spec@.len() as int) =~= spec@);
                    if legal_history(moves_from_text(spec@)) {
                        lemma_legal_prefix(
                            moves_from_text(spec@),
                            moves_from_text(spec@.take(i + 1)).len() as int,
                        );
                    }
                }
                return Err(MovesError { column: c as u32 - 48, position: i + 1 });
            }
            board.make_move(col);
        }
        i += 1;
    }
    proof {
        assert(spec@.take(n as int) =~= spec@);
    }
    Ok(board)
}

/// A coin on its way down a column. Its height is kept in tenths of a row.
#[derive(Clone, Copy)]
pub struct FallingCoin {
    pub col: usize,
    pub animation_tenths: u32,
    pub target_row: usize,
}

/// The winner and draw flags a finished position calls for: the first
/// player if they have four in a row, else the second if they do, else a
/// draw on a full board.
pub open spec fn game_over_flags(b: Board, winner: Option<Player>, is_draw: bool) -> (
    Option<Player>,
    bool,
) {
    if has_four(b.color[0]) {
        (Some(Player::Player1), is_draw)
    } else if has_four(b.color[1]) {
        (Some(Player::Player2), is_draw)
    } else if b.nplies == SIZE {
        (winner, true)
    } else {
        (winner, is_draw)
    }
}

pub struct App {
    pub board: Board,
    /// The position the game (re)starts from -- usually empty, but can be a
    /// preloaded midgame position. `try_restart` returns here rather than
    /// always going back to an empty board.
    pub initial_board: Board,
    pub controllers: [Controller; 2],
    pub wins: [u32; 2],
    pub draws: u32,
    pub winner: Option<Player>,
    pub is_draw: bool,
    pub selected_column: usize,
    pub falling_coin: Option<FallingCoin>,
}

/// What the player did during one frame of the interactive game.
#[derive(Clone, Copy, PartialEq, Eq, Debug, Structural)]
pub enum Input {
    Quit,
    Left,
    Right,
    Drop,
    Restart,
    /// No key this frame.
    Tick,
}

/// What the front end should do after a frame.
#[derive(Clone, Copy, PartialEq, Eq, Debug, Structural)]
pub enum Action {
    Continue,
    Quit,
    /// Start a search for the AI seat with this side index.
    Search(usize),
    /// A search is running and a move is awaited: take its reply if ready.
    Poll,
}

/// The seat to move is played by a human.
pub open spec fn human_turn(a: App) -> bool {
    a.controllers[a.board.spec_side()] == Controller::Human
}

/// The game is waiting for a move: no coin falling, no winner, no draw.
pub open spec fn awaiting_move(a: App) -> bool {
    a.falling_coin is None && a.winner is None && !a.is_draw
}

/// `n` is `o` after the key `input`: the cursor and drop keys act only on a
/// human's turn, restart acts always, and a tick or quit changes nothing.
pub open spec fn key_step(o: App, n: App, input: Input) -> bool {
    match input {
        Input::Left => if human_turn(o) {
            moved_left(o, n)
        } else {
            n == o
        },
        Input::Right => if human_turn(o) {
            moved_right(o, n)
        } else {
            n == o
        },
        Input::Drop => if human_turn(o) {
            dropped(o, n)
        } else {
            n == o
        },
        Input::Restart => restarted(o, n),
        _ => n == o,
    }
}

/// Everything but the cursor is the same.
pub open spec fn same_but_cursor(o: App, n: App) -> bool {
    &&& n.board == o.board
    &&& n.falling_coin == o.falling_coin
    &&& n.winner == o.winner
    &&& n.is_draw == o.is_draw
    &&& n.initial_board == o.initial_board
    &&& n.wins == o.wins
    &&& n.draws == o.draws
    &&& n.controllers == o.controllers
}

/// The cursor moved one column left, unless at the left edge.
pub open spec fn moved_left(o: App, n: App) -> bool {
    &&& same_but_cursor(o, n)
    &&& n.selected_column == if o.selected_column > 0 {
        (o.selected_column - 1) as usize
    } else {
        o.selected_column
    }
}

/// The cursor moved one column right, unless at the right edge.
pub open spec fn moved_right(o: App, n: App) -> bool {
    &&& same_but_cursor(o, n)
    &&& n.selected_column == if o.selected_column + 1 < WIDTH {
        (o.selected_column + 1) as usize
    } else {
        o.selected_column
    }
}

/// A coin starts falling in the selected column if the game is on, no coin
/// is falling and the column has room; nothing else changes.
pub open spec fn dropped(o: App, n: App) -> bool {
    let col = o.selected_column as int;
    &&& if o.falling_coin is None && o.winner is None && !o.is_draw && o.board.has_room(col) {
        n.falling_coin == Some(
            FallingCoin {
                col: col as usize,
                animation_tenths: 50,
                target_row: o.board.stones_in(col) as usize,
            },
        )
    } else {
        n.falling_coin == o.falling_coin
    }
    &&& n.board == o.board
    &&& n.selected_column == o.selected_column
    &&& n.winner == o.winner
    &&& n.is_draw == o.is_draw
    &&& n.initial_board == o.initial_board
    &&& n.wins == o.wins
    &&& n.draws == o.draws
    &&& n.controllers == o.controllers
}

/// The game went back to its starting position, keeping the tally.
pub open spec fn restarted(o: App, n: App) -> bool {
    &&& n.board == o.initial_board
    &&& (n.winner, n.is_draw) == game_over_flags(o.initial_board, None, false)
    &&& n.falling_coin is None
    &&& n.selected_column == WIDTH / 2
    &&& n.initial_board == o.initial_board
    &&& n.wins == o.wins
    &&& n.draws == o.draws
    &&& n.controllers == o.controllers
}

/// One animation tick: a falling coin drops by 0.9 rows, and once it
/// reaches its row the move is played and a win or draw is recorded.
pub open spec fn ticked(o: App, n: App) -> bool {
    &&& n.initial_board == o.initial_board
    &&& n.controllers == o.controllers
    &&& n.selected_column == o.selected_column
    &&& o.falling_coin is None ==> n == o
    &&& o.falling_coin matches Some(fc) ==> if fc.animation_tenths > fc.target_row * 10 {
        &&& n.falling_coin == Some(
            FallingCoin {
                col: fc.col,
                animation_tenths: if fc.animation_tenths >= fc.target_row * 10 + 9 {
                    (fc.animation_tenths - 9) as u32
                } else {
                    (fc.target_row * 10) as u32
                },
                target_row: fc.target_row,
            },
        )
        &&& n.board == o.board
        &&& n.winner == o.winner
        &&& n.is_draw == o.is_draw
        &&& n.wins == o.wins
        &&& n.draws == o.draws
    } else {
        let mover = o.board.spec_side();
        &&& n.falling_coin is None
        &&& Board::made_move(o.board, n.board, fc.col as int)
        &&& if has_four(n.board.color[mover]) {
            &&& n.winner == Some(Player::of_side(mover))
            &&& n.wins[mover] == o.wins[mover].wrapping_add(1)
            &&& n.wins[1 - mover] == o.wins[1 - mover]
            &&& n.draws == o.draws
            &&& n.is_draw == o.is_draw
        } else if n.board.nplies == SIZE {
            &&& n.winner == o.winner
            &&& n.is_draw
            &&& n.draws == o.draws.wrapping_add(1)
            &&& n.wins == o.wins
        } else {
            &&& n.winner == o.winner
            &&& n.is_draw == o.is_draw
            &&& n.draws == o.draws
            &&& n.wins == o.wins
        }
    }
}

impl App {
    pub open spec fn wf(&self) -> bool {
        &&& self.board.wf()
        &&& self.initial_board.wf()
        &&& self.selected_column < WIDTH
        &&& (self.falling_coin matches Some(fc) ==> fc.col < WIDTH && self.board.has_room(
            fc.col as int,
        ) && fc.target_row == self.board.stones_in(fc.col as int) && fc.animation_tenths <= 50)
    }

    /// Convenience constructor for an empty starting board.
    pub fn new(controllers: [Controller; 2]) -> (app: Self)
        ensures
            app.wf(),
            app.board.nplies == 0,
            app.board.color == [0u64, 0u64],
            app.controllers == controllers,
            app.winner is None,
            !app.is_draw,
            app.wins == [0u32, 0u32],
            app.draws == 0,
            app.falling_coin is None,
            app.selected_column == WIDTH / 2,
    {
        let app = Self::from_position(Board::new(), controllers);
        proof {
            assert(!has_four(0u64)) by {
                crate::board::lemma_nonzero_has_bit(0u64);
                if has_four(0u64) {
                    let i = choose|i: u64| i < 64 && #[trigger] crate::board::line_at(0u64, i);
                    assert(bit(0u64, i));
                }
            }
        }
        app
    }

    /// Start (or restart into) a specific position rather than an empty
    /// board.
    pub fn from_position(board: Board, controllers: [Controller; 2]) -> (app: Self)
        requires
            board.wf(),
        ensures
            app.wf(),
            app.board == board,
            app.initial_board == board,
            app.controllers == controllers,
            (app.winner, app.is_draw) == game_over_flags(board, None, false),
            app.wins == [0u32, 0u32],
            app.draws == 0,
            app.falling_coin is None,
            app.selected_column == WIDTH / 2,
    {
        let mut app = App {
            board,
            initial_board: board,
            controllers,
            wins: [0, 0],
            draws: 0,
            winner: None,
            is_draw: false,
            selected_column: WIDTH / 2,
            falling_coin: None,
        };
        app.refresh_game_over_state();
        app
    }

    /// One frame of the interactive game: apply the key (cursor and drop
    /// keys only on a human's turn), advance the falling coin, then say
    /// whether an AI seat's search should start (`searching`: one is
    /// already running) or a running search's reply is awaited.
    pub fn step(&mut self, input: Input, searching: bool) -> (a: Action)
        requires
            old(self).wf(),
        ensures
            final(self).wf(),
            input == Input::Quit ==> a == Action::Quit && *final(self) == *old(self),
            input != Input::Quit ==> exists|mid: App|
                #[trigger] key_step(*old(self), mid, input) && mid.wf() && ticked(mid, *final(self)),
            input != Input::Quit && awaiting_move(*final(self)) && !human_turn(*final(self))
                && !searching ==> a == Action::Search(final(self).board.spec_side() as usize),
            input != Input::Quit && awaiting_move(*final(self)) && searching ==> a == Action::Poll,
            input != Input::Quit && !(awaiting_move(*final(self)) && (searching || !human_turn(
                *final(self),
            ))) ==> a == Action::Continue,
    {
        if input == Input::Quit {
            return Action::Quit;
        }
        let ghost o = *self;
        let human = match self.controllers[self.board.side()] {
            Controller::Human => true,
            Controller::Ai(_) => false,
        };
        match input {
            Input::Left => {
                if human {
                    self.move_left();
                }
            },
            Input::Right => {
                if human {
                    self.move_right();
                }
            },
            Input::Drop => {
                if human {
                    self.try_drop_coin();
                }
            },
            Input::Restart => {
                self.try_restart();
            },
            _ => {},
        }
        let ghost mid = *self;
        proof {
            assert(key_step(o, mid, input));
        }
        self.update();
        if self.falling_coin.is_none() && self.winner.is_none() && !self.is_draw {
            let seat = self.board.side();
            let ai_seat = match self.controllers[seat] {
                Controller::Human => false,
                Controller::Ai(_) => true,
            };
            if ai_seat && !searching {
                return Action::Search(seat);
            } else if searching {
                return Action::Poll;
            }
        }
        Action::Continue
    }

    /// Play the column an AI search chose (if any): select it and drop a
    /// coin there.
    pub fn apply_ai_move(&mut self, col: Option<usize>)
        requires
            old(self).wf(),
            col matches Some(c) ==> c < WIDTH,
        ensures
            final(self).wf(),
            col is None ==> *final(self) == *old(self),
            col matches Some(c) ==> dropped((App { selected_column: c, ..*old(self) }), *final(self)),
    {
        if let Some(c) = col {
            self.selected_column = c;
            self.try_drop_coin();
        }
    }

    /// Check whether the current board is already a completed game (a
    /// preloaded position skips the win/draw detection of `update`). Leaves
    /// `wins`/`draws` alone: those count games concluded through play.
    fn refresh_game_over_state(&mut self)
        ensures
            (final(self).winner, final(self).is_draw) == game_over_flags(
                old(self).board,
                old(self).winner,
                old(self).is_draw,
            ),
            final(self).board == old(self).board,
            final(self).initial_board == old(self).initial_board,
            final(self).controllers == old(self).controllers,
            final(self).wins == old(self).wins,
            final(self).draws == old(self).draws,
            final(self).selected_column == old(self).selected_column,
            final(self).falling_coin == old(self).falling_coin,
    {
        if Board::has_won(self.board.color[0]) {
            self.winner = Some(Player::Player1);
        } else if Board::has_won(self.board.color[1]) {
            self.winner = Some(Player::Player2);
        } else if self.board.nplies == SIZE {
            self.is_draw = true;
        }
    }

    pub fn current_turn(&self) -> (p: Player)
        ensures
            p == Player::of_side(self.board.spec_side()),
    {
        Player::from_side(self.board.side())
    }

    /// Piece at (row, col); row 0 is the bottom row, matching the engine's
    /// own bit layout (bit index = H1*col + row).
    pub fn cell(&self, row: usize, col: usize) -> (p: Option<Player>)
        requires
            H1 * col + row < 64,
        ensures
            p == if bit(self.board.color[0], (7 * col + row) as u64) {
                Some(Player::Player1)
            } else if bit(self.board.color[1], (7 * col + row) as u64) {
                Some(Player::Player2)
            } else {
                None
            },
    {
        let i = H1 * col + row;
        let b = 1u64 << i;
        proof {
            lemma_bit_test(self.board.color[0], i as u64);
            lemma_bit_test(self.board.color[1], i as u64);
        }
        if self.board.color[0] & b != 0 {
            Some(Player::Player1)
        } else if self.board.color[1] & b != 0 {
            Some(Player::Player2)
        } else {
            None
        }
    }

    pub fn move_left(&mut self)
        ensures
            moved_left(*old(self), *final(self)),
    {
        if self.selected_column > 0 {
            self.selected_column -= 1;
        }
    }

    pub fn move_right(&mut self)
        requires
            old(self).selected_column < WIDTH,
        ensures
            moved_right(*old(self), *final(self)),
    {
        if self.selected_column + 1 < WIDTH {
            self.selected_column += 1;
        }
    }

    /// Start dropping a coin in the selected column, if legal and nothing's
    /// already falling. The move isn't committed to the board until the
    /// drop animation finishes (see `update`).
    pub fn try_drop_coin(&mut self)
        requires
            old(self).wf(),
        ensures
            final(self).wf(),
            dropped(*old(self), *final(self)),
    {
        if self.falling_coin.is_some() || self.winner.is_some() || self.is_draw {
            return;
        }
        let col = self.selected_column;
        proof {
            self.board.lemma_shape();
            crate::board::lemma_open_column(self.board, col as int);
        }
        if !self.board.is_playable(col) {
            return;
        }
        // height[col] is a bit index (H1*col + row); mod H1 recovers the row
        // since H1*col is an exact multiple of H1.
        let target_row = (self.board.height[col] as usize) % H1;
        self.falling_coin = Some(
            FallingCoin { col, animation_tenths: ((HEIGHT - 1) * 10) as u32, target_row },
        );
    }

    pub fn try_restart(&mut self)
        requires
            old(self).wf(),
        ensures
            final(self).wf(),
            restarted(*old(self), *final(self)),
    {
        self.board = self.initial_board;
        self.winner = None;
        self.is_draw = false;
        self.falling_coin = None;
        self.selected_column = WIDTH / 2;
        self.refresh_game_over_state();
    }

    /// Advance the falling-coin animation by one tick. Commits the move to
    /// the board and checks for a win/draw once it lands.
    pub fn update(&mut self)
        requires
            old(self).wf(),
        ensures
            final(self).wf(),
            ticked(*old(self), *final(self)),
    {
        let coin = match self.falling_coin {
            Some(c) => c,
            None => {
                return;
            },
        };
        let floor = (coin.target_row * 10) as u32;
        if coin.animation_tenths > floor {
            let next = if coin.animation_tenths >= floor + 9 {
                coin.animation_tenths - 9
            } else {
                floor
            };
            self.falling_coin = Some(FallingCoin { animation_tenths: next, ..coin });
            return;
        }
        let col = coin.col;
        let mover = self.current_turn();
        self.board.make_move(col);
        self.falling_coin = None;
        let m = mover.index();
        let moved_color = self.board.color[m];
        if Board::has_won(moved_color) {
            self.winner = Some(mover);
            self.wins[m] = self.wins[m].wrapping_add(1);
        } else if self.board.nplies == SIZE {
            self.is_draw = true;
            self.draws = self.draws.wrapping_add(1);
        }
    }
}

proof fn lemma_bit_test(x: u64, i: u64)
    by (bit_vector)
    requires
        i < 64,
    ensures
        (x & (1u64 << i) != 0) == bit(x, i),
{
}

} // verus!
