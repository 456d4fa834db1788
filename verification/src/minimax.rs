//! Depth-limited minimax with alpha-beta pruning and a heuristic evaluation
//! function (see `eval.rs`) at the horizon. Unlike `search::Solver`, this
//! never proves an exact game-theoretic result -- it trades that guarantee
//! for bounded, predictable search cost, and doesn't share any code with
//! the exact solver (different score representation, no transposition
//! table, no history heuristic).

use vstd::prelude::*;
use crate::board::{
    Board,
    SIZE,
    WIDTH,
    has_four,
    col_count,
    replay_color,
    same_position,
    lemma_unmake_undoes_make,
};
use crate::eval::{evaluate, eval_spec, lemma_eval_bounds, lemma_no_four_no_full_window};

verus! {

/// Score magnitude used for a proven win/loss, comfortably larger than any
/// heuristic evaluation `eval::evaluate` can produce.
pub const WIN_SCORE: i32 = 1_000_000;

/// The deepest search whose scores fit in an `i32`.
pub open spec fn max_depth() -> int {
    i32::MAX - WIN_SCORE - 1
}

/// The `j`-th column of the center-out search order 3,2,4,1,5,0,6.
pub open spec fn order_col(j: int) -> int {
    seq![3int, 2, 4, 1, 5, 0, 6][j]
}

/// Some column still has room after the moves `s`.
pub open spec fn any_room_after(s: Seq<u8>) -> bool {
    exists|c: int| 0 <= c < 7 && #[trigger] col_count(s, c) < 6
}

pub open spec fn max_of(a: int, b: int) -> int {
    if a >= b {
        a
    } else {
        b
    }
}

/// Depth-limited negamax value, for the side to move, of the position after
/// the moves `s`: a loss (sooner losses scoring lower) if the opponent has
/// four in a row, 0 for a full board, the heuristic evaluation at the
/// horizon, else the best negated value over the playable columns.
pub open spec fn mm_value(s: Seq<u8>, depth: nat) -> int
    decreases depth, 8int,
{
    let side = s.len() as int % 2;
    let mine = replay_color(s, side);
    let theirs = replay_color(s, 1 - side);
    if has_four(theirs) {
        -(WIN_SCORE + depth)
    } else if s.len() >= SIZE {
        0
    } else if depth == 0 {
        eval_spec(mine, theirs)
    } else if !any_room_after(s) {
        0
    } else {
        best_upto(s, depth, 7)
    }
}

/// Best negated child value over the first `j` columns of the search
/// order (starting below every real score).
pub open spec fn best_upto(s: Seq<u8>, depth: nat, j: int) -> int
    decreases depth, j,
{
    if depth == 0 || j <= 0 {
        -WIN_SCORE - 1
    } else {
        let prev = best_upto(s, depth, j - 1);
        let c = order_col(j - 1);
        if col_count(s, c) < 6 {
            max_of(prev, -mm_value(s.push(c as u8), (depth - 1) as nat))
        } else {
            prev
        }
    }
}

/// Fail-soft alpha-beta: a result at or below `alpha` bounds the true value
/// from above, one at or above `beta` bounds it from below, and one strictly
/// inside the window is exact.
pub open spec fn ab_claim(r: int, alpha: int, beta: int, v: int) -> bool {
    &&& r <= alpha ==> v <= r
    &&& r >= beta ==> v >= r
    &&& alpha < r < beta ==> v == r
}

proof fn lemma_best_upto_monotone(s: Seq<u8>, depth: nat, i: int, j: int)
    requires
        0 <= i <= j,
    ensures
        best_upto(s, depth, i) <= best_upto(s, depth, j),
    decreases j - i,
{
    if i < j {
        lemma_best_upto_monotone(s, depth, i, j - 1);
    }
}

/// Value, for the side to move after `s`, of playing column `c`, with `d`
/// plies searched below the move.
pub open spec fn move_value(s: Seq<u8>, c: int, d: nat) -> int {
    -mm_value(s.push(c as u8), d)
}

proof fn lemma_best_upto_bounds(s: Seq<u8>, depth: nat, j: int)
    requires
        depth > 0,
        0 <= j <= 7,
    ensures
        forall|i: int|
            0 <= i < j && col_count(s, #[trigger] order_col(i)) < 6 ==> move_value(
                s,
                order_col(i),
                (depth - 1) as nat,
            ) <= best_upto(s, depth, j),
        best_upto(s, depth, j) > -WIN_SCORE - 1 ==> exists|i: int|
            0 <= i < j && col_count(s, #[trigger] order_col(i)) < 6 && move_value(
                s,
                order_col(i),
                (depth - 1) as nat,
            ) == best_upto(s, depth, j),
    decreases j,
{
    if j > 0 {
        lemma_best_upto_bounds(s, depth, j - 1);
        let c = order_col(j - 1);
        if best_upto(s, depth, j) > -WIN_SCORE - 1 && col_count(s, c) < 6 && move_value(
            s,
            c,
            (depth - 1) as nat,
        ) == best_upto(s, depth, j) {
            assert(col_count(s, order_col(j - 1)) < 6);
        }
    }
}

/// The column at the earliest search-order position in `j..7` that is
/// playable after `s` and has value `m` with `d` plies below it, or 7.
pub open spec fn first_with_value(s: Seq<u8>, d: nat, m: int, j: int) -> int
    decreases 7 - j,
{
    if j >= 7 {
        7
    } else if col_count(s, order_col(j)) < 6 && move_value(s, order_col(j), d) == m {
        order_col(j)
    } else {
        first_with_value(s, d, m, j + 1)
    }
}

proof fn lemma_first_with_value(s: Seq<u8>, d: nat, m: int, j: int, bi: int)
    requires
        0 <= j <= bi < 7,
        col_count(s, order_col(bi)) < 6,
        move_value(s, order_col(bi), d) == m,
        forall|i: int|
            j <= i < bi && col_count(s, #[trigger] order_col(i)) < 6 ==> move_value(
                s,
                order_col(i),
                d,
            ) < m,
    ensures
        first_with_value(s, d, m, j) == order_col(bi),
    decreases bi - j,
{
    if j < bi {
        lemma_first_with_value(s, d, m, j + 1, bi);
    }
}

/// The side to move completes four in a row by playing column `c`.
pub open spec fn wins_with(b: Board, c: int) -> bool {
    b.has_room(c) && has_four(b.color[b.spec_side()] | (1u64 << b.height[c]))
}

/// The earliest column in search order `j..7` that wins at once, or 7.
pub open spec fn first_win_in_order(b: Board, j: int) -> int
    decreases 7 - j,
{
    if j >= 7 {
        7
    } else if wins_with(b, order_col(j)) {
        order_col(j)
    } else {
        first_win_in_order(b, j + 1)
    }
}

proof fn lemma_first_win_skip(b: Board, s: int, i: int)
    requires
        0 <= s <= i <= 7,
        forall|j: int| s <= j < i ==> !wins_with(b, #[trigger] order_col(j)),
    ensures
        first_win_in_order(b, s) == first_win_in_order(b, i),
    decreases i - s,
{
    if s < i {
        lemma_first_win_skip(b, s + 1, i);
    }
}

/// The value of the best root move when each move is searched `d` plies deep.
pub open spec fn root_best(s: Seq<u8>, d: nat) -> int {
    best_upto(s, d + 1, 7)
}

fn center_out_order() -> (order: [usize; WIDTH])
    ensures
        forall|j: int| 0 <= j < 7 ==> #[trigger] order[j] == order_col(j),
{
    // Hand-written for WIDTH=7: 3,2,4,1,5,0,6.
    [3, 2, 4, 1, 5, 0, 6]
}

pub struct MinimaxAi {
    pub depth: u32,
}

impl MinimaxAi {
    pub fn new(depth: u32) -> (ai: Self)
        ensures
            ai.depth == depth,
    {
        MinimaxAi { depth }
    }

    /// Choose a column by searching `self.depth` plies ahead and scoring
    /// the horizon with `eval::evaluate`. Returns `None` only if the board
    /// is completely full.
    pub fn best_move(&self, board: &Board) -> (r: Option<usize>)
        requires
            board.wf(),
            self.depth <= max_depth(),
            self.depth >= 2 || !has_four(board.color[1 - board.spec_side()]) || !exists|c: int|
                0 <= c < 7 && #[trigger] board.has_room(c) || exists|c: int|
                0 <= c < 7 && #[trigger] wins_with(*board, c),
        ensures
            r.is_some() == exists|c: int| 0 <= c < 7 && #[trigger] board.has_room(c),
            r matches Some(c) ==> c < WIDTH && board.has_room(c as int),
            first_win_in_order(*board, 0) < 7 ==> r == Some(first_win_in_order(*board, 0) as usize),
            ({
                let d = if self.depth >= 1 {
                    (self.depth - 1) as nat
                } else {
                    0nat
                };
                let m = root_best(board.history(), d);
                &&& first_win_in_order(*board, 0) == 7 && -WIN_SCORE - 1 < m < WIN_SCORE + 1 ==> r
                    == Some(first_with_value(board.history(), d, m, 0) as usize)
                &&& first_win_in_order(*board, 0) == 7 && m >= WIN_SCORE + 1 ==> (r matches Some(c)
                    && move_value(board.history(), c as int, d) >= WIN_SCORE + 1)
            }),
    {
        let side = board.side();
        let order = center_out_order();
        let ghost s = board.history();
        proof {
            board.lemma_shape();
            assert(s.len() == board.nplies);
        }
        // Fast path: take an outright win immediately, no search needed.
        let mut j = 0usize;
        while j < WIDTH
            invariant
                board.wf(),
                j <= WIDTH,
                side == board.spec_side(),
                forall|i: int| 0 <= i < 7 ==> #[trigger] order[i] == order_col(i),
                forall|i: int| 0 <= i < j ==> !wins_with(*board, #[trigger] order_col(i)),
            decreases WIDTH - j,
        {
            let col = order[j];
            proof {
                crate::board::lemma_open_column(*board, col as int);
            }
            if board.is_playable(col) {
                let candidate = board.color[side] | (1u64 << board.height[col]);
                if Board::has_won(candidate) {
                    proof {
                        lemma_first_win_skip(*board, 0, j as int);
                    }
                    return Some(col);
                }
            }
            j += 1;
        }
        proof {
            lemma_first_win_skip(*board, 0, 7);
        }
        let child_depth = self.depth.saturating_sub(1);
        let ghost dd = (child_depth + 1) as nat;
        let ghost m = best_upto(s, dd, 7);
        proof {
            lemma_best_upto_bounds(s, dd, 7);
        }
        let mut best_col: Option<usize> = None;
        let ghost mut bi: int = 0;
        let mut alpha = -WIN_SCORE - 1;
        let beta = WIN_SCORE + 1;
        let mut b = *board;
        let mut j = 0usize;
        while j < WIDTH
            invariant
                b.wf(),
                board.wf(),
                same_position(b, *board),
                s == board.history(),
                s.len() == board.nplies,
                side == board.spec_side(),
                child_depth <= max_depth(),
                child_depth >= 1 || !has_four(board.color[1 - board.spec_side()]) || !exists|c: int|
                    0 <= c < 7 && #[trigger] board.has_room(c),
                dd == child_depth + 1,
                m == best_upto(s, dd, 7),
                forall|i: int|
                    0 <= i < 7 && col_count(s, #[trigger] order_col(i)) < 6 ==> move_value(
                        s,
                        order_col(i),
                        child_depth as nat,
                    ) <= m,
                j <= WIDTH,
                forall|i: int| 0 <= i < 7 ==> #[trigger] order[i] == order_col(i),
                beta == WIN_SCORE + 1,
                alpha > i32::MIN,
                best_col is None ==> alpha == -WIN_SCORE - 1 && forall|i: int|
                    0 <= i < j ==> !board.has_room(#[trigger] order_col(i)),
                best_col matches Some(c) ==> 0 <= bi < j && c == order_col(bi) && board.has_room(c as int),
                m < beta ==> alpha < beta,
                m < beta && best_col is Some ==> forall|i: int|
                    0 <= i < j && col_count(s, #[trigger] order_col(i)) < 6 ==> move_value(
                        s,
                        order_col(i),
                        child_depth as nat,
                    ) <= alpha,
                forall|i: int| 0 <= i < 7 ==> !wins_with(*board, #[trigger] order_col(i)),
                alpha >= beta ==> best_col is Some && move_value(
                    s,
                    order_col(bi),
                    child_depth as nat,
                ) >= beta,
                forall|i: int|
                    0 <= i < j && col_count(s, #[trigger] order_col(i)) < 6 && move_value(
                        s,
                        order_col(i),
                        child_depth as nat,
                    ) >= beta ==> alpha >= beta,
                m < beta && alpha > -WIN_SCORE - 1 ==> best_col is Some && move_value(
                    s,
                    order_col(bi),
                    child_depth as nat,
                ) == alpha && forall|i: int|
                    0 <= i < bi && col_count(s, #[trigger] order_col(i)) < 6 ==> move_value(
                        s,
                        order_col(i),
                        child_depth as nat,
                    ) < alpha,
            decreases WIDTH - j,
        {
            let col = order[j];
            proof {
                crate::board::lemma_open_column(*board, col as int);
                assert(board.height[col as int] as int == crate::board::replay_height(s, col as int));
            }
            if !b.is_playable(col) {
                j += 1;
                continue;
            }
            proof {
                assert(board.has_room(col as int));
            }
            let ghost b0 = b;
            let ghost alpha_before = alpha;
            let ghost had_best = best_col is Some;
            b.make_move(col);
            let ghost b1 = b;
            let sub = self.negamax(&mut b, child_depth, -beta, -alpha);
            let ghost b1s = b;
            let score = -sub;
            b.unmake_move();
            proof {
                lemma_unmake_undoes_make(b0, b1, b1s, b, col as int);
                assert(b1.history() == s.push(col as u8));
            }
            let ghost v = move_value(s, col as int, child_depth as nat);
            proof {
                assert(mm_value(b1.history(), child_depth as nat) == -v);
                assert(col_count(s, order_col(j as int)) < 6);
                crate::value::lemma_push(s, col as int);
                assert(!wins_with(*board, order_col(j as int)));
                assert(b1.color[side as int] == replay_color(b1.history(), side as int));
                assert(!has_four(b1.color[1 - b1.spec_side()]));
                assert(sub >= -WIN_SCORE - 1);
                if alpha_before < beta && v >= beta {
                    assert(sub <= -beta);
                }
                if alpha_before < beta && score >= beta {
                    assert(v >= score);
                }
            }
            if best_col.is_none() || score > alpha {
                best_col = Some(col);
                proof {
                    bi = j as int;
                }
                alpha = score;
            }
            proof {
                if m < beta {
                    assert(v <= m);
                    assert(score < beta);
                    if score <= alpha_before {
                        assert(v <= score);
                    } else {
                        assert(v == score);
                    }
                    assert(v <= alpha);
                    assert forall|i: int|
                        0 <= i < j + 1 && col_count(s, #[trigger] order_col(i)) < 6 implies move_value(
                            s,
                            order_col(i),
                            child_depth as nat,
                        ) <= alpha by {
                        if i < j {
                            assert(board.height[order_col(i)] as int == crate::board::replay_height(
                                s,
                                order_col(i),
                            ));
                            assert(board.has_room(order_col(i)));
                            assert(had_best);
                            assert(move_value(s, order_col(i), child_depth as nat) <= alpha_before);
                        }
                    }
                    if alpha > -WIN_SCORE - 1 {
                        if bi == j {
                            assert(v == alpha);
                            assert forall|i: int|
                                0 <= i < bi && col_count(s, #[trigger] order_col(i)) < 6 implies move_value(
                                    s,
                                    order_col(i),
                                    child_depth as nat,
                                ) < alpha by {
                                assert(board.height[order_col(i)] as int == crate::board::replay_height(
                                    s,
                                    order_col(i),
                                ));
                                assert(had_best);
                                assert(move_value(s, order_col(i), child_depth as nat) <= alpha_before);
                            }
                        }
                    }
                }
            }
            j += 1;
        }
        proof {
            assert(order_col(0) == 3 && order_col(1) == 2 && order_col(2) == 4 && order_col(3) == 1
                && order_col(4) == 5 && order_col(5) == 0 && order_col(6) == 6);
            if best_col is None {
                assert(!board.has_room(order_col(0)) && !board.has_room(order_col(1))
                    && !board.has_room(order_col(2)) && !board.has_room(order_col(3))
                    && !board.has_room(order_col(4)) && !board.has_room(order_col(5))
                    && !board.has_room(order_col(6)));
            }
            if first_win_in_order(*board, 0) == 7 && m >= WIN_SCORE + 1 {
                let i = choose|i: int|
                    0 <= i < 7 && col_count(s, #[trigger] order_col(i)) < 6 && move_value(
                        s,
                        order_col(i),
                        child_depth as nat,
                    ) == m;
                assert(alpha >= beta);
            }
            if first_win_in_order(*board, 0) == 7 && -WIN_SCORE - 1 < m < WIN_SCORE + 1 {
                let i = choose|i: int|
                    0 <= i < 7 && col_count(s, #[trigger] order_col(i)) < 6 && move_value(
                        s,
                        order_col(i),
                        child_depth as nat,
                    ) == m;
                assert(board.height[order_col(i)] as int == crate::board::replay_height(s, order_col(i)));
                assert(best_col is Some);
                assert(move_value(s, order_col(i), child_depth as nat) <= alpha);
                assert(board.height[order_col(bi)] as int == crate::board::replay_height(s, order_col(bi)));
                lemma_first_with_value(s, child_depth as nat, m, 0, bi);
            }
        }
        best_col
    }

    fn negamax(&self, board: &mut Board, depth: u32, alpha: i32, beta: i32) -> (r: i32)
        requires
            old(board).wf(),
            depth <= max_depth(),
            depth > 0 && old(board).nplies < SIZE && !has_four(
                old(board).color[1 - old(board).spec_side()],
            ) ==> alpha > i32::MIN && beta > i32::MIN,
            depth >= 1 || !has_four(old(board).color[old(board).spec_side()]) || has_four(
                old(board).color[1 - old(board).spec_side()],
            ) || old(board).nplies == SIZE,
        ensures
            final(board).wf(),
            same_position(*final(board), *old(board)),
            !has_four(old(board).color[1 - old(board).spec_side()]) ==> r >= -WIN_SCORE - 1,
            has_four(old(board).color[1 - old(board).spec_side()]) ==> r == -(WIN_SCORE + depth),
            !has_four(old(board).color[1 - old(board).spec_side()]) && old(board).nplies == SIZE
                ==> r == 0,
            !has_four(old(board).color[1 - old(board).spec_side()]) && old(board).nplies < SIZE
                && depth == 0 ==> r == eval_spec(
                old(board).color[old(board).spec_side()],
                old(board).color[1 - old(board).spec_side()],
            ),
            -(WIN_SCORE + depth + 1) <= r <= WIN_SCORE + depth + 1,
            alpha < beta ==> ab_claim(
                r as int,
                alpha as int,
                beta as int,
                mm_value(old(board).history(), depth as nat),
            ),
        decreases depth,
    {
        let ghost b0 = *board;
        let ghost s = b0.history();
        let ghost alpha0 = alpha;
        proof {
            board.lemma_shape();
            assert(s.len() == b0.nplies);
        }
        let side = board.side();
        let other = 1 - side;
        // The side to move here is already lost if their opponent's last
        // move completed a connect-four; prefer slower losses (more
        // remaining depth at detection = a shallower, sooner loss).
        if Board::has_won(board.color[other]) {
            return -(WIN_SCORE + depth as i32);
        }
        if board.nplies == SIZE {
            return 0;  // draw
        }
        if depth == 0 {
            proof {
                lemma_no_four_no_full_window(board.color[side as int], board.color[other as int]);
                lemma_eval_bounds(board.color[side as int], board.color[other as int]);
            }
            return evaluate(board, side);
        }
        let order = center_out_order();
        let mut alpha = alpha;
        let mut best = -WIN_SCORE - 1;
        let mut any_move = false;
        let mut j = 0usize;
        while j < WIDTH
            invariant_except_break
                alpha0 < beta && any_move ==> best < beta,
                alpha0 < beta ==> best_upto(s, depth as nat, j as int) <= best,
                alpha0 < beta ==> (best > alpha0 ==> best_upto(s, depth as nat, j as int) == best),
            invariant
                board.wf(),
                b0.wf(),
                same_position(*board, b0),
                s == b0.history(),
                s.len() == b0.nplies,
                b0.nplies < SIZE,
                !has_four(b0.color[other as int]),
                side == b0.spec_side(),
                other == 1 - side,
                1 <= depth <= max_depth(),
                j <= WIDTH,
                forall|i: int| 0 <= i < 7 ==> #[trigger] order[i] == order_col(i),
                any_move ==> alpha == max_of(alpha0 as int, best as int),
                !any_move ==> alpha == alpha0,
                any_move ==> any_room_after(s),
                alpha0 > i32::MIN,
                beta > i32::MIN,
                -WIN_SCORE - 1 <= best <= WIN_SCORE + depth,
                !any_move ==> best == -WIN_SCORE - 1 && forall|i: int|
                    0 <= i < j ==> !b0.has_room(#[trigger] order_col(i)),
            ensures
                any_move ==> (alpha0 < beta ==> ab_claim(
                    best as int,
                    alpha0 as int,
                    beta as int,
                    best_upto(s, depth as nat, 7),
                )),
                !any_move ==> forall|i: int| 0 <= i < 7 ==> !b0.has_room(#[trigger] order_col(i)),
                -WIN_SCORE - 1 <= best <= WIN_SCORE + depth,
                board.wf(),
                same_position(*board, b0),
            decreases WIDTH - j,
        {
            let col = order[j];
            proof {
                crate::board::lemma_open_column(b0, col as int);
                assert(b0.height[col as int] as int == crate::board::replay_height(s, col as int));
            }
            if !board.is_playable(col) {
                j += 1;
                continue;
            }
            proof {
                assert(col_count(s, col as int) < 6);
                assert(any_room_after(s));
            }
            any_move = true;
            board.make_move(col);
            let ghost b1 = *board;
            let sub = self.negamax(board, depth - 1, -beta, -alpha);
            let ghost b1s = *board;
            let score = -sub;
            board.unmake_move();
            proof {
                lemma_unmake_undoes_make(b0, b1, b1s, *board, col as int);
                assert(b1.history() == s.push(col as u8));
            }
            if score > best {
                best = score;
            }
            if best > alpha {
                alpha = best;
            }
            if alpha >= beta {
                proof {
                    lemma_best_upto_monotone(s, depth as nat, j + 1, 7);
                    lemma_best_upto_monotone(s, depth as nat, 0, 7);
                }
                break;
            }
            j += 1;
        }
        if !any_move {
            proof {
                assert(order_col(0) == 3 && order_col(1) == 2 && order_col(2) == 4 && order_col(3) == 1
                    && order_col(4) == 5 && order_col(5) == 0 && order_col(6) == 6);
                assert(!b0.has_room(order_col(0)) && !b0.has_room(order_col(1)) && !b0.has_room(
                    order_col(2),
                ) && !b0.has_room(order_col(3)) && !b0.has_room(order_col(4)) && !b0.has_room(
                    order_col(5),
                ) && !b0.has_room(order_col(6)));
                assert forall|c: int| 0 <= c < 7 implies !(#[trigger] col_count(s, c) < 6) by {
                    assert(b0.height[c] as int == crate::board::replay_height(s, c));
                }
            }
            return 0;  // board full, draw (SIZE check above should already catch this)
        }
        best
    }
}

impl Default for MinimaxAi {
    fn default() -> (ai: Self)
        ensures
            ai.depth == 8,
    {
        MinimaxAi::new(8)
    }
}

} // verus!
