//! The game-theoretic value of a position, and the positions whose value
//! follows from the next move or two: an immediate win, a four in a row
//! already on the board, a loss that cannot be avoided, and the last move.

use vstd::prelude::*;
use crate::board::{
    Board, col_count, has_four, legal_history, lemma_col_count_push,
    lemma_guard_row, lemma_history_shape, lemma_occ_step, occ7, occupied, replay_color,
    replay_height, SIZE, TOP,
};
use crate::search::{
    can_win_now, candidate_list, first_threat, first_threat_from, forced_loss,
    lemma_first_threat_range, lemma_safe_cols_facts, safe, safe_cols, shortcut, threat, win_at,
    win_on_top,
};
use crate::tt::{DRAW, LOSS, LOSSWIN, WIN};

verus! {

/// The side that made the last of the moves `h`.
pub open spec fn last_side(h: Seq<u8>) -> int {
    (h.len() as int + 1) % 2
}

/// The value, for the side to move, of the position after the moves `h`
/// under perfect play by both sides: LOSS if the last move made four in a
/// row, DRAW on a full board, else the best over the columns with room of
/// the negated value after playing there.
pub open spec fn game_value(h: Seq<u8>) -> int
    decreases SIZE - h.len(), 8int,
{
    if h.len() > SIZE {
        DRAW as int
    } else if has_four(replay_color(h, last_side(h))) {
        LOSS as int
    } else if h.len() == SIZE {
        DRAW as int
    } else {
        best_value(h, 7)
    }
}

/// The best negated child value over the columns `0..j` with room (0 when
/// there is none).
pub open spec fn best_value(h: Seq<u8>, j: int) -> int
    decreases SIZE - h.len(), j,
{
    if j <= 0 || h.len() >= SIZE {
        0
    } else {
        let prev = best_value(h, j - 1);
        let c = j - 1;
        if col_count(h, c) < 6 {
            let v = LOSSWIN - game_value(h.push(c as u8));
            if v > prev {
                v
            } else {
                prev
            }
        } else {
            prev
        }
    }
}

proof fn lemma_best_ge(h: Seq<u8>, j: int, c: int)
    requires
        0 <= c < j <= 7,
        h.len() < SIZE,
        col_count(h, c) < 6,
    ensures
        best_value(h, j) >= LOSSWIN - game_value(h.push(c as u8)),
    decreases j,
{
    if c < j - 1 {
        lemma_best_ge(h, j - 1, c);
    }
}

proof fn lemma_best_le(h: Seq<u8>, j: int, v: int)
    requires
        0 <= j <= 7,
        v >= 0,
        forall|c: int|
            0 <= c < j && #[trigger] col_count(h, c) < 6 ==> LOSSWIN - game_value(h.push(c as u8))
                <= v,
    ensures
        best_value(h, j) <= v,
    decreases j,
{
    if j > 0 {
        lemma_best_le(h, j - 1, v);
    }
}

/// When every column with room gives the same value `v` and some column
/// has room, the best value is `v`.
proof fn lemma_best_all(h: Seq<u8>, v: int, c0: int)
    requires
        v >= 0,
        h.len() < SIZE,
        0 <= c0 < 7,
        col_count(h, c0) < 6,
        forall|c: int|
            0 <= c < 7 && #[trigger] col_count(h, c) < 6 ==> LOSSWIN - game_value(h.push(c as u8))
                == v,
    ensures
        best_value(h, 7) == v,
{
    lemma_best_ge(h, 7, c0);
    lemma_best_le(h, 7, v);
}

proof fn lemma_fresh_bit(x: u64, y: u64, o: u64, b: u64)
    by (bit_vector)
    requires
        x | y == o,
        x & y == 0,
        o & b == 0,
    ensures
        x ^ b == x | b,
        y ^ b == y | b,
{
}

/// Playing column `c` (with room) after the legal moves `h`: the result is
/// legal, the mover gains exactly the square above the column's stones, and
/// the other side's stones stay.
#[verifier::spinoff_prover]
#[verifier::rlimit(40)]
pub(crate) proof fn lemma_push(h: Seq<u8>, c: int)
    requires
        legal_history(h),
        0 <= c < 7,
        col_count(h, c) < 6,
    ensures
        legal_history(h.push(c as u8)),
        h.push(c as u8).drop_last() == h,
        replay_color(h.push(c as u8), h.len() as int % 2) == replay_color(h, h.len() as int % 2) | (
        1u64 << ((7 * c + col_count(h, c)) as u64)),
        replay_color(h.push(c as u8), 1 - h.len() as int % 2) == replay_color(
            h,
            1 - h.len() as int % 2,
        ),
        last_side(h.push(c as u8)) == h.len() as int % 2,
        forall|t: int| #[trigger] col_count(h.push(c as u8), t) == col_count(h, t) + if t == c {
            1int
        } else {
            0int
        },
{
    let h2 = h.push(c as u8);
    assert(h2.drop_last() =~= h);
    assert(h2.last() == c as u8);
    assert forall|t: int| #[trigger] col_count(h2, t) == col_count(h, t) + if t == c {
        1int
    } else {
        0int
    } by {
        lemma_col_count_push(h, c as u8, t);
    }
    lemma_history_shape(h);
    let k0 = col_count(h, 0) as u64;
    let k1 = col_count(h, 1) as u64;
    let k2 = col_count(h, 2) as u64;
    let k3 = col_count(h, 3) as u64;
    let k4 = col_count(h, 4) as u64;
    let k5 = col_count(h, 5) as u64;
    let k6 = col_count(h, 6) as u64;
    assert(0 <= col_count(h, 0) <= 6 && 0 <= col_count(h, 1) <= 6 && 0 <= col_count(h, 2) <= 6
        && 0 <= col_count(h, 3) <= 6 && 0 <= col_count(h, 4) <= 6 && 0 <= col_count(h, 5) <= 6
        && 0 <= col_count(h, 6) <= 6);
    lemma_occ_step(k0, k1, k2, k3, k4, k5, k6, c as u64, col_count(h, c) as u64);
    let b = 1u64 << ((7 * c + col_count(h, c)) as u64);
    assert(b == 1u64 << (replay_height(h, c) as u64));
    lemma_fresh_bit(replay_color(h, 0), replay_color(h, 1), occupied(h), b);
}

/// Every legal position has a value between LOSS and WIN.
pub proof fn lemma_value_range(h: Seq<u8>)
    requires
        legal_history(h),
    ensures
        LOSS <= game_value(h) <= WIN,
    decreases SIZE - h.len(),
{
    lemma_history_shape(h);
    if !has_four(replay_color(h, last_side(h))) && h.len() < SIZE {
        assert forall|c: int| 0 <= c < 7 && #[trigger] col_count(h, c) < 6 implies LOSS <= LOSSWIN
            - game_value(h.push(c as u8)) <= WIN by {
            lemma_push(h, c);
            lemma_value_range(h.push(c as u8));
        }
        let c0 = lemma_some_room(h);
        lemma_best_ge(h, 7, c0);
        lemma_best_le(h, 7, WIN as int);
    }
}

/// A legal, unfinished move sequence leaves some column with room.
proof fn lemma_some_room(h: Seq<u8>) -> (c: int)
    requires
        legal_history(h),
        h.len() < SIZE,
    ensures
        0 <= c < 7,
        col_count(h, c) < 6,
{
    lemma_history_shape(h);
    assert(0 <= col_count(h, 0) <= 6 && 0 <= col_count(h, 1) <= 6 && 0 <= col_count(h, 2) <= 6
        && 0 <= col_count(h, 3) <= 6 && 0 <= col_count(h, 4) <= 6 && 0 <= col_count(h, 5) <= 6
        && 0 <= col_count(h, 6) <= 6);
    if col_count(h, 0) < 6 {
        0
    } else if col_count(h, 1) < 6 {
        1
    } else if col_count(h, 2) < 6 {
        2
    } else if col_count(h, 3) < 6 {
        3
    } else if col_count(h, 4) < 6 {
        4
    } else if col_count(h, 5) < 6 {
        5
    } else {
        6
    }
}

/// The side to move wins at once by playing column `t`: its value is WIN.
proof fn lemma_win_next(h: Seq<u8>, t: int)
    requires
        legal_history(h),
        h.len() < SIZE,
        !has_four(replay_color(h, last_side(h))),
        0 <= t < 7,
        col_count(h, t) < 6,
        has_four(
            replay_color(h, h.len() as int % 2) | (1u64 << ((7 * t + col_count(h, t)) as u64)),
        ),
    ensures
        game_value(h) == WIN,
{
    lemma_push(h, t);
    let h2 = h.push(t as u8);
    assert(game_value(h2) == LOSS);
    lemma_best_ge(h, 7, t);
    assert forall|c: int| 0 <= c < 7 && #[trigger] col_count(h, c) < 6 implies LOSSWIN - game_value(
        h.push(c as u8),
    ) <= WIN by {
        lemma_push(h, c);
        lemma_value_range(h.push(c as u8));
    }
    lemma_best_le(h, 7, WIN as int);
}

/// The side to move has already lost when the other side has four in a row.
pub proof fn lemma_value_lost(b: Board)
    requires
        b.wf(),
        has_four(b.color[1 - b.spec_side()]),
    ensures
        game_value(b.history()) == LOSS,
{
    assert(b.history().len() == b.nplies);
}

proof fn lemma_room_facts(b: Board, c: int)
    requires
        b.wf(),
        0 <= c < 7,
    ensures
        b.history().len() == b.nplies,
        b.height[c] == 7 * c + col_count(b.history(), c),
        b.has_room(c) == (col_count(b.history(), c) < 6),
        b.color[0] == replay_color(b.history(), 0),
        b.color[1] == replay_color(b.history(), 1),
        ((b.color[b.spec_side()] | (1u64 << b.height[c])) & TOP == 0) == b.has_room(c),
        ((b.color[1 - b.spec_side()] | (1u64 << b.height[c])) & TOP == 0) == b.has_room(c),
        b.height[c] < 49,
{
    assert(b.height[c] as int == replay_height(b.history(), c));
    crate::board::lemma_open_column(b, c);
    b.lemma_shape();
    assert(0 <= b.stones_in(c) <= 6);
}

/// The side to move wins when it can complete four in a row at once.
#[verifier::spinoff_prover]
#[verifier::rlimit(40)]
pub proof fn lemma_value_win_now(b: Board)
    requires
        b.wf(),
        !has_four(b.color[1 - b.spec_side()]),
        can_win_now(b),
    ensures
        game_value(b.history()) == WIN,
{
    let c = choose|c: int| 0 <= c < 7 && #[trigger] win_at(b, c);
    lemma_room_facts(b, c);
    lemma_history_shape(b.history());
    assert(b.history().len() < SIZE) by {
        if b.history().len() >= SIZE {
            assert(col_count(b.history(), 0) + col_count(b.history(), 1) + col_count(b.history(), 2)
                + col_count(b.history(), 3) + col_count(b.history(), 4) + col_count(b.history(), 5)
                + col_count(b.history(), 6) == b.history().len());
            assert(0 <= col_count(b.history(), 0) <= 6 && 0 <= col_count(b.history(), 1) <= 6 && 0
                <= col_count(b.history(), 2) <= 6 && 0 <= col_count(b.history(), 3) <= 6 && 0
                <= col_count(b.history(), 4) <= 6 && 0 <= col_count(b.history(), 5) <= 6 && 0
                <= col_count(b.history(), 6) <= 6);
        }
    }
    lemma_win_next(b.history(), c);
}

/// With one square left and no win on it, the game is drawn.
pub proof fn lemma_value_last_move(b: Board)
    requires
        b.wf(),
        b.nplies == SIZE - 1,
        !has_four(b.color[1 - b.spec_side()]),
        !can_win_now(b),
    ensures
        game_value(b.history()) == DRAW,
{
    let h = b.history();
    assert(h.len() == b.nplies);
    assert forall|c: int| 0 <= c < 7 && #[trigger] col_count(h, c) < 6 implies LOSSWIN - game_value(
        h.push(c as u8),
    ) == DRAW by {
        lemma_room_facts(b, c);
        lemma_push(h, c);
        assert(!win_at(b, c));
    }
    let c0 = lemma_some_room(h);
    lemma_best_all(h, DRAW as int, c0);
}

proof fn lemma_top_room(x: u64, y: u64, k0: u64, k1: u64, k2: u64, k3: u64, k4: u64, k5: u64, k6: u64, h: u64)
    requires
        k0 <= 6 && k1 <= 6 && k2 <= 6 && k3 <= 6 && k4 <= 6 && k5 <= 6 && k6 <= 6,
        x | y == occ7(k0, k1, k2, k3, k4, k5, k6),
        h < 48,
        (x | (2u64 << h)) & 0x1020408102040u64 == 0,
    ensures
        (h + 1) % 7 != 6,
        2u64 << h == 1u64 << ((h + 1) as u64),
{
    assert(2u64 << h == 1u64 << ((h + 1) as u64)) by (bit_vector)
        requires
            h < 48,
    ;
    lemma_guard_row(x, y, k0, k1, k2, k3, k4, k5, k6, (h + 1) as u64);
}

proof fn lemma_or_comm(x: u64, y: u64)
    by (bit_vector)
    ensures
        x | y == y | x,
{
}

proof fn lemma_safe_listed(b: Board, n: int, c: int)
    requires
        0 <= c < n <= 7,
        safe(b, c),
    ensures
        safe_cols(b, n).len() > 0,
    decreases n,
{
    if c < n - 1 {
        lemma_safe_listed(b, n - 1, c);
    }
}

/// After the side to move plays `c`, the other side wins at once: at the
/// threat `t` if `t != c`, or on top of `c` if `t == c` and it wins there.
proof fn lemma_reply_wins(b: Board, c: int, t: int)
    requires
        b.wf(),
        b.nplies < SIZE - 1,
        0 <= c < 7,
        0 <= t < 7,
        b.has_room(c),
        !win_at(b, c),
        t != c ==> threat(b, t),
        t == c ==> win_on_top(b, c),
    ensures
        game_value(b.history().push(c as u8)) == WIN,
{
    let h = b.history();
    let s = b.spec_side();
    lemma_room_facts(b, c);
    lemma_room_facts(b, t);
    lemma_push(h, c);
    let h2 = h.push(c as u8);
    assert(h.len() as int % 2 == s);
    assert(!has_four(replay_color(h2, last_side(h2))));
    assert(h2.len() as int % 2 == 1 - s);
    if t != c {
        assert(col_count(h2, t) == col_count(h, t));
        lemma_win_next(h2, t);
    } else {
        b.lemma_shape();
        lemma_or_comm(b.color[0], b.color[1]);
        assert(b.color[1 - s] | b.color[s] == b.filled()) by {
            if s == 0 {
                assert(b.color[1] | b.color[0] == b.color[0] | b.color[1]);
            } else {
                assert(s == 1);
            }
        }
        lemma_top_room(
            b.color[1 - s],
            b.color[s],
            b.stones_in(0) as u64,
            b.stones_in(1) as u64,
            b.stones_in(2) as u64,
            b.stones_in(3) as u64,
            b.stones_in(4) as u64,
            b.stones_in(5) as u64,
            b.stones_in(6) as u64,
            b.height[c] as u64,
        );
        assert(col_count(h2, c) == col_count(h, c) + 1);
        lemma_win_next(h2, c);
    }
}

/// A loss that cannot be avoided: whatever the side to move plays, the
/// other side then wins at once.
pub proof fn lemma_value_forced_loss(b: Board)
    requires
        b.wf(),
        b.nplies < SIZE - 1,
        !has_four(b.color[1 - b.spec_side()]),
        !can_win_now(b),
        forced_loss(b),
    ensures
        game_value(b.history()) == LOSS,
{
    let h = b.history();
    assert(h.len() == b.nplies);
    let t = first_threat(b);
    lemma_first_threat_range(b, 0);
    assert forall|c: int| 0 <= c < 7 && #[trigger] col_count(h, c) < 6 implies LOSSWIN - game_value(
        h.push(c as u8),
    ) == LOSS by {
        lemma_room_facts(b, c);
        assert(!win_at(b, c));
        if t < 7 {
            if c != t {
                lemma_reply_wins(b, c, t);
            } else if win_on_top(b, t) {
                lemma_reply_wins(b, c, c);
            } else {
                let j = choose|j: int| t < j < 7 && #[trigger] threat(b, j);
                lemma_reply_wins(b, c, j);
            }
        } else {
            if safe(b, c) {
                lemma_safe_listed(b, 7, c);
            }
            lemma_reply_wins(b, c, c);
        }
    }
    let c0 = lemma_some_room(h);
    lemma_best_all(h, LOSS as int, c0);
}

/// A full board without four in a row is a draw.
pub proof fn lemma_value_full(b: Board)
    requires
        b.wf(),
        b.nplies == SIZE,
        !has_four(b.color[1 - b.spec_side()]),
    ensures
        game_value(b.history()) == DRAW,
{
    assert(b.history().len() == b.nplies);
}

/// A column that completes four in a row for the side to move leaves the
/// other side lost.
pub proof fn lemma_value_winning_move(b: Board, c: int)
    requires
        b.wf(),
        0 <= c < 7,
        win_at(b, c),
    ensures
        game_value(b.history().push(c as u8)) == LOSS,
{
    lemma_room_facts(b, c);
    let h = b.history();
    lemma_push(h, c);
    lemma_history_shape(h.push(c as u8));
    assert(h.len() as int % 2 == b.spec_side());
}

proof fn lemma_first_threat_le(b: Board, i: int, j: int)
    requires
        0 <= i <= j < 7,
        threat(b, j),
    ensures
        first_threat_from(b, i) <= j,
    decreases j - i,
{
    if i < j && !threat(b, i) {
        lemma_first_threat_le(b, i + 1, j);
    }
}

/// With one square left and the last move not a win, the value is at
/// least a draw.
proof fn lemma_last_at_least_draw(h: Seq<u8>)
    requires
        legal_history(h),
        h.len() == SIZE - 1,
        !has_four(replay_color(h, last_side(h))),
    ensures
        DRAW <= game_value(h) <= WIN,
{
    lemma_value_range(h);
    let c0 = lemma_some_room(h);
    lemma_push(h, c0);
    lemma_history_shape(h.push(c0 as u8));
    lemma_best_ge(h, 7, c0);
}

/// With one square left, the last move not a win and no win on any
/// square with room, the game is drawn.
proof fn lemma_last_no_win(h: Seq<u8>)
    requires
        legal_history(h),
        h.len() == SIZE - 1,
        !has_four(replay_color(h, last_side(h))),
        forall|c: int|
            0 <= c < 7 && #[trigger] col_count(h, c) < 6 ==> !has_four(
                replay_color(h, h.len() as int % 2) | (1u64 << ((7 * c + col_count(h, c)) as u64)),
            ),
    ensures
        game_value(h) == DRAW,
{
    assert forall|c: int| 0 <= c < 7 && #[trigger] col_count(h, c) < 6 implies LOSSWIN - game_value(
        h.push(c as u8),
    ) == DRAW by {
        lemma_push(h, c);
    }
    let c0 = lemma_some_room(h);
    lemma_best_all(h, DRAW as int, c0);
}

/// With two squares left and a loss that can be avoided, the game is drawn.
pub proof fn lemma_value_two_left(b: Board)
    requires
        b.wf(),
        b.nplies == SIZE - 2,
        !has_four(b.color[1 - b.spec_side()]),
        !can_win_now(b),
        !forced_loss(b),
    ensures
        game_value(b.history()) == DRAW,
{
    let h = b.history();
    let s = b.spec_side();
    assert(h.len() == b.nplies);
    assert(h.len() as int % 2 == s);
    // every move leaves at least a draw for the other side
    assert forall|c: int| 0 <= c < 7 && #[trigger] col_count(h, c) < 6 implies LOSSWIN - game_value(
        h.push(c as u8),
    ) <= DRAW by {
        lemma_room_facts(b, c);
        assert(!win_at(b, c));
        lemma_push(h, c);
        lemma_last_at_least_draw(h.push(c as u8));
    }
    lemma_best_le(h, 7, DRAW as int);
    // and some move leaves no win
    let t = first_threat(b);
    lemma_first_threat_range(b, 0);
    let c: int = if t < 7 {
        t
    } else {
        lemma_safe_cols_facts(b, 7);
        safe_cols(b, 7)[0] as int
    };
    assert(!win_on_top(b, c) && (t < 7 || safe(b, c)));
    lemma_room_facts(b, c);
    assert(col_count(h, c) < 6);
    lemma_push(h, c);
    let h2 = h.push(c as u8);
    assert(!win_at(b, c));
    assert forall|c2: int| 0 <= c2 < 7 && #[trigger] col_count(h2, c2) < 6 implies !has_four(
        replay_color(h2, h2.len() as int % 2) | (1u64 << ((7 * c2 + col_count(h2, c2)) as u64)),
    ) by {
        lemma_room_facts(b, c2);
        assert(replay_color(h2, h2.len() as int % 2) == b.color[1 - s]);
        if c2 == c {
            b.lemma_shape();
            lemma_or_comm(b.color[0], b.color[1]);
            assert(b.color[1 - s] | b.color[s] == b.filled()) by {
                if s == 0 {
                    assert(b.color[1] | b.color[0] == b.color[0] | b.color[1]);
                } else {
                    assert(s == 1);
                }
            }
            let hh = b.height[c] as u64;
            assert(2u64 << hh == 1u64 << ((hh + 1) as u64)) by (bit_vector)
                requires
                    hh < 48,
            ;
            lemma_guard_row(
                b.color[1 - s],
                b.color[s],
                b.stones_in(0) as u64,
                b.stones_in(1) as u64,
                b.stones_in(2) as u64,
                b.stones_in(3) as u64,
                b.stones_in(4) as u64,
                b.stones_in(5) as u64,
                b.stones_in(6) as u64,
                (hh + 1) as u64,
            );
        } else {
            assert(col_count(h2, c2) == col_count(h, c2));
            if has_four(b.color[1 - s] | (1u64 << b.height[c2])) {
                assert(threat(b, c2));
                lemma_first_threat_le(b, 0, c2);
            }
        }
    }
    lemma_last_no_win(h2);
    lemma_best_ge(h, 7, c);
}

proof fn lemma_safe_cols_contains(b: Board, n: int, c: int)
    requires
        0 <= c < n <= 7,
        safe(b, c),
    ensures
        safe_cols(b, n).contains(c as usize),
    decreases n,
{
    if c < n - 1 {
        lemma_safe_cols_contains(b, n - 1, c);
        let prev = safe_cols(b, n - 1);
        let k = choose|k: int| 0 <= k < prev.len() && prev[k] == c as usize;
        assert(safe_cols(b, n)[k] == prev[k]);
    } else {
        let prev = safe_cols(b, n - 1);
        assert(safe_cols(b, n)[prev.len() as int] == c as usize);
    }
}

/// The solver's answer at `b` follows without branching: `b` is a
/// position answered without search, or it has a single candidate column
/// after which (on every board reached by playing it) the same holds again,
/// within `k` such steps.
pub open spec fn settled(b: Board, k: nat) -> bool
    decreases k,
{
    shortcut(b) || (k > 0 && candidate_list(b).len() == 1 && forall|b2: Board|
        b2.wf() && #[trigger] Board::made_move(b, b2, candidate_list(b)[0] as int) ==> settled(
            b2,
            (k - 1) as nat,
        ))
}

/// Playing a candidate column gives the other side no immediate win and
/// makes no four in a row for the mover.
pub proof fn lemma_candidate_child(b: Board, c: int, b1: Board)
    requires
        b.wf(),
        b.nplies < SIZE - 2,
        !has_four(b.color[1 - b.spec_side()]),
        !can_win_now(b),
        !forced_loss(b),
        candidate_list(b).contains(c as usize),
        0 <= c < 7,
        b1.wf(),
        Board::made_move(b, b1, c),
    ensures
        b1.history() == b.history().push(c as u8),
        !has_four(b1.color[1 - b1.spec_side()]),
        !can_win_now(b1),
{
    let h = b.history();
    let s = b.spec_side();
    crate::search::lemma_candidates_playable(b);
    lemma_room_facts(b, c);
    lemma_push(h, c);
    assert(h.len() as int % 2 == s);
    assert(b1.color[s] == replay_color(b1.history(), s));
    assert(!win_at(b, c));
    let t = first_threat(b);
    lemma_first_threat_range(b, 0);
    lemma_safe_cols_facts(b, 7);
    if t == 7 {
        let k = choose|k: int| 0 <= k < safe_cols(b, 7).len() && safe_cols(b, 7)[k] == c as usize;
        assert(safe(b, c));
    } else {
        assert(c == t);
    }
    assert(!win_on_top(b, c));
    assert forall|c2: int| 0 <= c2 < 7 implies !#[trigger] win_at(b1, c2) by {
        lemma_room_facts(b, c2);
        assert(b1.color[b1.spec_side()] == b.color[1 - s]);
        if c2 != c {
            assert(b1.height[c2] == b.height[c2]);
            if win_at(b1, c2) {
                assert(threat(b, c2));
                lemma_first_threat_le(b, 0, c2);
            }
        } else {
            let hh = b.height[c] as u64;
            assert(2u64 << hh == 1u64 << ((hh + 1) as u64)) by (bit_vector)
                requires
                    hh < 48,
            ;
            assert(b1.height[c] == b.height[c] + 1);
        }
    }
}

/// With a single candidate column, the value is the negated value after it:
/// every other column lets the other side win at once.
pub proof fn lemma_single_candidate_value(b: Board, c: int)
    requires
        b.wf(),
        b.nplies < SIZE - 2,
        !has_four(b.color[1 - b.spec_side()]),
        !can_win_now(b),
        !forced_loss(b),
        candidate_list(b) == seq![c as usize],
        0 <= c < 7,
    ensures
        game_value(b.history()) == LOSSWIN - game_value(b.history().push(c as u8)),
{
    let h = b.history();
    assert(h.len() == b.nplies);
    crate::search::lemma_candidates_playable(b);
    assert(candidate_list(b)[0] == c as usize);
    lemma_room_facts(b, c);
    lemma_push(h, c);
    lemma_value_range(h.push(c as u8));
    let v = LOSSWIN - game_value(h.push(c as u8));
    let t = first_threat(b);
    lemma_first_threat_range(b, 0);
    assert forall|c2: int| 0 <= c2 < 7 && #[trigger] col_count(h, c2) < 6 implies LOSSWIN - game_value(
        h.push(c2 as u8),
    ) <= v by {
        if c2 != c {
            lemma_room_facts(b, c2);
            assert(!win_at(b, c2));
            if t < 7 {
                assert(c == t);
                lemma_reply_wins(b, c2, t);
            } else {
                if safe(b, c2) {
                    lemma_safe_cols_contains(b, 7, c2);
                    assert(candidate_list(b).contains(c2 as usize));
                }
                lemma_reply_wins(b, c2, c2);
            }
        }
    }
    lemma_best_le(h, 7, v);
    lemma_best_ge(h, 7, c);
}

proof fn lemma_zero_and(x: u64)
    by (bit_vector)
    ensures
        0u64 & !x == 0,
{
}

proof fn lemma_best_same(h1: Seq<u8>, h2: Seq<u8>, j: int)
    requires
        0 <= j <= 7,
        h1.len() == h2.len(),
        forall|c: int| 0 <= c < 7 ==> #[trigger] col_count(h1, c) == col_count(h2, c),
        forall|c: int|
            0 <= c < 7 && #[trigger] col_count(h1, c) < 6 ==> game_value(h1.push(c as u8))
                == game_value(h2.push(c as u8)),
    ensures
        best_value(h1, j) == best_value(h2, j),
    decreases j,
{
    if j > 0 {
        lemma_best_same(h1, h2, j - 1);
        assert(col_count(h1, j - 1) == col_count(h2, j - 1));
    }
}

/// The value depends on the position only: two legal move sequences of the
/// same length that leave the same stones for each side have the same value.
pub proof fn lemma_value_same_position(h1: Seq<u8>, h2: Seq<u8>)
    requires
        legal_history(h1),
        legal_history(h2),
        h1.len() == h2.len(),
        replay_color(h1, 0) == replay_color(h2, 0),
        replay_color(h1, 1) == replay_color(h2, 1),
    ensures
        game_value(h1) == game_value(h2),
    decreases SIZE - h1.len(),
{
    lemma_history_shape(h1);
    lemma_history_shape(h2);
    assert(0 <= col_count(h1, 0) <= 6 && 0 <= col_count(h1, 1) <= 6 && 0 <= col_count(h1, 2) <= 6
        && 0 <= col_count(h1, 3) <= 6 && 0 <= col_count(h1, 4) <= 6 && 0 <= col_count(h1, 5) <= 6
        && 0 <= col_count(h1, 6) <= 6);
    assert(0 <= col_count(h2, 0) <= 6 && 0 <= col_count(h2, 1) <= 6 && 0 <= col_count(h2, 2) <= 6
        && 0 <= col_count(h2, 3) <= 6 && 0 <= col_count(h2, 4) <= 6 && 0 <= col_count(h2, 5) <= 6
        && 0 <= col_count(h2, 6) <= 6);
    assert(occupied(h1) == occupied(h2));
    lemma_zero_and(occupied(h1));
    lemma_zero_and(occupied(h2));
    crate::board::lemma_code_columns(
        0,
        0,
        col_count(h1, 0) as u64,
        col_count(h1, 1) as u64,
        col_count(h1, 2) as u64,
        col_count(h1, 3) as u64,
        col_count(h1, 4) as u64,
        col_count(h1, 5) as u64,
        col_count(h1, 6) as u64,
        col_count(h2, 0) as u64,
        col_count(h2, 1) as u64,
        col_count(h2, 2) as u64,
        col_count(h2, 3) as u64,
        col_count(h2, 4) as u64,
        col_count(h2, 5) as u64,
        col_count(h2, 6) as u64,
    );
    assert forall|c: int| 0 <= c < 7 implies #[trigger] col_count(h1, c) == col_count(h2, c) by {
        assert(c == 0 || c == 1 || c == 2 || c == 3 || c == 4 || c == 5 || c == 6);
    }
    if !has_four(replay_color(h1, last_side(h1))) && h1.len() < SIZE {
        assert forall|c: int|
            0 <= c < 7 && #[trigger] col_count(h1, c) < 6 implies game_value(h1.push(c as u8))
                == game_value(h2.push(c as u8)) by {
            lemma_push(h1, c);
            lemma_push(h2, c);
            assert(h1.len() as int % 2 == 0 || h1.len() as int % 2 == 1);
            lemma_value_same_position(h1.push(c as u8), h2.push(c as u8));
        }
        lemma_best_same(h1, h2, 7);
    }
}

/// A column with room that is not a candidate lets the other side win at
/// once.
pub proof fn lemma_non_candidate_loses(b: Board, c2: int)
    requires
        b.wf(),
        b.nplies < SIZE - 2,
        !has_four(b.color[1 - b.spec_side()]),
        !can_win_now(b),
        !forced_loss(b),
        0 <= c2 < 7,
        b.has_room(c2),
        !candidate_list(b).contains(c2 as usize),
    ensures
        game_value(b.history().push(c2 as u8)) == WIN,
{
    lemma_room_facts(b, c2);
    assert(!win_at(b, c2));
    let t = first_threat(b);
    lemma_first_threat_range(b, 0);
    if t < 7 {
        assert(candidate_list(b)[0] == t as usize);
        if c2 == t {
            assert(candidate_list(b).contains(t as usize));
        }
        lemma_reply_wins(b, c2, t);
    } else {
        if safe(b, c2) {
            lemma_safe_cols_contains(b, 7, c2);
        }
        lemma_reply_wins(b, c2, c2);
    }
}

/// A move that leaves the other side lost makes the position a win.
pub proof fn lemma_child_loss_wins(b: Board, c: int)
    requires
        b.wf(),
        !has_four(b.color[1 - b.spec_side()]),
        0 <= c < 7,
        b.has_room(c),
        game_value(b.history().push(c as u8)) == LOSS,
    ensures
        game_value(b.history()) == WIN,
{
    let h = b.history();
    lemma_room_facts(b, c);
    lemma_history_shape(h);
    assert(h.len() < SIZE) by {
        if h.len() >= SIZE {
            assert(0 <= col_count(h, 0) <= 6 && 0 <= col_count(h, 1) <= 6 && 0 <= col_count(h, 2)
                <= 6 && 0 <= col_count(h, 3) <= 6 && 0 <= col_count(h, 4) <= 6 && 0 <= col_count(h, 5)
                <= 6 && 0 <= col_count(h, 6) <= 6);
        }
    }
    lemma_best_ge(h, 7, c);
    assert forall|c2: int| 0 <= c2 < 7 && #[trigger] col_count(h, c2) < 6 implies LOSSWIN - game_value(
        h.push(c2 as u8),
    ) <= WIN by {
        lemma_push(h, c2);
        lemma_value_range(h.push(c2 as u8));
    }
    lemma_best_le(h, 7, WIN as int);
}

/// When every move leaves the other side winning, the position is lost.
pub proof fn lemma_all_children_win(b: Board)
    requires
        b.wf(),
        b.nplies < SIZE,
        !has_four(b.color[1 - b.spec_side()]),
        forall|c: int| 0 <= c < 7 && #[trigger] b.has_room(c) ==> game_value(b.history().push(c as u8)) == WIN,
    ensures
        game_value(b.history()) == LOSS,
{
    let h = b.history();
    assert(h.len() == b.nplies);
    assert forall|c: int| 0 <= c < 7 && #[trigger] col_count(h, c) < 6 implies LOSSWIN - game_value(
        h.push(c as u8),
    ) == LOSS by {
        lemma_room_facts(b, c);
    }
    let c0 = lemma_some_room(h);
    lemma_best_all(h, LOSS as int, c0);
}

proof fn lemma_best_nonneg(h: Seq<u8>, j: int)
    ensures
        best_value(h, j) >= 0,
    decreases j,
{
    if j > 0 {
        lemma_best_nonneg(h, j - 1);
    }
}

/// Two move sequences whose columns correspond under `c -> 6 - c`, with
/// equal values after corresponding moves, have the same best value.
pub(crate) proof fn lemma_best_bounds(h: Seq<u8>, hm: Seq<u8>)
    requires
        h.len() == hm.len(),
        h.len() < SIZE,
        forall|c: int| 0 <= c < 7 ==> #[trigger] col_count(hm, c) == col_count(h, 6 - c),
        forall|c: int|
            0 <= c < 7 && #[trigger] col_count(h, c) < 6 ==> game_value(h.push(c as u8)) == game_value(
                hm.push((6 - c) as u8),
            ),
    ensures
        best_value(hm, 7) == best_value(h, 7),
{
    lemma_best_nonneg(h, 7);
    lemma_best_nonneg(hm, 7);
    assert forall|c: int| 0 <= c < 7 && #[trigger] col_count(hm, c) < 6 implies LOSSWIN - game_value(
        hm.push(c as u8),
    ) <= best_value(h, 7) by {
        assert(col_count(h, 6 - c) < 6);
        assert(game_value(h.push((6 - c) as u8)) == game_value(hm.push((6 - (6 - c)) as u8)));
        lemma_best_ge(h, 7, 6 - c);
    }
    lemma_best_le(hm, 7, best_value(h, 7));
    assert forall|c: int| 0 <= c < 7 && #[trigger] col_count(h, c) < 6 implies LOSSWIN - game_value(
        h.push(c as u8),
    ) <= best_value(hm, 7) by {
        assert(col_count(hm, 6 - c) == col_count(h, 6 - (6 - c)));
        lemma_best_ge(hm, 7, 6 - c);
    }
    lemma_best_le(h, 7, best_value(hm, 7));
}

/// When every column with room scores at most `v` for the side to move and
/// column `c` scores exactly `v`, the position is worth `v`.
pub(crate) proof fn lemma_value_is_max(b: Board, c: int, v: int)
    requires
        b.wf(),
        b.nplies < SIZE,
        !has_four(b.color[1 - b.spec_side()]),
        0 <= c < 7,
        b.has_room(c),
        LOSSWIN - game_value(b.history().push(c as u8)) == v,
        forall|c2: int|
            0 <= c2 < 7 && #[trigger] b.has_room(c2) ==> LOSSWIN - game_value(
                b.history().push(c2 as u8),
            ) <= v,
    ensures
        game_value(b.history()) == v,
{
    let h = b.history();
    assert(h.len() == b.nplies);
    lemma_room_facts(b, c);
    lemma_push(h, c);
    lemma_value_range(h.push(c as u8));
    lemma_best_ge(h, 7, c);
    assert forall|c2: int| 0 <= c2 < 7 && #[trigger] col_count(h, c2) < 6 implies LOSSWIN - game_value(
        h.push(c2 as u8),
    ) <= v by {
        lemma_room_facts(b, c2);
    }
    lemma_best_le(h, 7, v);
}

/// A move that achieves the value of the position is optimal: no column
/// with room leaves the other side a lower value.
pub proof fn lemma_optimal_move(b: Board, c: int)
    requires
        b.wf(),
        b.nplies < SIZE,
        !has_four(b.color[1 - b.spec_side()]),
        0 <= c < 7,
        game_value(b.history()) == LOSSWIN - game_value(b.history().push(c as u8)),
    ensures
        forall|c2: int|
            0 <= c2 < 7 && #[trigger] b.has_room(c2) ==> game_value(b.history().push(c as u8))
                <= game_value(b.history().push(c2 as u8)),
{
    let h = b.history();
    assert(h.len() == b.nplies);
    assert forall|c2: int| 0 <= c2 < 7 && #[trigger] b.has_room(c2) implies game_value(
        h.push(c as u8),
    ) <= game_value(h.push(c2 as u8)) by {
        lemma_room_facts(b, c2);
        lemma_best_ge(h, 7, c2);
    }
}

/// The value after any column with room is between LOSS and WIN.
pub(crate) proof fn lemma_room_push_range(b: Board, c: int)
    requires
        b.wf(),
        0 <= c < 7,
        b.has_room(c),
    ensures
        LOSS <= game_value(b.history().push(c as u8)) <= WIN,
{
    lemma_room_facts(b, c);
    lemma_push(b.history(), c);
    lemma_value_range(b.history().push(c as u8));
}

} // verus!
