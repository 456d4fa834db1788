//! A standard, "textbook" Connect Four evaluation heuristic: for every
//! possible four-in-a-row window on the board (horizontal, vertical, and
//! both diagonals -- 69 of them on a 7x6 board), score how favorable that
//! window currently looks for each side, plus a small bonus for center-
//! column control (center squares participate in more winning lines than
//! edge squares). This has no connection to the exact solver -- it's an
//! approximation meant to be paired with depth-limited minimax.

use vstd::prelude::*;
use crate::board::{Board, H1, HEIGHT, WIDTH};

verus! {

/// Score awarded for a window containing exactly N of one side's pieces
/// and otherwise empty (index = piece count, 0..=3; four-in-a-row is a
/// terminal condition handled separately, never scored via this table).
const WINDOW_SCORE: [i32; 4] = [0, 1, 10, 50];

/// Bonus per own piece in the center column, and penalty per opponent piece
/// there.
const CENTER_BONUS: i32 = 3;

/// The single-bit mask of the square at column `c`, row `r`.
pub open spec fn cell_bit(c: int, r: int) -> u64 {
    1u64 << ((7 * c + r) as u64)
}

/// The four squares from (`c`, `r`) in direction (`dc`, `dr`).
pub open spec fn line_mask(c: int, r: int, dc: int, dr: int) -> u64 {
    cell_bit(c, r) | cell_bit(c + dc, r + dr) | cell_bit(c + 2 * dc, r + 2 * dr) | cell_bit(
        c + 3 * dc,
        r + 3 * dr,
    )
}

/// Start square and direction of window `k`: 24 horizontal windows (row
/// by row), then 21 vertical (column by column), then 12 rising and 12
/// falling diagonals.
pub open spec fn window_geom(k: int) -> (int, int, int, int) {
    if k < 24 {
        (k % 4, k / 4, 1, 0)
    } else if k < 45 {
        ((k - 24) / 3, (k - 24) % 3, 0, 1)
    } else if k < 57 {
        ((k - 45) / 3, (k - 45) % 3, 1, 1)
    } else {
        ((k - 57) / 3, 3 + (k - 57) % 3, 1, -1)
    }
}

/// The mask of window `k`.
pub open spec fn window(k: int) -> u64 {
    let g = window_geom(k);
    line_mask(g.0, g.1, g.2, g.3)
}

/// The 69 four-in-a-row windows of the board.
pub open spec fn window_seq() -> Seq<u64> {
    Seq::new(69, |k: int| window(k))
}

/// Set bits of `x` below position `n`.
pub open spec fn ones_below(x: u64, n: nat) -> nat
    decreases n,
{
    if n == 0 {
        0
    } else {
        ones_below(x, (n - 1) as nat) + if crate::board::bit(x, (n - 1) as u64) {
            1nat
        } else {
            0nat
        }
    }
}

/// Number of set bits of `x`.
pub open spec fn popcount(x: u64) -> nat {
    ones_below(x, 64)
}

/// Calls `u64::count_ones`, which returns the number of ones in the
/// binary representation of its argument.
#[verifier::external_body]
fn count_ones(x: u64) -> (n: u32)
    ensures
        n == popcount(x),
{
    x.count_ones()
}

fn bit(col: usize, row: usize) -> (b: u64)
    requires
        col < WIDTH,
        row < H1,
    ensures
        b == cell_bit(col as int, row as int),
{
    1u64 << (H1 * col + row)
}

/// All 69 four-in-a-row window bitmasks for a 7x6 board.
pub fn winning_windows() -> (windows: Vec<u64>)
    ensures
        windows@ == window_seq(),
{
    let mut windows: Vec<u64> = Vec::with_capacity(69);
    // Horizontal.
    let mut row = 0usize;
    while row < HEIGHT
        invariant
            row <= HEIGHT,
            windows@ == window_seq().take(4 * row as int),
        decreases HEIGHT - row,
    {
        let mut col = 0usize;
        while col <= WIDTH - 4
            invariant
                row < HEIGHT,
                col <= 4,
                windows@ == window_seq().take(4 * row + col),
            decreases WIDTH - col,
        {
            windows.push(bit(col, row) | bit(col + 1, row) | bit(col + 2, row) | bit(col + 3, row));
            proof {
                let k = 4 * row + col;
                assert(k % 4 == col && k / 4 == row);
                assert(windows@ =~= window_seq().take(k + 1));
            }
            col += 1;
        }
        row += 1;
    }
    // Vertical.
    let mut col = 0usize;
    while col < WIDTH
        invariant
            col <= WIDTH,
            windows@ == window_seq().take(24 + 3 * col),
        decreases WIDTH - col,
    {
        let mut row = 0usize;
        while row <= HEIGHT - 4
            invariant
                col < WIDTH,
                row <= 3,
                windows@ == window_seq().take(24 + 3 * col + row),
            decreases HEIGHT - row,
        {
            windows.push(bit(col, row) | bit(col, row + 1) | bit(col, row + 2) | bit(col, row + 3));
            proof {
                let k = 24 + 3 * col + row;
                assert((k - 24) / 3 == col && (k - 24) % 3 == row);
                assert(windows@ =~= window_seq().take(k + 1));
            }
            row += 1;
        }
        col += 1;
    }
    // Diagonal, rising left-to-right ("/").
    let mut col = 0usize;
    while col <= WIDTH - 4
        invariant
            col <= 4,
            windows@ == window_seq().take(45 + 3 * col),
        decreases WIDTH - col,
    {
        let mut row = 0usize;
        while row <= HEIGHT - 4
            invariant
                col < 4,
                row <= 3,
                windows@ == window_seq().take(45 + 3 * col + row),
            decreases HEIGHT - row,
        {
            windows.push(
                bit(col, row) | bit(col + 1, row + 1) | bit(col + 2, row + 2) | bit(col + 3, row + 3),
            );
            proof {
                let k = 45 + 3 * col + row;
                assert((k - 45) / 3 == col && (k - 45) % 3 == row);
                assert(windows@ =~= window_seq().take(k + 1));
            }
            row += 1;
        }
        col += 1;
    }
    // Diagonal, falling left-to-right ("\").
    let mut col = 0usize;
    while col <= WIDTH - 4
        invariant
            col <= 4,
            windows@ == window_seq().take(57 + 3 * col),
        decreases WIDTH - col,
    {
        let mut row = 3usize;
        while row < HEIGHT
            invariant
                col < 4,
                3 <= row <= 6,
                windows@ == window_seq().take(57 + 3 * col + row - 3),
            decreases HEIGHT - row,
        {
            windows.push(
                bit(col, row) | bit(col + 1, row - 1) | bit(col + 2, row - 2) | bit(col + 3, row - 3),
            );
            proof {
                let k = 57 + 3 * col + row - 3;
                assert((k - 57) / 3 == col && (k - 57) % 3 == row - 3);
                assert(windows@ =~= window_seq().take(k + 1));
            }
            row += 1;
        }
        col += 1;
    }
    proof {
        assert(windows@ =~= window_seq());
    }
    windows
}

/// Positions of the four squares of window `k`.
pub open spec fn window_pos(k: int, j: int) -> int {
    let g = window_geom(k);
    7 * (g.0 + j * g.2) + (g.1 + j * g.3)
}

/// The score of a window holding `n` pieces of one side and none of the other.
pub open spec fn window_score(n: nat) -> int {
    if n == 1 {
        1
    } else if n == 2 {
        10
    } else if n == 3 {
        50
    } else {
        0
    }
}

/// How window `w` counts for `mine` against `theirs`: a window contested
/// by both sides can never become a four-in-a-row for either, so it only
/// contributes while one side owns it exclusively.
pub open spec fn window_value(mine: u64, theirs: u64, w: u64) -> int {
    let a = popcount(mine & w);
    let b = popcount(theirs & w);
    if b == 0 && a > 0 {
        window_score(a)
    } else if a == 0 && b > 0 {
        -window_score(b)
    } else {
        0
    }
}

/// Sum of the values of the first `n` windows.
pub open spec fn windows_total(mine: u64, theirs: u64, n: nat) -> int
    decreases n,
{
    if n == 0 {
        0
    } else {
        windows_total(mine, theirs, (n - 1) as nat) + window_value(mine, theirs, window(n - 1))
    }
}

/// The lowest `n` squares of the center column.
pub open spec fn center_upto(n: nat) -> u64
    decreases n,
{
    if n == 0 {
        0
    } else {
        center_upto((n - 1) as nat) | cell_bit(3, n - 1)
    }
}

/// The heuristic value of `mine` against `theirs`.
pub open spec fn eval_spec(mine: u64, theirs: u64) -> int {
    windows_total(mine, theirs, 69) + 3 * popcount(mine & center_upto(6)) - 3 * popcount(
        theirs & center_upto(6),
    )
}

/// No window is completely filled by one side while the other has no
/// piece in it (such a side has already won).
pub open spec fn no_full_window(mine: u64, theirs: u64) -> bool {
    forall|k: int|
        0 <= k < 69 ==> !(mine & #[trigger] window(k) == window(k) && theirs & window(k) == 0)
            && !(theirs & window(k) == window(k) && mine & window(k) == 0)
}

proof fn lemma_mask4(x: u64, p0: u64, p1: u64, p2: u64, p3: u64, i: u64)
    by (bit_vector)
    requires
        p0 < 64 && p1 < 64 && p2 < 64 && p3 < 64,
    ensures
        crate::board::bit(
            x & ((1u64 << p0) | (1u64 << p1) | (1u64 << p2) | (1u64 << p3)),
            i,
        ) == (crate::board::bit(x, i) && (i == p0 || i == p1 || i == p2 || i == p3)),
        (x & ((1u64 << p0) | (1u64 << p1) | (1u64 << p2) | (1u64 << p3)) == ((1u64 << p0) | (1u64
            << p1) | (1u64 << p2) | (1u64 << p3))) == (crate::board::bit(x, p0) && crate::board::bit(
            x,
            p1,
        ) && crate::board::bit(x, p2) && crate::board::bit(x, p3)),
        (x & ((1u64 << p0) | (1u64 << p1) | (1u64 << p2) | (1u64 << p3)) == 0) == (
        !crate::board::bit(x, p0) && !crate::board::bit(x, p1) && !crate::board::bit(x, p2)
            && !crate::board::bit(x, p3)),
{
}

pub open spec fn ind(b: bool) -> nat {
    if b {
        1
    } else {
        0
    }
}

proof fn lemma_ones_below_mask4(x: u64, p0: u64, p1: u64, p2: u64, p3: u64, n: nat)
    requires
        p0 < 64 && p1 < 64 && p2 < 64 && p3 < 64,
        p0 != p1 && p0 != p2 && p0 != p3 && p1 != p2 && p1 != p3 && p2 != p3,
        n <= 64,
    ensures
        ones_below(x & ((1u64 << p0) | (1u64 << p1) | (1u64 << p2) | (1u64 << p3)), n) == ind(
            p0 < n && crate::board::bit(x, p0),
        ) + ind(p1 < n && crate::board::bit(x, p1)) + ind(p2 < n && crate::board::bit(x, p2)) + ind(
            p3 < n && crate::board::bit(x, p3),
        ),
    decreases n,
{
    if n > 0 {
        lemma_ones_below_mask4(x, p0, p1, p2, p3, (n - 1) as nat);
        lemma_mask4(x, p0, p1, p2, p3, (n - 1) as u64);
    }
}

/// The pieces of `x` in window `k` number between 0 and 4; there are 4
/// exactly when the window is full, and none exactly when it is empty.
proof fn lemma_window_count(x: u64, k: int)
    requires
        0 <= k < 69,
    ensures
        popcount(x & window(k)) <= 4,
        (popcount(x & window(k)) == 4) == (x & window(k) == window(k)),
        (popcount(x & window(k)) == 0) == (x & window(k) == 0),
{
    let p0 = window_pos(k, 0) as u64;
    let p1 = window_pos(k, 1) as u64;
    let p2 = window_pos(k, 2) as u64;
    let p3 = window_pos(k, 3) as u64;
    assert(window(k) == (1u64 << p0) | (1u64 << p1) | (1u64 << p2) | (1u64 << p3));
    lemma_ones_below_mask4(x, p0, p1, p2, p3, 64);
    lemma_mask4(x, p0, p1, p2, p3, 0);
}

proof fn lemma_ones_below_le(x: u64, n: nat)
    ensures
        ones_below(x, n) <= n,
    decreases n,
{
    if n > 0 {
        lemma_ones_below_le(x, (n - 1) as nat);
    }
}

/// Static evaluation of `board` from `side`'s point of view: positive favors
/// `side`, negative favors the opponent. Not meaningful for terminal
/// (already-won or full) positions -- callers should check those first.
pub fn evaluate(board: &Board, side: usize) -> (score: i32)
    requires
        side < 2,
        no_full_window(board.color[side as int], board.color[1 - side]),
    ensures
        score == eval_spec(board.color[side as int], board.color[1 - side]),
{
    proof {
        assert(side ^ 1 == 1 - side) by (bit_vector)
            requires
                side < 2,
        ;
    }
    let mine = board.color[side];
    let theirs = board.color[side ^ 1];
    let mut score = 0i32;
    let windows = winning_windows();
    let mut idx = 0usize;
    while idx < windows.len()
        invariant
            windows@ == window_seq(),
            idx <= 69,
            no_full_window(mine, theirs),
            score == windows_total(mine, theirs, idx as nat),
            -50 * idx <= score <= 50 * idx,
        decreases 69 - idx,
    {
        let w = windows[idx];
        proof {
            lemma_window_count(mine, idx as int);
            lemma_window_count(theirs, idx as int);
            assert(windows@[idx as int] == window(idx as int));
        }
        let mine_bits = count_ones(mine & w) as usize;
        let their_bits = count_ones(theirs & w) as usize;
        if their_bits == 0 && mine_bits > 0 {
            score += WINDOW_SCORE[mine_bits];
        } else if mine_bits == 0 && their_bits > 0 {
            score -= WINDOW_SCORE[their_bits];
        }
        idx += 1;
    }
    let center_col = WIDTH / 2;
    let mut center_mask: u64 = 0;
    let mut row = 0usize;
    while row < HEIGHT
        invariant
            row <= HEIGHT,
            center_col == 3,
            center_mask == center_upto(row as nat),
        decreases HEIGHT - row,
    {
        center_mask = center_mask | bit(center_col, row);
        row += 1;
    }
    proof {
        lemma_ones_below_le(mine & center_mask, 64);
        lemma_ones_below_le(theirs & center_mask, 64);
    }
    score += CENTER_BONUS * count_ones(mine & center_mask) as i32;
    score -= CENTER_BONUS * count_ones(theirs & center_mask) as i32;
    score
}

proof fn lemma_windows_total_antisymmetric(mine: u64, theirs: u64, n: nat)
    ensures
        windows_total(mine, theirs, n) == -windows_total(theirs, mine, n),
        -50 * n <= windows_total(mine, theirs, n) <= 50 * n,
    decreases n,
{
    if n > 0 {
        lemma_windows_total_antisymmetric(mine, theirs, (n - 1) as nat);
    }
}

/// The evaluation is zero-sum: what favors one side disfavors the other by
/// exactly as much.
pub proof fn lemma_eval_antisymmetric(mine: u64, theirs: u64)
    ensures
        eval_spec(mine, theirs) == -eval_spec(theirs, mine),
{
    lemma_windows_total_antisymmetric(mine, theirs, 69);
}

/// The evaluation stays well inside +-4000.
pub proof fn lemma_eval_bounds(mine: u64, theirs: u64)
    ensures
        -4000 < eval_spec(mine, theirs) < 4000,
{
    lemma_windows_total_antisymmetric(mine, theirs, 69);
    lemma_ones_below_le(mine & center_upto(6), 64);
    lemma_ones_below_le(theirs & center_upto(6), 64);
}

/// A side owning a whole window has four in a row; so when neither side
/// has four in a row, no window is full.
pub proof fn lemma_no_four_no_full_window(mine: u64, theirs: u64)
    requires
        !crate::board::has_four(mine),
        !crate::board::has_four(theirs),
    ensures
        no_full_window(mine, theirs),
{
    assert forall|k: int| 0 <= k < 69 implies !(mine & #[trigger] window(k) == window(k) && theirs
        & window(k) == 0) && !(theirs & window(k) == window(k) && mine & window(k) == 0) by {
        if mine & window(k) == window(k) {
            lemma_full_window_four(mine, k);
        }
        if theirs & window(k) == window(k) {
            lemma_full_window_four(theirs, k);
        }
    }
}

proof fn lemma_full_window_four(x: u64, k: int)
    requires
        0 <= k < 69,
        x & window(k) == window(k),
    ensures
        crate::board::has_four(x),
{
    let p0 = window_pos(k, 0) as u64;
    let p1 = window_pos(k, 1) as u64;
    let p2 = window_pos(k, 2) as u64;
    let p3 = window_pos(k, 3) as u64;
    let g = window_geom(k);
    let d = (7 * g.2 + g.3) as u64;
    assert(window(k) == (1u64 << p0) | (1u64 << p1) | (1u64 << p2) | (1u64 << p3));
    lemma_mask4(x, p0, p1, p2, p3, 0);
    assert(p1 == (p0 + d) as u64 && p2 == (p0 + 2 * d) as u64 && p3 == (p0 + 3 * d) as u64);
    assert(crate::board::four_from(x, p0, d));
    assert(crate::board::line_at(x, p0));
}

} // verus!
