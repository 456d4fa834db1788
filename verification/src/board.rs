//! Bitboard core for Connect Four.
//!
//! Board encoding (7x6 case), bit index = H1*col + row, row 0 = bottom:
//!   .  .  .  .  .  .  .   TOP (guard row)
//!   5 12 19 26 33 40 47
//!   4 11 18 25 32 39 46
//!   3 10 17 24 31 38 45
//!   2  9 16 23 30 37 44
//!   1  8 15 22 29 36 43
//!   0  7 14 21 28 35 42   BOTTOM
//!
//! `color[nplies & 1]` is always the side to move.

use vstd::prelude::*;

verus! {

pub const WIDTH: usize = 7;

pub const HEIGHT: usize = 6;

/// Column stride, including the guard row.
pub const H1: usize = 7;

pub const H2: usize = 8;

/// Playable squares.
pub const SIZE: usize = 42;

/// Bits used, guard row included.
pub const SIZE1: usize = 49;

/// Bit `i*H1` set for each column `i` (the bottom row).
pub const BOTTOM: u64 = 0x40810204081;

/// The guard-row bit of each column (one above the playable rows).
pub const TOP: u64 = 0x1020408102040;

/// Bit `i` of `x` (false for `i >= 64`).
pub open spec fn bit(x: u64, i: u64) -> bool {
    (x >> i) & 1u64 == 1u64
}

/// Number of times column `c` occurs in the move sequence `s`.
pub open spec fn col_count(s: Seq<u8>, c: int) -> int
    decreases s.len(),
{
    if s.len() == 0 {
        0
    } else {
        col_count(s.drop_last(), c) + if s.last() == c { 1int } else { 0int }
    }
}

/// Bit index of the next free square of column `c` after the moves `s`.
pub open spec fn replay_height(s: Seq<u8>, c: int) -> int {
    7 * c + col_count(s, c)
}

/// Stones of player `p` (0 moves first) after the moves `s`.
pub open spec fn replay_color(s: Seq<u8>, p: int) -> u64
    decreases s.len(),
{
    if s.len() == 0 {
        0u64
    } else {
        let prev = s.drop_last();
        let before = replay_color(prev, p);
        if prev.len() % 2 == p {
            before ^ (1u64 << (replay_height(prev, s.last() as int) as u64))
        } else {
            before
        }
    }
}

/// Every move names a column (0-based) that still had room when it was played.
pub open spec fn legal_history(s: Seq<u8>) -> bool
    decreases s.len(),
{
    s.len() == 0 || (legal_history(s.drop_last()) && s.last() < 7 && col_count(
        s.drop_last(),
        s.last() as int,
    ) < 6)
}

/// Squares `7*c .. 7*c + k` (the lowest `k` squares of column `c`).
pub open spec fn col_bits(c: u64, k: u64) -> u64 {
    (!(0xffff_ffff_ffff_ffffu64 << k)) << (7 * c)
}

/// Occupied squares when column `c` holds `kc` stones.
pub open spec fn occ7(k0: u64, k1: u64, k2: u64, k3: u64, k4: u64, k5: u64, k6: u64) -> u64 {
    col_bits(0, k0) | col_bits(1, k1) | col_bits(2, k2) | col_bits(3, k3) | col_bits(4, k4)
        | col_bits(5, k5) | col_bits(6, k6)
}

/// Occupied squares after the moves `s`.
pub open spec fn occupied(s: Seq<u8>) -> u64 {
    occ7(
        col_count(s, 0) as u64,
        col_count(s, 1) as u64,
        col_count(s, 2) as u64,
        col_count(s, 3) as u64,
        col_count(s, 4) as u64,
        col_count(s, 5) as u64,
        col_count(s, 6) as u64,
    )
}

/// Shape facts that hold of every legal move sequence.
pub open spec fn history_shape(s: Seq<u8>) -> bool {
    &&& forall|c: int| 0 <= c < 7 ==> 0 <= #[trigger] col_count(s, c) <= 6
    &&& col_count(s, 0) + col_count(s, 1) + col_count(s, 2) + col_count(s, 3) + col_count(s, 4)
        + col_count(s, 5) + col_count(s, 6) == s.len()
    &&& replay_color(s, 0) & replay_color(s, 1) == 0
    &&& replay_color(s, 0) | replay_color(s, 1) == occupied(s)
    &&& forall|k: int| 0 <= k < s.len() ==> #[trigger] s[k] < 7
}

proof fn lemma_xor_fresh_bit(x: u64, y: u64, o: u64, b: u64)
    by (bit_vector)
    requires
        x & y == 0,
        x | y == o,
        o & b == 0,
    ensures
        (x ^ b) & y == 0,
        (x ^ b) | y == o | b,
        x & (y ^ b) == 0,
        x | (y ^ b) == o | b,
{
}

pub(crate) proof fn lemma_occ_step(
    k0: u64,
    k1: u64,
    k2: u64,
    k3: u64,
    k4: u64,
    k5: u64,
    k6: u64,
    m: u64,
    km: u64,
)
    by (bit_vector)
    requires
        k0 <= 6 && k1 <= 6 && k2 <= 6 && k3 <= 6 && k4 <= 6 && k5 <= 6 && k6 <= 6,
        m < 7,
        km < 6,
        m == 0 ==> km == k0,
        m == 1 ==> km == k1,
        m == 2 ==> km == k2,
        m == 3 ==> km == k3,
        m == 4 ==> km == k4,
        m == 5 ==> km == k5,
        m == 6 ==> km == k6,
    ensures
        occ7(k0, k1, k2, k3, k4, k5, k6) & (1u64 << (7 * m + km)) == 0,
        occ7(
            if m == 0 { (k0 + 1) as u64 } else { k0 },
            if m == 1 { (k1 + 1) as u64 } else { k1 },
            if m == 2 { (k2 + 1) as u64 } else { k2 },
            if m == 3 { (k3 + 1) as u64 } else { k3 },
            if m == 4 { (k4 + 1) as u64 } else { k4 },
            if m == 5 { (k5 + 1) as u64 } else { k5 },
            if m == 6 { (k6 + 1) as u64 } else { k6 },
        ) == occ7(k0, k1, k2, k3, k4, k5, k6) | (1u64 << (7 * m + km)),
{
}


pub(crate) proof fn lemma_col_count_push(s: Seq<u8>, m: u8, c: int)
    ensures
        col_count(s.push(m), c) == col_count(s, c) + if m == c { 1int } else { 0int },
{
    assert(s.push(m).drop_last() =~= s);
}

/// Every legal move sequence has the expected shape: per-column counts in
/// range, summing to the number of moves, and the two players' stones
/// forming disjoint sets whose union is exactly the filled squares.
pub proof fn lemma_history_shape(s: Seq<u8>)
    requires
        legal_history(s),
    ensures
        history_shape(s),
    decreases s.len(),
{
    if s.len() == 0 {
        assert(occupied(s) == 0) by {
            assert(occ7(0, 0, 0, 0, 0, 0, 0) == 0) by (bit_vector);
        }
        assert(0u64 & 0u64 == 0 && 0u64 | 0u64 == 0) by (bit_vector);
        assert(history_shape(s));
    } else {
        let prev = s.drop_last();
        let m = s.last();
        assert(s =~= prev.push(m));
        lemma_history_shape(prev);
        assert forall|c: int| 0 <= c < 7 implies 0 <= #[trigger] col_count(s, c) <= 6 by {
            lemma_col_count_push(prev, m, c);
            assert(col_count(prev, c) <= 6);
        }
        let k0 = col_count(prev, 0) as u64;
        let k1 = col_count(prev, 1) as u64;
        let k2 = col_count(prev, 2) as u64;
        let k3 = col_count(prev, 3) as u64;
        let k4 = col_count(prev, 4) as u64;
        let k5 = col_count(prev, 5) as u64;
        let k6 = col_count(prev, 6) as u64;
        let km = col_count(prev, m as int) as u64;
        assert(0 <= col_count(prev, 0) <= 6);
        assert(0 <= col_count(prev, 1) <= 6);
        assert(0 <= col_count(prev, 2) <= 6);
        assert(0 <= col_count(prev, 3) <= 6);
        assert(0 <= col_count(prev, 4) <= 6);
        assert(0 <= col_count(prev, 5) <= 6);
        assert(0 <= col_count(prev, 6) <= 6);
        lemma_col_count_push(prev, m, 0);
        lemma_col_count_push(prev, m, 1);
        lemma_col_count_push(prev, m, 2);
        lemma_col_count_push(prev, m, 3);
        lemma_col_count_push(prev, m, 4);
        lemma_col_count_push(prev, m, 5);
        lemma_col_count_push(prev, m, 6);
        lemma_occ_step(k0, k1, k2, k3, k4, k5, k6, m as u64, km);
        let b = 1u64 << (7 * (m as u64) + km);
        assert(b == 1u64 << (replay_height(prev, m as int) as u64));
        assert(occupied(s) == occupied(prev) | b);
        let x = replay_color(prev, 0);
        let y = replay_color(prev, 1);
        lemma_xor_fresh_bit(x, y, occupied(prev), b);
        if prev.len() % 2 == 0 {
            assert(replay_color(s, 0) == x ^ b);
            assert(replay_color(s, 1) == y);
        } else {
            assert(replay_color(s, 0) == x);
            assert(replay_color(s, 1) == y ^ b);
        }
        assert(replay_color(s, 0) & replay_color(s, 1) == 0);
        assert(replay_color(s, 0) | replay_color(s, 1) == occupied(s));
        assert(col_count(s, 0) + col_count(s, 1) + col_count(s, 2) + col_count(s, 3) + col_count(s, 4)
        + col_count(s, 5) + col_count(s, 6) == s.len());
        assert forall|k: int| 0 <= k < s.len() implies #[trigger] s[k] < 7 by {
            if k < prev.len() {
                assert(s[k] == prev[k]);
            }
        }
    }
}


proof fn lemma_xor_twice(a: u64, b: u64)
    by (bit_vector)
    ensures
        (a ^ b) ^ b == a,
{
}

/// With every column holding at most six stones, no stone sits in the guard
/// row, and a new stone at bit `h` is legal exactly when `h` is not a guard bit.
pub(crate) proof fn lemma_guard_row(
    x: u64,
    y: u64,
    k0: u64,
    k1: u64,
    k2: u64,
    k3: u64,
    k4: u64,
    k5: u64,
    k6: u64,
    h: u64,
)
    by (bit_vector)
    requires
        k0 <= 6 && k1 <= 6 && k2 <= 6 && k3 <= 6 && k4 <= 6 && k5 <= 6 && k6 <= 6,
        x | y == occ7(k0, k1, k2, k3, k4, k5, k6),
        h < 49,
    ensures
        x & 0x1020408102040u64 == 0,
        y & 0x1020408102040u64 == 0,
        ((x | (1u64 << h)) & 0x1020408102040u64 == 0) == (h % 7 != 6),
        ((y | (1u64 << h)) & 0x1020408102040u64 == 0) == (h % 7 != 6),
{
}

/// The position code of a well-formed board fits in 49 bits: in each column
/// the filled squares plus the marker bit above them never carry into the
/// next column.
pub(crate) proof fn lemma_code_bound(
    x: u64,
    y: u64,
    k0: u64,
    k1: u64,
    k2: u64,
    k3: u64,
    k4: u64,
    k5: u64,
    k6: u64,
)
    by (bit_vector)
    requires
        k0 <= 6 && k1 <= 6 && k2 <= 6 && k3 <= 6 && k4 <= 6 && k5 <= 6 && k6 <= 6,
        x & y == 0,
        x | y == occ7(k0, k1, k2, k3, k4, k5, k6),
    ensures
        x + x + y + 0x40810204081u64 < 0x2000000000000u64,
        y + x + y + 0x40810204081u64 < 0x2000000000000u64,
{
}

/// The digit character of `d` (0..=9).
pub open spec fn digit_char(d: int) -> char {
    (d + 48) as char
}

/// The decimal digits of `n`.
pub open spec fn decimal(n: nat) -> Seq<char>
    decreases n,
{
    if n < 10 {
        seq![digit_char(n as int)]
    } else {
        decimal(n / 10).push(digit_char((n % 10) as int))
    }
}

/// The first `k` entries of `moves`, each written in decimal, run together.
pub open spec fn moves_digits(moves: [u8; SIZE], k: int) -> Seq<char>
    decreases k,
{
    if k <= 0 {
        Seq::empty()
    } else {
        moves_digits(moves, k - 1) + decimal(moves[k - 1] as nat)
    }
}

/// The text `Moves: ` followed by each move played, in decimal.
pub open spec fn moves_line(b: Board) -> Seq<char> {
    "Moves: "@ + moves_digits(b.moves, b.nplies as int)
}

fn digit_str(d: u8) -> (s: &'static str)
    requires
        d < 10,
    ensures
        s@ == seq![digit_char(d as int)],
{
    if d == 0 {
        proof { reveal_strlit("0"); }
        "0"
    } else if d == 1 {
        proof { reveal_strlit("1"); }
        "1"
    } else if d == 2 {
        proof { reveal_strlit("2"); }
        "2"
    } else if d == 3 {
        proof { reveal_strlit("3"); }
        "3"
    } else if d == 4 {
        proof { reveal_strlit("4"); }
        "4"
    } else if d == 5 {
        proof { reveal_strlit("5"); }
        "5"
    } else if d == 6 {
        proof { reveal_strlit("6"); }
        "6"
    } else if d == 7 {
        proof { reveal_strlit("7"); }
        "7"
    } else if d == 8 {
        proof { reveal_strlit("8"); }
        "8"
    } else {
        proof { reveal_strlit("9"); }
        "9"
    }
}

/// Append `n` in decimal.
fn push_decimal(text: &mut String, n: u8)
    ensures
        final(text)@ == old(text)@ + decimal(n as nat),
{
    let ghost t0 = text@;
    proof {
        reveal_with_fuel(decimal, 3);
    }
    if n >= 100 {
        text.append(digit_str(n / 100));
        text.append(digit_str((n / 10) % 10));
        proof {
            assert(decimal((n / 10) as nat) =~= seq![digit_char((n / 100) as int), digit_char(((n / 10) % 10) as int)]);
        }
    } else if n >= 10 {
        text.append(digit_str(n / 10));
    }
    text.append(digit_str(n % 10));
    proof {
        assert(text@ =~= t0 + decimal(n as nat));
    }
}

/// Bits `i`, `i + d`, `i + 2d` and `i + 3d` of `x` are all set.
pub open spec fn four_from(x: u64, i: u64, d: u64) -> bool {
    bit(x, i) && bit(x, (i + d) as u64) && bit(x, (i + 2 * d) as u64) && bit(x, (i + 3 * d) as u64)
}

/// Four set bits starting at `i`, spaced vertically (1), along either
/// diagonal (`HEIGHT` or `H2`) or horizontally (`H1`).
pub open spec fn line_at(x: u64, i: u64) -> bool {
    four_from(x, i, 1) || four_from(x, i, 6) || four_from(x, i, 7) || four_from(x, i, 8)
}

/// `x` contains four in a row, in bitboard terms.
pub open spec fn has_four(x: u64) -> bool {
    exists|i: u64| i < 64 && #[trigger] line_at(x, i)
}

/// The word whose set bits mark the start of a four-in-a-row of `x`.
pub open spec fn win_mask(x: u64) -> u64 {
    let diag1 = x & (x >> 6u64);
    let hori = x & (x >> 7u64);
    let diag2 = x & (x >> 8u64);
    let vert = x & (x >> 1u64);
    (diag1 & (diag1 >> 12u64)) | (hori & (hori >> 14u64)) | (diag2 & (diag2 >> 16u64)) | (vert & (
    vert >> 2u64))
}

proof fn lemma_win_mask_bit(x: u64, i: u64)
    by (bit_vector)
    requires
        i < 64,
    ensures
        bit(win_mask(x), i) == line_at(x, i),
{
}

/// A word is nonzero exactly when one of its 64 bits is set.
pub proof fn lemma_nonzero_has_bit(w: u64)
    ensures
        (w != 0) == exists|i: u64| i < 64 && #[trigger] bit(w, i),
{
    vstd::std_specs::bits::axiom_u64_trailing_zeros(w);
    let tz = vstd::std_specs::bits::u64_trailing_zeros(w) as u64;
    if w != 0 {
        assert(bit(w, tz));
    } else {
        assert forall|i: u64| i < 64 implies !#[trigger] bit(w, i) by {
            assert((w >> i) & 1u64 == 0u64);
        }
    }
}

/// On a well-formed board, a stone dropped at `height[c]` on top of either
/// player's stones stays out of the guard row exactly when column `c` has room.
pub proof fn lemma_open_column(b: Board, c: int)
    requires
        b.wf(),
        0 <= c < 7,
    ensures
        ((b.color[0] | (1u64 << b.height[c])) & TOP == 0) == b.has_room(c),
        ((b.color[1] | (1u64 << b.height[c])) & TOP == 0) == b.has_room(c),
        b.height[c] < 49,
{
    b.lemma_shape();
    lemma_guard_row(
        b.color[0],
        b.color[1],
        b.stones_in(0) as u64,
        b.stones_in(1) as u64,
        b.stones_in(2) as u64,
        b.stones_in(3) as u64,
        b.stones_in(4) as u64,
        b.stones_in(5) as u64,
        b.stones_in(6) as u64,
        b.height[c] as u64,
    );
    assert(0 <= b.stones_in(c) <= 6);
}

/// The playable squares (every column's rows 0..6, no guard bits).
pub const PLAYABLE: u64 = 0xfdfbf7efdfbf;

/// Square (`c`, `r`) of the 7x6 board holds a stone of `x`.
pub open spec fn stone_at(x: u64, c: int, r: int) -> bool {
    0 <= c < 7 && 0 <= r < 6 && bit(x, (7 * c + r) as u64)
}

/// Four stones of `x` in a row from (`c`, `r`) in direction (`dc`, `dr`).
pub open spec fn four_in_a_row(x: u64, c: int, r: int, dc: int, dr: int) -> bool {
    stone_at(x, c, r) && stone_at(x, c + dc, r + dr) && stone_at(x, c + 2 * dc, r + 2 * dr)
        && stone_at(x, c + 3 * dc, r + 3 * dr)
}

/// Up, right, up-right or down-right.
pub open spec fn is_direction(dc: int, dr: int) -> bool {
    (dc == 0 && dr == 1) || (dc == 1 && dr == 0) || (dc == 1 && dr == 1) || (dc == 1 && dr == -1)
}

/// `x` has four stones in a row vertically, horizontally or diagonally on
/// the 7x6 board.
pub open spec fn connects_four(x: u64) -> bool {
    exists|c: int, r: int, dc: int, dr: int|
        is_direction(dc, dr) && #[trigger] four_in_a_row(x, c, r, dc, dr)
}

proof fn lemma_playable_bit(x: u64, i: u64)
    by (bit_vector)
    requires
        x & !0xfdfbf7efdfbfu64 == 0,
        (x >> i) & 1u64 == 1u64,
    ensures
        i < 49 && i % 7 != 6,
{
}

/// For stones on playable squares only, the bitboard test for four in a
/// row finds exactly the four-in-a-rows of the 7x6 board: the guard row
/// keeps a vertical or diagonal run from wrapping into the next column.
pub proof fn lemma_has_four_is_connect_four(x: u64)
    requires
        x & !PLAYABLE == 0,
    ensures
        has_four(x) == connects_four(x),
{
    if connects_four(x) {
        let (c, r, dc, dr) = choose|c: int, r: int, dc: int, dr: int|
            is_direction(dc, dr) && #[trigger] four_in_a_row(x, c, r, dc, dr);
        let i = (7 * c + r) as u64;
        let d = (7 * dc + dr) as u64;
        assert(four_from(x, i, d));
        assert(line_at(x, i));
    }
    if has_four(x) {
        let i = choose|i: u64| i < 64 && #[trigger] line_at(x, i);
        let c = i as int / 7;
        let r = i as int % 7;
        if four_from(x, i, 1) {
            lemma_playable_bit(x, i);
            lemma_playable_bit(x, (i + 1) as u64);
            lemma_playable_bit(x, (i + 2) as u64);
            lemma_playable_bit(x, (i + 3) as u64);
            assert(four_in_a_row(x, c, r, 0, 1));
        } else if four_from(x, i, 7) {
            lemma_playable_bit(x, i);
            lemma_playable_bit(x, (i + 21) as u64);
            assert(four_in_a_row(x, c, r, 1, 0));
        } else if four_from(x, i, 8) {
            lemma_playable_bit(x, i);
            lemma_playable_bit(x, (i + 8) as u64);
            lemma_playable_bit(x, (i + 16) as u64);
            lemma_playable_bit(x, (i + 24) as u64);
            assert(four_in_a_row(x, c, r, 1, 1));
        } else {
            assert(four_from(x, i, 6));
            lemma_playable_bit(x, i);
            lemma_playable_bit(x, (i + 6) as u64);
            lemma_playable_bit(x, (i + 12) as u64);
            lemma_playable_bit(x, (i + 18) as u64);
            assert(four_in_a_row(x, c, r, 1, -1));
        }
    }
}

pub(crate) proof fn lemma_filled_playable(x: u64, y: u64, k0: u64, k1: u64, k2: u64, k3: u64, k4: u64, k5: u64, k6: u64)
    by (bit_vector)
    requires
        k0 <= 6 && k1 <= 6 && k2 <= 6 && k3 <= 6 && k4 <= 6 && k5 <= 6 && k6 <= 6,
        x | y == occ7(k0, k1, k2, k3, k4, k5, k6),
    ensures
        x & !0xfdfbf7efdfbfu64 == 0,
        y & !0xfdfbf7efdfbfu64 == 0,
{
}

#[derive(Clone, Copy)]
pub struct Board {
    /// `color[0]` = stones of the player who moved first, `color[1]` = the
    /// other's; `color[nplies & 1]` belongs to the side to move.
    pub color: [u64; 2],
    /// `height[col]` = bit index of the next free square in that column.
    pub height: [u8; WIDTH],
    /// Move history, column index per ply (0-based), used to unmake moves.
    pub moves: [u8; SIZE],
    pub nplies: usize,
}

impl Board {
    /// The moves played so far, oldest first.
    pub open spec fn history(&self) -> Seq<u8> {
        self.moves@.take(self.nplies as int)
    }

    /// The board is exactly the position reached by its legal move history.
    pub open spec fn wf(&self) -> bool {
        &&& self.nplies <= SIZE
        &&& legal_history(self.history())
        &&& forall|c: int|
            0 <= c < 7 ==> self.height[c] as int == #[trigger] replay_height(self.history(), c)
        &&& self.color[0] == replay_color(self.history(), 0)
        &&& self.color[1] == replay_color(self.history(), 1)
    }

    /// Stones in column `col`.
    pub open spec fn stones_in(&self, col: int) -> int {
        self.height[col] - 7 * col
    }

    /// Column `col` has room for another stone.
    pub open spec fn has_room(&self, col: int) -> bool {
        self.height[col] < 7 * col + 6
    }

    /// Side to move: 0 or 1.
    pub open spec fn spec_side(&self) -> int {
        self.nplies as int % 2
    }

    /// Squares filled on the board, by column stone counts.
    pub open spec fn filled(&self) -> u64 {
        occ7(
            self.stones_in(0) as u64,
            self.stones_in(1) as u64,
            self.stones_in(2) as u64,
            self.stones_in(3) as u64,
            self.stones_in(4) as u64,
            self.stones_in(5) as u64,
            self.stones_in(6) as u64,
        )
    }

    /// Shape of a well-formed board.
    pub proof fn lemma_shape(&self)
        requires
            self.wf(),
        ensures
            forall|c: int| 0 <= c < 7 ==> 0 <= #[trigger] self.stones_in(c) <= 6,
            self.stones_in(0) + self.stones_in(1) + self.stones_in(2) + self.stones_in(3)
                + self.stones_in(4) + self.stones_in(5) + self.stones_in(6) == self.nplies,
            self.color[0] & self.color[1] == 0,
            self.color[0] | self.color[1] == self.filled(),
            forall|k: int| 0 <= k < self.nplies ==> #[trigger] self.moves[k] < 7,
            self.color[0] & TOP == 0,
            self.color[1] & TOP == 0,
            self.color[0] & !PLAYABLE == 0,
            self.color[1] & !PLAYABLE == 0,
            self.position_code_spec() < 0x2000000000000u64,
    {
        let s = self.history();
        lemma_history_shape(s);
        assert forall|c: int| 0 <= c < 7 implies 0 <= #[trigger] self.stones_in(c) <= 6 by {
            assert(self.height[c] as int == replay_height(s, c));
        }
        assert(self.height[0] as int == replay_height(s, 0));
        assert(self.height[1] as int == replay_height(s, 1));
        assert(self.height[2] as int == replay_height(s, 2));
        assert(self.height[3] as int == replay_height(s, 3));
        assert(self.height[4] as int == replay_height(s, 4));
        assert(self.height[5] as int == replay_height(s, 5));
        assert(self.height[6] as int == replay_height(s, 6));
        assert(self.filled() == occupied(s));
        assert forall|k: int| 0 <= k < self.nplies implies #[trigger] self.moves[k] < 7 by {
            assert(s[k] == self.moves[k]);
        }
        let k0 = self.stones_in(0) as u64;
        let k1 = self.stones_in(1) as u64;
        let k2 = self.stones_in(2) as u64;
        let k3 = self.stones_in(3) as u64;
        let k4 = self.stones_in(4) as u64;
        let k5 = self.stones_in(5) as u64;
        let k6 = self.stones_in(6) as u64;
        lemma_guard_row(self.color[0], self.color[1], k0, k1, k2, k3, k4, k5, k6, 0);
        lemma_code_bound(self.color[0], self.color[1], k0, k1, k2, k3, k4, k5, k6);
        lemma_filled_playable(self.color[0], self.color[1], k0, k1, k2, k3, k4, k5, k6);
    }

    /// Exact encoding of the position: whose turn plus both players' stones.
    pub open spec fn position_code_spec(&self) -> int {
        self.color[self.spec_side()] + self.color[0] + self.color[1] + BOTTOM
    }

    pub fn new() -> (b: Self)
        ensures
            b.wf(),
            b.nplies == 0,
            b.color[0] == 0,
            b.color[1] == 0,
            forall|c: int| 0 <= c < 7 ==> #[trigger] b.height[c] == 7 * c,
    {
        let b = Board {
            color: [0, 0],
            height: [0, 7, 14, 21, 28, 35, 42],
            moves: [0u8; SIZE],
            nplies: 0,
        };
        assert(b.history() =~= Seq::<u8>::empty());
        b
    }

    pub fn reset(&mut self)
        ensures
            final(self).wf(),
            final(self).nplies == 0,
            final(self).color[0] == 0,
            final(self).color[1] == 0,
            forall|c: int| 0 <= c < 7 ==> #[trigger] final(self).height[c] == 7 * c,
    {
        *self = Board::new();
    }

    /// Side to move: 0 or 1.
    #[inline]
    pub fn side(&self) -> (s: usize)
        ensures
            s == self.spec_side(),
    {
        let n = self.nplies;
        assert(n & 1 == n % 2) by (bit_vector);
        n & 1
    }

    /// True iff `newboard` has no stone in the guard row (no column overflow).
    #[inline]
    pub fn is_legal(newboard: u64) -> (r: bool)
        ensures
            r == (newboard & TOP == 0),
    {
        newboard & TOP == 0
    }

    /// True iff column `col` has room for another stone.
    #[inline]
    pub fn is_playable(&self, col: usize) -> (r: bool)
        requires
            col < WIDTH,
            self.height[col as int] < 64,
        ensures
            r == ((self.color[self.spec_side()] | (1u64 << self.height[col as int])) & TOP == 0),
            self.wf() ==> (r == self.has_room(col as int)),
    {
        let candidate = self.color[self.side()] | (1u64 << self.height[col]);
        proof {
            if self.wf() {
                self.lemma_shape();
                lemma_guard_row(
                    self.color[0],
                    self.color[1],
                    self.stones_in(0) as u64,
                    self.stones_in(1) as u64,
                    self.stones_in(2) as u64,
                    self.stones_in(3) as u64,
                    self.stones_in(4) as u64,
                    self.stones_in(5) as u64,
                    self.stones_in(6) as u64,
                    self.height[col as int] as u64,
                );
                assert(0 <= self.stones_in(col as int) <= 6);
            }
        }
        Board::is_legal(candidate)
    }

    /// True iff `newboard` contains four in a row (horizontal, vertical, or
    /// either diagonal).
    #[inline]
    pub fn has_won(newboard: u64) -> (r: bool)
        ensures
            r == has_four(newboard),
    {
        // each of the four directions is handled the same way:
        // 1) detect adjacent coins
        // 2) shift 'two positions' to detect four stones next to each other
        let diag1 = newboard & (newboard >> HEIGHT);
        let hori = newboard & (newboard >> H1);  // 1 => pair of coins in a row
        let diag2 = newboard & (newboard >> H2);
        let vert = newboard & (newboard >> 1);
        let win = (diag1 & (diag1 >> (2 * HEIGHT))) | (hori & (hori >> (2 * H1)))  // 1 => 2 pairs of coins next to each other
         | (diag2 & (diag2 >> (2 * H2))) | (vert & (vert >> 2));
        proof {
            assert(win == win_mask(newboard));
            lemma_nonzero_has_bit(win);
            if win != 0 {
                let i = choose|i: u64| i < 64 && #[trigger] bit(win, i);
                lemma_win_mask_bit(newboard, i);
                assert(line_at(newboard, i));
            } else {
                assert forall|i: u64| i < 64 implies !#[trigger] line_at(newboard, i) by {
                    lemma_win_mask_bit(newboard, i);
                }
            }
        }
        win != 0
    }

    /// True iff `newboard` is both a legal position and a win.
    #[inline]
    pub fn is_legal_has_won(newboard: u64) -> (r: bool)
        ensures
            r == (newboard & TOP == 0 && has_four(newboard)),
    {
        Board::is_legal(newboard) && Board::has_won(newboard)
    }

    /// `after` is `before` with a stone of the side to move dropped in `col`.
    pub open spec fn made_move(before: Board, after: Board, col: int) -> bool {
        let side = before.spec_side();
        &&& after.nplies == before.nplies + 1
        &&& after.history() == before.history().push(col as u8)
        &&& after.height[col] == before.height[col] + 1
        &&& forall|c: int| 0 <= c < 7 && c != col ==> #[trigger] after.height[c] == before.height[c]
        &&& after.color[side] == before.color[side] ^ (1u64 << before.height[col])
        &&& after.color[1 - side] == before.color[1 - side]
    }

    /// `after` is `before` with its last move taken back.
    pub open spec fn unmade_move(before: Board, after: Board) -> bool {
        let col = before.moves[before.nplies - 1] as int;
        let side = after.spec_side();
        &&& after.nplies == before.nplies - 1
        &&& after.history() == before.history().drop_last()
        &&& after.moves == before.moves
        &&& after.height[col] == before.height[col] - 1
        &&& forall|c: int| 0 <= c < 7 && c != col ==> #[trigger] after.height[c] == before.height[c]
        &&& after.color[side] == before.color[side] ^ (1u64 << after.height[col])
        &&& after.color[1 - side] == before.color[1 - side]
    }

    /// Play a stone in `col` for the side to move; the column must have room.
    pub fn make_move(&mut self, col: usize)
        requires
            old(self).wf(),
            col < WIDTH,
            old(self).has_room(col as int),
        ensures
            final(self).wf(),
            Board::made_move(*old(self), *final(self), col as int),
    {
        proof {
            self.lemma_shape();
        }
        let ghost h = self.history();
        let side = self.side();
        self.color[side] = self.color[side] ^ (1u64 << self.height[col]);
        self.height[col] = self.height[col] + 1;
        self.moves[self.nplies] = col as u8;
        self.nplies = self.nplies + 1;
        proof {
            let h2 = self.history();
            assert(h2 =~= h.push(col as u8));
            assert(h2.drop_last() =~= h);
            assert(old(self).height[col as int] as int == replay_height(h, col as int));
            assert(legal_history(h2));
            assert forall|c: int| 0 <= c < 7 implies self.height[c] as int == #[trigger] replay_height(h2, c) by {
                lemma_col_count_push(h, col as u8, c);
                assert(old(self).height[c] as int == replay_height(h, c));
            }
            assert(old(self).height[col as int] as int == replay_height(h, col as int));
            assert(self.color[0] == replay_color(h2, 0));
            assert(self.color[1] == replay_color(h2, 1));
        }
    }

    /// Undo the last move played.
    pub fn unmake_move(&mut self)
        requires
            old(self).wf(),
            old(self).nplies > 0,
        ensures
            final(self).wf(),
            Board::unmade_move(*old(self), *final(self)),
    {
        proof {
            self.lemma_shape();
        }
        let ghost h = self.history();
        self.nplies = self.nplies - 1;
        let col = self.moves[self.nplies] as usize;
        proof {
            let h2 = self.history();
            assert(h2 =~= h.drop_last());
            assert(h.last() == col);
            assert(old(self).height[col as int] as int == replay_height(h, col as int));
            lemma_col_count_push(h2, col as u8, col as int);
            assert(h =~= h2.push(col as u8));
            lemma_history_shape(h2);
        }
        self.height[col] = self.height[col] - 1;
        let side = self.side();
        self.color[side] = self.color[side] ^ (1u64 << self.height[col]);
        proof {
            let h2 = self.history();
            assert(legal_history(h2));
            assert forall|c: int| 0 <= c < 7 implies self.height[c] as int == #[trigger] replay_height(h2, c) by {
                lemma_col_count_push(h2, col as u8, c);
                assert(old(self).height[c] as int == replay_height(h, c));
            }
            assert(self.height[col as int] as int == replay_height(h2, col as int));
            lemma_xor_twice(replay_color(h2, side as int), 1u64 << self.height[col as int]);
            assert(self.color[0] == replay_color(h2, 0));
            assert(self.color[1] == replay_color(h2, 1));
        }
    }

    /// The board as text: `Moves: ` followed by the 0-based column of each
    /// move played so far.
    pub fn to_string(&self) -> (text: String)
        requires
            self.nplies <= SIZE,
        ensures
            text@ == moves_line(*self),
    {
        let mut text = String::from_str("Moves: ");
        let mut k = 0usize;
        while k < self.nplies
            invariant
                k <= self.nplies <= SIZE,
                text@ == "Moves: "@ + moves_digits(self.moves, k as int),
            decreases self.nplies - k,
        {
            push_decimal(&mut text, self.moves[k]);
            proof {
                assert(text@ =~= "Moves: "@ + moves_digits(self.moves, k + 1));
            }
            k += 1;
        }
        text
    }

    /// Complete encoding of the current position (whose turn + both players'
    /// stones), suitable for hashing.
    pub fn position_code(&self) -> (code: u64)
        requires
            self.position_code_spec() <= u64::MAX,
        ensures
            code == self.position_code_spec(),
            self.wf() ==> code < 0x2000000000000u64,
    {
        proof {
            if self.wf() {
                self.lemma_shape();
            }
        }
        self.color[self.side()] + self.color[0] + self.color[1] + BOTTOM
    }
}

/// In each column the code holds the mover's stones below a marker bit set
/// just above the column's stones, so the code determines both.
pub(crate) proof fn lemma_code_columns(
    m1: u64,
    m2: u64,
    k0: u64,
    k1: u64,
    k2: u64,
    k3: u64,
    k4: u64,
    k5: u64,
    k6: u64,
    j0: u64,
    j1: u64,
    j2: u64,
    j3: u64,
    j4: u64,
    j5: u64,
    j6: u64,
)
    by (bit_vector)
    requires
        k0 <= 6 && k1 <= 6 && k2 <= 6 && k3 <= 6 && k4 <= 6 && k5 <= 6 && k6 <= 6,
        j0 <= 6 && j1 <= 6 && j2 <= 6 && j3 <= 6 && j4 <= 6 && j5 <= 6 && j6 <= 6,
        m1 & !occ7(k0, k1, k2, k3, k4, k5, k6) == 0,
        m2 & !occ7(j0, j1, j2, j3, j4, j5, j6) == 0,
        m1 + occ7(k0, k1, k2, k3, k4, k5, k6) == m2 + occ7(j0, j1, j2, j3, j4, j5, j6),
    ensures
        k0 == j0 && k1 == j1 && k2 == j2 && k3 == j3 && k4 == j4 && k5 == j5 && k6 == j6,
        m1 == m2,
{
}

pub(crate) proof fn lemma_disjoint_parts(x: u64, y: u64)
    by (bit_vector)
    requires
        x & y == 0,
    ensures
        x + y == x | y,
        x & !(x | y) == 0,
        y & !(x | y) == 0,
        x == (x | y) ^ y,
        y == (x | y) ^ x,
{
}

/// The position code is a complete encoding of the position: two
/// well-formed boards have the same code exactly when they have the same
/// stones of each player, the same column heights and the same number of
/// moves.
pub proof fn lemma_position_code_injective(a: Board, b: Board)
    requires
        a.wf(),
        b.wf(),
    ensures
        (a.position_code_spec() == b.position_code_spec()) == (a.color == b.color && a.height
            == b.height && a.nplies == b.nplies),
{
    if a.position_code_spec() == b.position_code_spec() {
        lemma_code_determines_position(a, b);
    }
}

proof fn lemma_code_determines_position(a: Board, b: Board)
    requires
        a.wf(),
        b.wf(),
        a.position_code_spec() == b.position_code_spec(),
    ensures
        a.color == b.color,
        a.height == b.height,
        a.nplies == b.nplies,
{
    a.lemma_shape();
    b.lemma_shape();
    lemma_disjoint_parts(a.color[0], a.color[1]);
    lemma_disjoint_parts(b.color[0], b.color[1]);
    let ma = a.color[a.spec_side()];
    let mb = b.color[b.spec_side()];
    assert(ma & !a.filled() == 0);
    assert(mb & !b.filled() == 0);
    assert(ma + a.filled() == mb + b.filled());
    lemma_code_columns(
        ma,
        mb,
        a.stones_in(0) as u64,
        a.stones_in(1) as u64,
        a.stones_in(2) as u64,
        a.stones_in(3) as u64,
        a.stones_in(4) as u64,
        a.stones_in(5) as u64,
        a.stones_in(6) as u64,
        b.stones_in(0) as u64,
        b.stones_in(1) as u64,
        b.stones_in(2) as u64,
        b.stones_in(3) as u64,
        b.stones_in(4) as u64,
        b.stones_in(5) as u64,
        b.stones_in(6) as u64,
    );
    assert(0 <= a.stones_in(0) <= 6 && 0 <= a.stones_in(1) <= 6 && 0 <= a.stones_in(2) <= 6
        && 0 <= a.stones_in(3) <= 6 && 0 <= a.stones_in(4) <= 6 && 0 <= a.stones_in(5) <= 6
        && 0 <= a.stones_in(6) <= 6);
    assert(0 <= b.stones_in(0) <= 6 && 0 <= b.stones_in(1) <= 6 && 0 <= b.stones_in(2) <= 6
        && 0 <= b.stones_in(3) <= 6 && 0 <= b.stones_in(4) <= 6 && 0 <= b.stones_in(5) <= 6
        && 0 <= b.stones_in(6) <= 6);
    assert(a.height =~= b.height);
    assert(a.nplies == b.nplies);
    assert(a.filled() == b.filled());
    assert(a.color =~= b.color);
}

/// The two boards hold the same position with the same history.
pub open spec fn same_position(a: Board, b: Board) -> bool {
    &&& a.color == b.color
    &&& a.height == b.height
    &&& a.nplies == b.nplies
    &&& a.history() == b.history()
}

/// A well-formed board is determined by its move history.
pub proof fn lemma_same_history_same_position(a: Board, b: Board)
    requires
        a.wf(),
        b.wf(),
        a.history() == b.history(),
    ensures
        same_position(a, b),
{
    assert(a.nplies == a.history().len());
    assert forall|c: int| 0 <= c < 7 implies a.height[c] == b.height[c] by {
        assert(a.height[c] as int == replay_height(a.history(), c));
        assert(b.height[c] as int == replay_height(b.history(), c));
    }
    assert(a.height =~= b.height);
    assert(a.color =~= b.color);
}

/// Unmaking a move restores the position the move was made from (also after
/// the intermediate board was searched and handed back unchanged).
pub proof fn lemma_unmake_undoes_make(b0: Board, b1: Board, b1s: Board, b2: Board, col: int)
    requires
        b0.wf(),
        b1s.wf(),
        b2.wf(),
        Board::made_move(b0, b1, col),
        same_position(b1s, b1),
        Board::unmade_move(b1s, b2),
    ensures
        same_position(b2, b0),
{
    assert(b2.history() =~= b0.history());
    lemma_same_history_same_position(b2, b0);
}

impl Default for Board {
    fn default() -> (b: Self)
        ensures
            b.wf(),
            b.nplies == 0,
            b.color[0] == 0,
            b.color[1] == 0,
            forall|c: int| 0 <= c < 7 ==> #[trigger] b.height[c] == 7 * c,
    {
        Board::new()
    }
}

} // verus!
