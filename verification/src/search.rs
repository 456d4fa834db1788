//! Negamax alpha-beta search with history-heuristic move ordering. Scores
//! are encoded 1..=5 (LOSS..=WIN, DRAW=3), negamax-negated via
//! `LOSSWIN - x` (LOSSWIN = 6), so the encoding is symmetric about DRAW.

use vstd::prelude::*;
use crate::board::{Board, digit_char, has_four, same_position, lemma_unmake_undoes_make, H1, HEIGHT, SIZE, SIZE1, TOP, WIDTH};
use crate::value::{
    game_value, lemma_candidate_child, lemma_single_candidate_value, settled, lemma_value_forced_loss, lemma_value_full, lemma_value_last_move, lemma_value_lost,
    lemma_value_win_now, lemma_value_winning_move,
};
use crate::tt::{
    canonical_code, lemma_key_determines_code, lemma_store_fields, lemma_store_then_lookup,
    slot_lookup, slot_store, spec_big_lock, spec_big_score, spec_new_lock, spec_new_score,
    stored_fields, DRAW, DRAWLOSS, DRAWWIN, LOSS, LOSSWIN, TransTable, UNKNOWN, WIN,
};

verus! {

/// Stones of the side that just moved (the opponent of the side to move).
pub open spec fn opponent_stones(b: Board) -> u64 {
    b.color[1 - b.spec_side()]
}

/// Column `i` has room (judged from the opponent's stones and the guard row).
pub open spec fn col_open(b: Board, i: int) -> bool {
    (opponent_stones(b) | (1u64 << b.height[i])) & TOP == 0
}

/// The opponent would complete four in a row by playing column `i`.
pub open spec fn threat(b: Board, i: int) -> bool {
    col_open(b, i) && has_four(opponent_stones(b) | (1u64 << b.height[i]))
}

/// If the side to move plays column `i`, the opponent wins on top of it.
pub open spec fn win_on_top(b: Board, i: int) -> bool {
    (opponent_stones(b) | (2u64 << b.height[i])) & TOP == 0 && has_four(
        opponent_stones(b) | (2u64 << b.height[i]),
    )
}

/// Column `i` is playable and does not hand the opponent a win on top.
pub open spec fn safe(b: Board, i: int) -> bool {
    col_open(b, i) && !win_on_top(b, i)
}

/// The safe columns among `0..n`, left to right.
pub open spec fn safe_cols(b: Board, n: int) -> Seq<usize>
    decreases n,
{
    if n <= 0 {
        Seq::empty()
    } else {
        safe_cols(b, n - 1) + if safe(b, n - 1) {
            seq![(n - 1) as usize]
        } else {
            Seq::empty()
        }
    }
}

/// The leftmost column in `i..7` where the opponent threatens to win, or 7.
pub open spec fn first_threat_from(b: Board, i: int) -> int
    decreases 7 - i,
{
    if i >= 7 {
        7
    } else if threat(b, i) {
        i
    } else {
        first_threat_from(b, i + 1)
    }
}

/// The leftmost column where the opponent threatens to win, or 7.
pub open spec fn first_threat(b: Board) -> int {
    first_threat_from(b, 0)
}

/// The side to move cannot avoid an immediate loss: it must block a threat
/// that either has a second threat beside it or a win on top of it, or it has
/// no safe column at all.
pub open spec fn forced_loss(b: Board) -> bool {
    let t = first_threat(b);
    if t < 7 {
        win_on_top(b, t) || exists|j: int| t < j < 7 && #[trigger] threat(b, j)
    } else {
        safe_cols(b, 7).len() == 0
    }
}

/// The columns worth searching: the forced block if there is a threat,
/// else every safe column, left to right.
pub open spec fn candidate_list(b: Board) -> Seq<usize> {
    let t = first_threat(b);
    if t < 7 {
        seq![t as usize]
    } else {
        safe_cols(b, 7)
    }
}

/// Result of scanning a position for legal, non-suicidal columns.
pub enum Candidates {
    /// The position's score is already forced (an unstoppable double threat,
    /// or no safe column at all) -- no further search needed at this node.
    Forced(i32),
    /// `av[..count]` holds the safe, playable columns for this position, in
    /// plain left-to-right order (not yet history-ordered).
    Open([usize; WIDTH], usize),
}

proof fn lemma_first_threat_skip(b: Board, s: int, i: int)
    requires
        0 <= s <= i <= 7,
        forall|j: int| s <= j < i ==> !#[trigger] threat(b, j),
    ensures
        first_threat_from(b, s) == first_threat_from(b, i),
    decreases i - s,
{
    if s < i {
        lemma_first_threat_skip(b, s + 1, i);
    }
}

pub(crate) proof fn lemma_safe_cols_facts(b: Board, n: int)
    requires
        0 <= n <= 7,
    ensures
        safe_cols(b, n).len() <= n,
        forall|k: int|
            0 <= k < safe_cols(b, n).len() ==> #[trigger] safe_cols(b, n)[k] < n && safe(
                b,
                safe_cols(b, n)[k] as int,
            ),
    decreases n,
{
    if n > 0 {
        lemma_safe_cols_facts(b, n - 1);
        let prev = safe_cols(b, n - 1);
        assert forall|k: int| 0 <= k < safe_cols(b, n).len() implies #[trigger] safe_cols(b, n)[k]
            < n && safe(b, safe_cols(b, n)[k] as int) by {
            if k < prev.len() {
                assert(safe_cols(b, n)[k] == prev[k]);
            }
        }
    }
}

/// Every candidate column is a real column with room for a stone.
pub proof fn lemma_candidates_playable(b: Board)
    requires
        b.wf(),
    ensures
        candidate_list(b).len() <= 7,
        forall|k: int|
            0 <= k < candidate_list(b).len() ==> #[trigger] candidate_list(b)[k] < 7 && b.has_room(
                candidate_list(b)[k] as int,
            ),
{
    b.lemma_shape();
    lemma_safe_cols_facts(b, 7);
    lemma_first_threat_range(b, 0);
    assert forall|k: int| 0 <= k < candidate_list(b).len() implies #[trigger] candidate_list(b)[k]
        < 7 && b.has_room(candidate_list(b)[k] as int) by {
        let c = candidate_list(b)[k] as int;
        assert(col_open(b, c));
        crate::board::lemma_open_column(b, c);
    }
}

pub(crate) proof fn lemma_first_threat_range(b: Board, i: int)
    requires
        0 <= i <= 7,
    ensures
        i <= first_threat_from(b, i) <= 7,
        first_threat_from(b, i) < 7 ==> threat(b, first_threat_from(b, i)),
    decreases 7 - i,
{
    if i < 7 {
        lemma_first_threat_range(b, i + 1);
    }
}

/// Scan for playable columns that don't immediately hand the opponent a
/// win, with must-block / unstoppable-double-threat detection.
pub fn candidates(board: &Board) -> (r: Candidates)
    requires
        board.wf(),
    ensures
        match r {
            Candidates::Forced(s) => s == LOSS && forced_loss(*board),
            Candidates::Open(av, n) => !forced_loss(*board) && n == candidate_list(*board).len()
                && av@.take(n as int) == candidate_list(*board),
        },
{
    proof {
        board.lemma_shape();
    }
    let side = board.side();
    let otherside = 1 - side;
    let other = board.color[otherside];
    let ghost b = *board;
    let mut av = [0usize; WIDTH];
    let mut nav = 0usize;
    let mut i = 0usize;
    while i < WIDTH
        invariant
            board.wf(),
            b == *board,
            other == opponent_stones(b),
            i <= WIDTH,
            nav <= i,
            av@.take(nav as int) == safe_cols(b, i as int),
            forall|j: int| 0 <= j < i ==> !#[trigger] threat(b, j),
            forall|c: int| 0 <= c < 7 ==> #[trigger] board.height[c] < 49,
        decreases WIDTH - i,
    {
        let newbrd = other | (1u64 << board.height[i]);
        if !Board::is_legal(newbrd) {
            proof {
                assert(!safe(b, i as int));
                assert(safe_cols(b, i + 1) =~= safe_cols(b, i as int));
            }
            i += 1;
            continue;
        }
        let winontop = Board::is_legal_has_won(other | (2u64 << board.height[i]));
        if Board::has_won(newbrd) {
            // Opponent would win if given this square: we must take it,
            // unless doing so hands them an immediate win on top anyway.
            proof {
                lemma_first_threat_skip(b, 0, i as int);
            }
            if winontop {
                return Candidates::Forced(LOSS);
            }
            let mut j = i + 1;
            while j < WIDTH
                invariant
                    board.wf(),
                    b == *board,
                    other == opponent_stones(b),
                    i < j <= WIDTH,
                    forall|k: int| i < k < j ==> !#[trigger] threat(b, k),
                    first_threat(b) == i,
                    !win_on_top(b, i as int),
                    forall|c: int| 0 <= c < 7 ==> #[trigger] board.height[c] < 49,
                decreases WIDTH - j,
            {
                if Board::is_legal_has_won(other | (1u64 << board.height[j])) {
                    proof {
                        assert(threat(b, j as int));
                    }
                    return Candidates::Forced(LOSS);  // a second, unstoppable threat elsewhere
                }
                j += 1;
            }
            let mut single = [0usize; WIDTH];
            single[0] = i;
            proof {
                assert(single@.take(1) =~= seq![i]);
            }
            return Candidates::Open(single, 1);
        }
        if !winontop {
            av[nav] = i;
            nav += 1;
        }
        proof {
            assert(av@.take(nav as int) =~= safe_cols(b, i + 1));
        }
        i += 1;
    }
    proof {
        lemma_first_threat_skip(b, 0, 7);
    }
    if nav == 0 {
        return Candidates::Forced(LOSS);
    }
    Candidates::Open(av, nav)
}


/// The history value of the column at position `j` of `av`.
pub open spec fn hist_of(history_side: [i32; SIZE1], board: Board, av: Seq<usize>, j: int) -> i32 {
    history_side[board.height[av[j] as int] as int]
}

/// `after` is `before` with the entry at `l` moved to position `i` and the
/// entries in between shifted up by one.
pub open spec fn moved_to_front(before: Seq<usize>, after: Seq<usize>, i: int, l: int) -> bool {
    after == before.take(i) + seq![before[l]] + before.subrange(i, l) + before.subrange(
        l + 1,
        before.len() as int,
    )
}

/// Selection-sort step: finds the highest-history-value column among
/// `av[i..nav)`, moves it to position `i` (shifting the intervening entries
/// up by one), and returns it. Ties are broken toward the EARLIEST
/// (lowest-index) candidate -- this requires a strict `>`, not `>=`.
pub fn pick_next_move(
    history_side: &[i32; SIZE1],
    board: &Board,
    av: &mut [usize; WIDTH],
    i: usize,
    nav: usize,
) -> (chosen: usize)
    requires
        i < nav <= WIDTH,
        forall|j: int| i <= j < nav ==> #[trigger] old(av)[j] < WIDTH,
        forall|j: int| i <= j < nav ==> board.height[#[trigger] old(av)[j] as int] < SIZE1,
    ensures
        exists|l: int|
            #![trigger old(av)@[l]]
            i <= l < nav && chosen == old(av)@[l] && moved_to_front(old(av)@, final(av)@, i as int, l)
                && (forall|j: int|
                i <= j < nav ==> hist_of(*history_side, *board, old(av)@, j) <= hist_of(
                    *history_side,
                    *board,
                    old(av)@,
                    l,
                )) && (forall|j: int|
                i <= j < l ==> hist_of(*history_side, *board, old(av)@, j) < hist_of(
                    *history_side,
                    *board,
                    old(av)@,
                    l,
                )),
{
    let ghost a0 = av@;
    let mut l = i;
    let mut val = history_side[board.height[av[l]] as usize];
    let mut j = i + 1;
    while j < nav
        invariant
            av@ == a0,
            i <= l < j <= nav,
            nav <= WIDTH,
            forall|k: int| i <= k < nav ==> #[trigger] a0[k] < WIDTH,
            forall|k: int| i <= k < nav ==> board.height[#[trigger] a0[k] as int] < SIZE1,
            val == hist_of(*history_side, *board, a0, l as int),
            forall|k: int| i <= k < j ==> hist_of(*history_side, *board, a0, k) <= val,
            forall|k: int| i <= k < l ==> hist_of(*history_side, *board, a0, k) < val,
        decreases nav - j,
    {
        let v = history_side[board.height[av[j]] as usize];
        if v > val {
            val = v;
            l = j;
        }
        j += 1;
    }
    let chosen = av[l];
    let mut k = l;
    while k > i
        invariant
            i <= k <= l,
            l < nav <= WIDTH,
            av@.len() == WIDTH,
            forall|m: int| k < m <= l ==> #[trigger] av@[m] == a0[m - 1],
            forall|m: int| 0 <= m < WIDTH && (m <= k || m > l) ==> #[trigger] av@[m] == a0[m],
        decreases k,
    {
        av[k] = av[k - 1];
        k -= 1;
    }
    av[i] = chosen;
    proof {
        assert(av@ =~= a0.take(i as int) + seq![a0[l as int]] + a0.subrange(i as int, l as int)
            + a0.subrange(l + 1, a0.len() as int));
    }
    chosen
}

proof fn lemma_halve(n: u64, w: u64)
    by (bit_vector)
    requires
        n <= 0xffff_ffff_ffff_ffffu64 >> w,
        w <= 64,
    ensures
        n >> 1u64 == n / 2,
        n != 0 ==> w <= 63,
        n >> 1u64 <= 0xffff_ffff_ffff_ffffu64 >> ((w + 1) as u64),
{
}

/// log2(n), truncated (0 for n = 0).
pub fn intlog(n: u64) -> (work: u32)
    ensures
        work == vstd::arithmetic::logarithm::log(2, n as int),
        work < 64,
{
    let ghost n0 = n;
    proof {
        assert(0xffff_ffff_ffff_ffffu64 >> 0u64 == 0xffff_ffff_ffff_ffffu64) by (bit_vector);
        lemma_halve(n, 0);
        reveal(vstd::arithmetic::logarithm::log);
    }
    let mut n = n >> 1;
    let mut work = 0u32;
    while n != 0
        invariant
            n == 0 ==> work == vstd::arithmetic::logarithm::log(2, n0 as int),
            n != 0 ==> work + 1 + vstd::arithmetic::logarithm::log(2, n as int)
                == vstd::arithmetic::logarithm::log(2, n0 as int),
            work < 64,
            n <= 0xffff_ffff_ffff_ffffu64 >> ((work + 1) as u64),
        decreases n,
    {
        proof {
            lemma_halve(n, (work + 1) as u64);
            reveal(vstd::arithmetic::logarithm::log);
        }
        n >>= 1;
        work += 1;
    }
    work
}

/// The move history as 1-based column digits.
pub open spec fn moves_text(b: Board) -> Seq<char> {
    Seq::new(b.nplies as nat, |k: int| digit_char(b.moves[k] + 1))
}

fn column_digit(col: u8) -> (s: &'static str)
    requires
        col < 7,
    ensures
        s@ == seq![digit_char(col + 1)],
{
    if col == 0 {
        proof { reveal_strlit("1"); }
        "1"
    } else if col == 1 {
        proof { reveal_strlit("2"); }
        "2"
    } else if col == 2 {
        proof { reveal_strlit("3"); }
        "3"
    } else if col == 3 {
        proof { reveal_strlit("4"); }
        "4"
    } else if col == 4 {
        proof { reveal_strlit("5"); }
        "5"
    } else if col == 5 {
        proof { reveal_strlit("6"); }
        "6"
    } else {
        proof { reveal_strlit("7"); }
        "7"
    }
}

/// Render the move history as a string of 1-based column digits.
pub fn format_moves(board: &Board) -> (s: String)
    requires
        board.wf(),
    ensures
        s@ == moves_text(*board),
{
    proof {
        board.lemma_shape();
    }
    let mut s = String::new();
    let mut k = 0usize;
    while k < board.nplies
        invariant
            board.wf(),
            k <= board.nplies,
            forall|j: int| 0 <= j < board.nplies ==> #[trigger] board.moves[j] < 7,
            s@ == moves_text(*board).take(k as int),
        decreases board.nplies - k,
    {
        s.append(column_digit(board.moves[k]));
        proof {
            assert(s@ =~= moves_text(*board).take(k + 1));
        }
        k += 1;
    }
    proof {
        assert(s@ =~= moves_text(*board));
    }
    s
}


pub open spec fn min_int(a: int, b: int) -> int {
    if a <= b {
        a
    } else {
        b
    }
}

pub open spec fn max_int(a: int, b: int) -> int {
    if a >= b {
        a
    } else {
        b
    }
}

/// Center-weighted starting value for distance `i` from the side edge and
/// `h` from the top or bottom edge.
pub open spec fn seed_value(i: int, h: int) -> int {
    4 + min_int(i, 3) + max_int(min_int(h, 3) - max_int(3 - i, 0), -1) + min_int(min_int(i, h), 3)
        + min_int(h, 3)
}

/// Starting history value of the square at column `c`, row `r`.
pub open spec fn history_seed(c: int, r: int) -> int {
    seed_value(min_int(c, 6 - c), min_int(r, 5 - r))
}

/// The starting history values are left-right and top-bottom symmetric.
pub proof fn lemma_history_seed_symmetric(c: int, r: int)
    requires
        0 <= c < 7,
        0 <= r < 6,
    ensures
        history_seed(c, r) == history_seed(6 - c, r),
        history_seed(c, r) == history_seed(c, 5 - r),
{
}

fn min_i32(a: i32, b: i32) -> (r: i32)
    ensures
        r == min_int(a as int, b as int),
{
    if a <= b {
        a
    } else {
        b
    }
}

fn max_i32(a: i32, b: i32) -> (r: i32)
    ensures
        r == max_int(a as int, b as int),
{
    if a >= b {
        a
    } else {
        b
    }
}

/// Squares handled by the seeding loop before (`i`, `h`): those whose
/// edge distances come earlier in row-major order.
pub open spec fn seeded_before(c: int, r: int, i: int, h: int) -> bool {
    min_int(c, 6 - c) < i || (min_int(c, 6 - c) == i && min_int(r, 5 - r) < h)
}

/// One side's history table holds the seed values on the playable squares
/// and `old_row` on the guard squares.
pub open spec fn seeded_row(row: [i32; SIZE1], old_row: [i32; SIZE1]) -> bool {
    &&& forall|c: int, r: int|
        0 <= c < 7 && 0 <= r < 6 ==> #[trigger] row[7 * c + r] == history_seed(c, r)
    &&& forall|c: int| 0 <= c < 7 ==> #[trigger] row[7 * c + 6] == old_row[7 * c + 6]
}

pub struct NodeReport {
    pub moves: String,
    pub score: i32,
    pub work: u32,
}

pub struct Solver {
    pub tt: TransTable,
    /// History-heuristic table, per side, indexed by square.
    pub history: [[i32; SIZE1]; 2],
    pub nodes: u64,
    pub book_ply: usize,
    pub report_ply: usize,
    /// When true, records a "<moves><score><work>" entry in `report` for
    /// every node within `report_ply` of the root.
    pub verbose: bool,
    /// Per-node diagnostic records collected while `verbose` is set.
    pub report: Vec<NodeReport>,
}

/// Additional plies (beyond the root) searched full-width before the
/// (currently unused, always-0) opening-book cutoff applies.
const BOOKPLY: usize = 0;

/// Additional plies (beyond the root) for which per-node values are reported.
const REPORTPLY: usize = 2;

#[verifier::external_type_specification]
#[verifier::external_body]
pub struct ExInstant(std::time::Instant);

/// Calls `std::time::Instant::now`. Nothing is claimed of the instant.
#[verifier::external_body]
fn clock_now() -> std::time::Instant {
    std::time::Instant::now()
}

/// Calls `std::time::Instant::elapsed`. Nothing is claimed of the duration.
#[verifier::external_body]
fn clock_elapsed(start: &std::time::Instant) -> std::time::Duration {
    start.elapsed()
}

/// Calls `std::time::Duration::as_millis`; the duration is opaque here, so
/// nothing is claimed of the count.
#[verifier::external_body]
fn duration_millis(d: &std::time::Duration) -> u128 {
    d.as_millis()
}

/// The side to move can complete four in a row in some column right away.
pub open spec fn win_at(b: Board, c: int) -> bool {
    (b.color[b.spec_side()] | (1u64 << b.height[c])) & TOP == 0 && has_four(
        b.color[b.spec_side()] | (1u64 << b.height[c]),
    )
}

pub open spec fn can_win_now(b: Board) -> bool {
    exists|c: int| 0 <= c < 7 && #[trigger] win_at(b, c)
}

/// The leftmost column in `i..7` where the side to move wins at once, or 7.
pub open spec fn first_win_from(b: Board, i: int) -> int
    decreases 7 - i,
{
    if i >= 7 {
        7
    } else if win_at(b, i) {
        i
    } else {
        first_win_from(b, i + 1)
    }
}

/// The leftmost column in `i..7` with room, if any.
pub open spec fn first_room_from(b: Board, i: int) -> Option<usize>
    decreases 7 - i,
{
    if i >= 7 {
        None
    } else if b.has_room(i) {
        Some(i as usize)
    } else {
        first_room_from(b, i + 1)
    }
}

/// Some column has room for another stone.
pub open spec fn any_room(b: Board) -> bool {
    exists|c: int| 0 <= c < 7 && #[trigger] b.has_room(c)
}

/// Some column has room exactly when the board is not full.
pub proof fn lemma_any_room_iff_not_full(b: Board)
    requires
        b.wf(),
    ensures
        any_room(b) == (b.nplies < SIZE),
{
    b.lemma_shape();
    assert(0 <= b.stones_in(0) <= 6 && 0 <= b.stones_in(1) <= 6 && 0 <= b.stones_in(2) <= 6 && 0
        <= b.stones_in(3) <= 6 && 0 <= b.stones_in(4) <= 6 && 0 <= b.stones_in(5) <= 6 && 0
        <= b.stones_in(6) <= 6);
    if b.nplies < SIZE {
        if !b.has_room(0) && !b.has_room(1) && !b.has_room(2) && !b.has_room(3) && !b.has_room(4)
            && !b.has_room(5) {
            assert(b.has_room(6));
        }
    }
}

/// Negamax negation `LOSSWIN - x` swaps LOSS with WIN and DRAWLOSS with
/// DRAWWIN, fixes DRAW, and undoes itself.
pub proof fn lemma_score_negation(x: int)
    requires
        LOSS <= x <= WIN,
    ensures
        LOSS <= LOSSWIN - x <= WIN,
        LOSSWIN - (LOSSWIN - x) == x,
        x == LOSS ==> LOSSWIN - x == WIN,
        x == DRAWLOSS ==> LOSSWIN - x == DRAWWIN,
        x == DRAW ==> LOSSWIN - x == DRAW,
{
}

proof fn lemma_first_win_skip(b: Board, s: int, i: int)
    requires
        0 <= s <= i <= 7,
        forall|j: int| s <= j < i ==> !#[trigger] win_at(b, j),
    ensures
        first_win_from(b, s) == first_win_from(b, i),
    decreases i - s,
{
    if s < i {
        lemma_first_win_skip(b, s + 1, i);
    }
}

proof fn lemma_first_room_skip(b: Board, s: int, i: int)
    requires
        0 <= s <= i <= 7,
        forall|j: int| s <= j < i ==> !#[trigger] b.has_room(j),
    ensures
        first_room_from(b, s) == first_room_from(b, i),
    decreases i - s,
{
    if s < i {
        lemma_first_room_skip(b, s + 1, i);
    }
}

/// The leftmost column with room, if any.
fn first_playable(board: &Board) -> (r: Option<usize>)
    requires
        board.wf(),
    ensures
        r == first_room_from(*board, 0),
        r.is_some() == any_room(*board),
        r matches Some(c) ==> c < WIDTH && board.has_room(c as int),
{
    let mut c = 0usize;
    while c < WIDTH
        invariant
            board.wf(),
            c <= WIDTH,
            forall|j: int| 0 <= j < c ==> !#[trigger] board.has_room(j),
        decreases WIDTH - c,
    {
        proof {
            crate::board::lemma_open_column(*board, c as int);
        }
        if board.is_playable(c) {
            proof {
                lemma_first_room_skip(*board, 0, c as int);
            }
            return Some(c);
        }
        c += 1;
    }
    proof {
        lemma_first_room_skip(*board, 0, 7);
    }
    None
}

/// Positions that `Solver::ab` answers without searching a move: at most
/// two moves left, or a loss that cannot be avoided.
pub open spec fn shortcut(b: Board) -> bool {
    b.nplies >= SIZE - 2 || forced_loss(b)
}

/// Positions that `Solver::ab` searches itself and records in the table:
/// no shortcut, and more than one candidate column.
pub open spec fn searched(b: Board) -> bool {
    !shortcut(b) && candidate_list(b).len() > 1
}

/// The canonical code under which the position of `b` is stored.
pub open spec fn key_code(b: Board) -> u64 {
    canonical_code(b.position_code_spec() as u64, b.nplies as int)
}

/// The lock of the position of `b` in the table.
pub open spec fn key_lock(b: Board) -> u64 {
    key_code(b) >> 23u64
}

/// The bucket of the position of `b` in a table of `len` slots.
pub open spec fn key_index(b: Board, len: int) -> int {
    key_code(b) as int % len
}

/// Positions whose value the solver settles without branching: the
/// opponent already has four in a row, the side to move can complete four
/// at once, or the position is `settled` (answered without search, or by
/// a chain of single candidate columns ending in such a position).
pub open spec fn decided_at_once(b: Board) -> bool {
    has_four(opponent_stones(b)) || can_win_now(b) || settled(b, (SIZE - b.nplies) as nat)
}

/// A table entry (`lock`, `score`) in slot `idx` of a table of `len` slots
/// is sound: a LOSS or WIN stored there is the value of every position
/// that has this key.
pub open spec fn entry_sound(lock: u64, score: i32, idx: int, len: int) -> bool {
    (score == LOSS || score == WIN) ==> forall|b: Board|
        b.wf() && key_index(b, len) == idx && #[trigger] key_lock(b) == lock ==> game_value(
            b.history(),
        ) == score
}

/// Every LOSS and WIN in the table is the value of the positions stored
/// under its key.
pub open spec fn tt_sound(tt: TransTable) -> bool {
    forall|i: int|
        0 <= i < tt.slots().len() ==> entry_sound(
            spec_big_lock(#[trigger] tt.slots()[i]),
            spec_big_score(tt.slots()[i]),
            i,
            tt.slots().len() as int,
        ) && entry_sound(
            spec_new_lock(tt.slots()[i]),
            spec_new_score(tt.slots()[i]),
            i,
            tt.slots().len() as int,
        )
}

/// A table of empty slots is sound.
pub proof fn lemma_empty_table_sound(tt: TransTable)
    requires
        forall|i: int| 0 <= i < tt.slots().len() ==> #[trigger] tt.slots()[i] == 0,
    ensures
        tt_sound(tt),
{
    crate::tt::lemma_field_ranges(0);
}

/// In a table of at least 2^23 slots, two positions with the same key are
/// the same position or mirror images of each other, so they have the same
/// value.
proof fn lemma_same_key_same_value(b: Board, b0: Board, len: int)
    requires
        b.wf(),
        b0.wf(),
        len >= 0x80_0000,
        key_index(b, len) == key_index(b0, len),
        key_lock(b) == key_lock(b0),
    ensures
        game_value(b.history()) == game_value(b0.history()),
{
    b.lemma_shape();
    b0.lemma_shape();
    lemma_key_determines_code(key_code(b), key_code(b0), len);
    let x = b.position_code_spec() as u64;
    let y = b0.position_code_spec() as u64;
    let h = b.history();
    let h0 = b0.history();
    assert(h.len() == b.nplies && h0.len() == b0.nplies);
    assert(b.position_code_spec() == crate::mirror::history_code(h));
    assert(b0.position_code_spec() == crate::mirror::history_code(h0));
    crate::tt::lemma_position_code_shape(b);
    crate::tt::lemma_position_code_shape(b0);
    crate::tt::lemma_mirror_involution(x);
    crate::tt::lemma_mirror_involution(y);
    if x == y {
        crate::board::lemma_position_code_injective(b, b0);
        crate::value::lemma_value_same_position(h, h0);
    } else {
        assert(x == crate::tt::mirror_code(y));
        crate::mirror::lemma_mirror_code(h0);
        crate::mirror::lemma_mirror_history(h0);
        crate::mirror::lemma_history_code_injective(h, crate::mirror::mirror_moves(h0));
        crate::value::lemma_value_same_position(h, crate::mirror::mirror_moves(h0));
        crate::mirror::lemma_mirror_value(h0);
    }
}

/// What a sound table answers for the key of `b` is right when it is LOSS
/// or WIN.
proof fn lemma_lookup_sound(tt: TransTable, b: Board)
    requires
        tt_sound(tt),
        tt.slots().len() >= 0x80_0000,
        b.wf(),
        0 <= key_index(b, tt.slots().len() as int) < tt.slots().len(),
    ensures
        ({
            let sc = slot_lookup(tt.slots()[key_index(b, tt.slots().len() as int)], key_lock(b));
            (sc == LOSS || sc == WIN) ==> game_value(b.history()) == sc
        }),
{
    let i = key_index(b, tt.slots().len() as int);
    let he = tt.slots()[i];
    assert(entry_sound(spec_big_lock(he), spec_big_score(he), i, tt.slots().len() as int));
    assert(entry_sound(spec_new_lock(he), spec_new_score(he), i, tt.slots().len() as int));
}

/// Storing a right LOSS or WIN (or any other score) for `b` keeps a table
/// sound.
proof fn lemma_store_sound(old_tt: TransTable, new_tt: TransTable, b: Board, score: i32, work: u32)
    requires
        tt_sound(old_tt),
        old_tt.slots().len() >= 0x80_0000,
        b.wf(),
        0 <= key_index(b, old_tt.slots().len() as int) < old_tt.slots().len(),
        key_lock(b) < 0x400_0000,
        LOSS <= score <= WIN,
        work < 64,
        (score == LOSS || score == WIN) ==> game_value(b.history()) == score,
        new_tt.slots() == old_tt.slots().update(
            key_index(b, old_tt.slots().len() as int),
            slot_store(
                old_tt.slots()[key_index(b, old_tt.slots().len() as int)],
                key_lock(b),
                score,
                work,
            ),
        ),
    ensures
        tt_sound(new_tt),
{
    let len = old_tt.slots().len() as int;
    let i0 = key_index(b, len);
    let he = old_tt.slots()[i0];
    lemma_store_fields(he, key_lock(b), score, work);
    assert forall|i: int| 0 <= i < new_tt.slots().len() implies entry_sound(
        spec_big_lock(#[trigger] new_tt.slots()[i]),
        spec_big_score(new_tt.slots()[i]),
        i,
        new_tt.slots().len() as int,
    ) && entry_sound(
        spec_new_lock(new_tt.slots()[i]),
        spec_new_score(new_tt.slots()[i]),
        i,
        new_tt.slots().len() as int,
    ) by {
        assert(entry_sound(spec_big_lock(old_tt.slots()[i]), spec_big_score(old_tt.slots()[i]), i, len));
        assert(entry_sound(spec_new_lock(old_tt.slots()[i]), spec_new_score(old_tt.slots()[i]), i, len));
        if i == i0 {
            assert forall|b2: Board|
                b2.wf() && key_index(b2, len) == i && #[trigger] key_lock(b2) == key_lock(b) implies game_value(
                    b2.history(),
                ) == game_value(b.history()) by {
                lemma_same_key_same_value(b2, b, len);
            }
        }
    }
}

/// The conditions under which a search of `b` by `s` with the window
/// (`alpha`, `beta`) answers LOSS and WIN rightly: a sound table of at least
/// 2^23 slots, no four in a row for the opponent, no immediate win for the
/// side to move, and a window of scores.
pub open spec fn sound_search(s: Solver, b: Board, alpha: i32, beta: i32) -> bool {
    &&& s.tt.slots().len() >= 0x80_0000
    &&& tt_sound(s.tt)
    &&& !has_four(opponent_stones(b))
    &&& !can_win_now(b)
    &&& LOSS <= alpha <= WIN
    &&& LOSS <= beta <= WIN
}

proof fn lemma_root_step(h: Seq<u8>, av: Seq<usize>, i: int, a0: int, a1: int, chosen: usize)
    requires
        0 <= i < av.len(),
        av[i] == chosen,
        a0 <= a1,
        LOSSWIN - game_value(h.push(chosen as u8)) <= a1,
        forall|k: int| 0 <= k < i ==> LOSSWIN - game_value(h.push(#[trigger] av[k] as u8)) <= a0,
    ensures
        forall|k: int| 0 <= k < i + 1 ==> LOSSWIN - game_value(h.push(#[trigger] av[k] as u8)) <= a1,
{
}

/// A root whose candidate moves the search scores exactly: no four in a row
/// for the opponent, no immediate win, no forced loss, at least three
/// squares left, and every position after a candidate column `settled`.
pub open spec fn exact_root(b: Board) -> bool {
    &&& !has_four(opponent_stones(b))
    &&& !can_win_now(b)
    &&& !forced_loss(b)
    &&& b.nplies < SIZE - 2
    &&& children_settled(b)
}

/// Every board reached by playing a candidate column of `b` is `settled`.
pub open spec fn children_settled(b: Board) -> bool {
    forall|c: int, b2: Board|
        0 <= c < candidate_list(b).len() && b2.wf() && #[trigger] Board::made_move(
            b,
            b2,
            candidate_list(b)[c] as int,
        ) ==> settled(b2, (SIZE - b2.nplies) as nat)
}

/// A root that `s` searches with a sound table: a table of at least 2^23
/// slots whose entries are all sound, no four in a row for the opponent, no
/// immediate win, no forced loss, and at least three squares left.
pub open spec fn sound_root(s: Solver, b: Board) -> bool {
    &&& s.tt.slots().len() >= 0x80_0000
    &&& tt_sound(s.tt)
    &&& !has_four(opponent_stones(b))
    &&& !can_win_now(b)
    &&& !forced_loss(b)
    &&& b.nplies < SIZE - 2
}

/// Column `c` is a candidate of `b` that wins for the side to move, and the
/// position after it is `settled`, so the search judges it without branching.
pub open spec fn settled_winning_move(b: Board, c: usize) -> bool {
    &&& candidate_list(b).contains(c)
    &&& game_value(b.history().push(c as u8)) == LOSS
    &&& forall|b2: Board|
        b2.wf() && #[trigger] Board::made_move(b, b2, c as int) ==> settled(b2, (SIZE - b2.nplies) as nat)
}

/// The solver's table and bookkeeping are in a searchable state.
pub open spec fn solver_ready(s: Solver) -> bool {
    s.tt.wf() && s.tt.slots().len() > 0
}

impl Solver {
    pub fn new(tt_size: usize) -> (s: Self)
        ensures
            s.tt.slots().len() == tt_size,
            forall|i: int| 0 <= i < tt_size ==> #[trigger] s.tt.slots()[i] == 0,
            s.tt.wf(),
            tt_sound(s.tt),
            s.tt.posed == 0,
            s.nodes == 0,
            !s.verbose,
            s.report@.len() == 0,
            forall|side: int, c: int, r: int|
                0 <= side < 2 && 0 <= c < 7 && 0 <= r < 6 ==> #[trigger] s.history[side][7 * c + r]
                    == history_seed(c, r),
            forall|side: int, c: int|
                0 <= side < 2 && 0 <= c < 7 ==> #[trigger] s.history[side][7 * c + 6] == 0,
    {
        let mut solver = Solver {
            tt: TransTable::new(tt_size),
            history: [[0i32; SIZE1]; 2],
            nodes: 0,
            book_ply: 0,
            report_ply: 0,
            verbose: false,
            report: Vec::new(),
        };
        // Seed with center-weighted defaults immediately: `solve()` re-seeds
        // on every call, but `best_move()` keeps history warm across a whole
        // game and never reseeds, so without this a fresh solver used only
        // via `best_move()` would order moves plainly left to right.
        let ghost h0 = solver.history;
        solver.init_history();
        proof {
            assert forall|side: int, c: int|
                0 <= side < 2 && 0 <= c < 7 implies #[trigger] solver.history[side][7 * c + 6] == 0 by {
                assert(h0[side][7 * c + 6] == 0);
            }
            lemma_empty_table_sound(solver.tt);
        }
        solver
    }

    /// Negamax with alpha-beta pruning, history-ordered moves, transposition
    /// table probing/storing, and immediate-threat detection.
    pub fn ab(&mut self, board: &mut Board, alpha: i32, beta: i32) -> (score: i32)
        requires
            old(board).wf(),
            old(self).tt.wf(),
            old(self).tt.slots().len() > 0 || settled(*old(board), (SIZE - old(board).nplies) as nat),
            alpha > i32::MIN + 6,
            beta > i32::MIN + 6,
        ensures
            final(board).wf(),
            same_position(*final(board), *old(board)),
            final(self).tt.wf(),
            final(self).tt.slots().len() == old(self).tt.slots().len(),
            LOSS <= score <= WIN,
            old(board).nplies >= SIZE - 1 ==> score == DRAW,
            old(board).nplies < SIZE - 1 && forced_loss(*old(board)) ==> score == LOSS,
            old(board).nplies == SIZE - 2 && !forced_loss(*old(board)) ==> score == DRAW,
            !has_four(opponent_stones(*old(board))) && !can_win_now(*old(board)) && settled(
                *old(board),
                (SIZE - old(board).nplies) as nat,
            ) ==> score == game_value(
                old(board).history(),
            ),
            shortcut(*old(board)) ==> final(self).nodes == old(self).nodes.wrapping_add(1)
                && final(self).tt == old(self).tt && final(self).history == old(self).history,
            searched(*old(board)) ==> slot_lookup(
                final(self).tt.slots()[key_index(*old(board), old(self).tt.slots().len() as int)],
                key_lock(*old(board)),
            ) == score,
            sound_search(*old(self), *old(board), alpha, beta) ==> {
                &&& tt_sound(final(self).tt)
                &&& score == LOSS ==> game_value(old(board).history()) == LOSS
                &&& score == WIN ==> game_value(old(board).history()) == WIN
            },
        decreases SIZE - old(board).nplies,
    {
        let ghost sm = sound_search(*self, *board, alpha, beta);
        let mut alpha = alpha;
        let mut beta = beta;
        self.nodes = self.nodes.wrapping_add(1);
        if board.nplies >= SIZE - 1 {
            proof {
                if !has_four(opponent_stones(*board)) && !can_win_now(*board) {
                    if board.nplies == SIZE - 1 {
                        lemma_value_last_move(*board);
                    } else {
                        lemma_value_full(*board);
                    }
                }
            }
            return DRAW;  // at most one move left; by assumption the mover can't win
        }
        proof {
            board.lemma_shape();
        }
        let side = board.side();
        let ghost b0 = *board;
        let cands = candidates(board);
        let (mut av, nav) = match cands {
            Candidates::Forced(score) => {
                proof {
                    if !has_four(opponent_stones(b0)) && !can_win_now(b0) {
                        lemma_value_forced_loss(b0);
                    }
                }
                return score;
            },
            Candidates::Open(av, nav) => (av, nav),
        };
        proof {
            lemma_candidates_playable(b0);
            assert forall|j: int| 0 <= j < nav implies #[trigger] av[j] < 7 && b0.has_room(av[j] as int) by {
                assert(av@.take(nav as int)[j] == av[j]);
            }
        }
        if board.nplies == SIZE - 2 {
            proof {
                if !has_four(opponent_stones(b0)) && !can_win_now(b0) {
                    crate::value::lemma_value_two_left(b0);
                }
            }
            return DRAW;  // two moves left, no immediate win possible for either side
        }
        if nav == 1 {
            board.make_move(av[0]);
            let ghost b1 = *board;
            proof {
                assert(av@.take(1)[0] == av[0]);
                assert(candidate_list(b0)[0] == av[0]);
                if self.tt.slots().len() == 0 {
                    assert(settled(b0, (SIZE - b0.nplies) as nat));
                    assert(Board::made_move(b0, b1, candidate_list(b0)[0] as int));
                    assert((SIZE - b1.nplies) as nat == ((SIZE - b0.nplies) as nat - 1) as nat);
                }
            }
            proof {
                if sm {
                    assert(candidate_list(b0) =~= seq![av[0]]);
                    assert(candidate_list(b0).contains(av[0]));
                    lemma_candidate_child(b0, av[0] as int, b1);
                }
            }
            let sub = self.ab(board, LOSSWIN - beta, LOSSWIN - alpha);
            let ghost b1s = *board;
            let score = LOSSWIN - sub;
            board.unmake_move();
            proof {
                lemma_unmake_undoes_make(b0, b1, b1s, *board, av[0] as int);
                let k = (SIZE - b0.nplies) as nat;
                if !has_four(opponent_stones(b0)) && !can_win_now(b0) && settled(b0, k) {
                    let c = av[0] as int;
                    assert(av@.take(1)[0] == av[0]);
                    assert(candidate_list(b0) =~= seq![av[0]]);
                    assert(candidate_list(b0).contains(av[0]));
                    lemma_candidate_child(b0, c, b1);
                    assert(settled(b1, (k - 1) as nat));
                    assert((SIZE - b1.nplies) as nat == (k - 1) as nat);
                    lemma_single_candidate_value(b0, c);
                }
                if sm {
                    let c = av[0] as int;
                    assert(candidate_list(b0) =~= seq![av[0]]);
                    assert(candidate_list(b0).contains(av[0]));
                    lemma_candidate_child(b0, c, b1);
                    lemma_single_candidate_value(b0, c);
                    crate::value::lemma_value_range(b1.history());
                }
            }
            return score;
        }
        proof {
            b0.lemma_shape();
            assert(b0.has_room(av[0] as int));
            assert(0 <= b0.stones_in(0) <= 6 && 0 <= b0.stones_in(1) <= 6 && 0 <= b0.stones_in(2) <= 6
                && 0 <= b0.stones_in(3) <= 6 && 0 <= b0.stones_in(4) <= 6 && 0 <= b0.stones_in(5) <= 6
                && 0 <= b0.stones_in(6) <= 6);
            assert(b0.nplies < SIZE);
        }
        let (lock, index) = self.tt.hash_key(board);
        let ttscore = self.tt.lookup(index, lock);
        proof {
            if sm {
                lemma_lookup_sound(self.tt, b0);
            }
        }
        if ttscore != UNKNOWN {
            if ttscore == DRAWLOSS {
                beta = DRAW;
                if beta <= alpha {
                    return ttscore;
                }
            } else if ttscore == DRAWWIN {
                alpha = DRAW;
                if alpha >= beta {
                    return ttscore;
                }
            } else {
                return ttscore;  // exact score already known
            }
        }
        proof {
            let cl = candidate_list(b0);
            assert forall|j: int| 0 <= j < nav implies cl.contains(#[trigger] av[j]) by {
                assert(av@.take(nav as int)[j] == av[j]);
                assert(cl[j] == av[j]);
            }
        }
        let poscnt_before = self.tt.posed;
        let mut besti = 0usize;
        let mut score = LOSS;
        let mut i = 0usize;
        while i < nav
            invariant
                board.wf(),
                b0.wf(),
                same_position(*board, b0),
                1 < nav <= WIDTH,
                i <= nav,
                besti < nav,
                forall|j: int| 0 <= j < nav ==> #[trigger] av[j] < 7 && b0.has_room(av[j] as int),
                forall|c: int| 0 <= c < 7 ==> #[trigger] b0.height[c] < SIZE1,
                side == b0.spec_side(),
                side < 2,
                LOSS <= score <= WIN,
                solver_ready(*self),
                self.tt.slots().len() == old(self).tt.slots().len(),
                index < self.tt.slots().len(),
                lock < 0x400_0000,
                0 <= ttscore <= WIN,
                alpha > i32::MIN + 6,
                beta > i32::MIN + 6,
                b0.nplies < SIZE - 2,
                b0.nplies == old(board).nplies,
                ttscore == UNKNOWN || ttscore == DRAWLOSS || ttscore == DRAWWIN,
                !forced_loss(b0),
                nav == candidate_list(b0).len(),
                forall|j: int| 0 <= j < nav ==> candidate_list(b0).contains(#[trigger] av[j]),
                forall|x: usize| #[trigger] candidate_list(b0).contains(x) ==> av@.take(nav as int).contains(x),
                sm ==> tt_sound(self.tt) && self.tt.slots().len() >= 0x80_0000
                    && !has_four(opponent_stones(b0)) && !can_win_now(b0),
                sm ==> LOSS <= alpha <= WIN && LOSS <= beta <= WIN,
                sm && score == WIN ==> game_value(b0.history()) == WIN,
                sm && score == LOSS ==> forall|k: int|
                    0 <= k < i ==> game_value(b0.history().push(#[trigger] av[k] as u8)) == WIN,
            ensures
                i == nav || score > LOSS || !sm,
            decreases nav - i,
        {
            let ghost av_before = av@;
            let chosen = pick_next_move(&self.history[side], board, &mut av, i, nav);
            proof {
                let l = choose|l: int|
                    #![trigger av_before[l]]
                    i <= l < nav && chosen == av_before[l] && moved_to_front(av_before, av@, i as int, l);
                assert forall|j: int| 0 <= j < nav implies #[trigger] av[j] < 7 && b0.has_room(av[j] as int) by {
                    if j < i {
                        assert(av@[j] == av_before[j]);
                    } else if j == i {
                        assert(av@[j] == av_before[l]);
                    } else if j <= l {
                        assert(av@[j] == av_before[j - 1]);
                    } else {
                        assert(av@[j] == av_before[j]);
                    }
                }
                assert(b0.has_room(chosen as int));
                let cl = candidate_list(b0);
                assert forall|j: int| 0 <= j < nav implies cl.contains(#[trigger] av[j]) by {
                    if j < i {
                        assert(av@[j] == av_before[j]);
                    } else if j == i {
                        assert(av@[j] == av_before[l]);
                    } else if j <= l {
                        assert(av@[j] == av_before[j - 1]);
                    } else {
                        assert(av@[j] == av_before[j]);
                    }
                }
                assert forall|x: usize| #[trigger] cl.contains(x) implies av@.take(nav as int).contains(x) by {
                    assert(av_before.take(nav as int).contains(x));
                    let p = choose|p: int| 0 <= p < nav && av_before.take(nav as int)[p] == x;
                    let q: int = if p < i {
                        p
                    } else if p == l {
                        i as int
                    } else if p < l {
                        p + 1
                    } else {
                        p
                    };
                    assert(av@[q] == x);
                    assert(av@.take(nav as int)[q] == x);
                }
                assert forall|k: int| 0 <= k < i implies #[trigger] av[k] == av_before[k] by {
                    assert(av@[k] == av_before[k]);
                }
                assert(cl.contains(chosen));
            }
            board.make_move(chosen);
            let ghost b1 = *board;
            proof {
                if sm {
                    lemma_candidate_child(b0, chosen as int, b1);
                }
            }
            let sub = self.ab(board, LOSSWIN - beta, LOSSWIN - alpha);
            let ghost b1s = *board;
            let val = LOSSWIN - sub;
            board.unmake_move();
            proof {
                lemma_unmake_undoes_make(b0, b1, b1s, *board, chosen as int);
                if sm {
                    if sub == LOSS {
                        crate::value::lemma_child_loss_wins(b0, chosen as int);
                    }
                }
            }
            if val > score {
                besti = i;
                score = val;
                if score > alpha && board.nplies >= self.book_ply {
                    alpha = score;
                    if alpha >= beta {
                        // Fail-high: if we cut off exactly at DRAW with moves
                        // still untried, the true value could be better than
                        // DRAW, so report the "at least draw" bound instead.
                        if score == DRAW && i < nav - 1 {
                            score = DRAWWIN;
                        }
                        // Reward the move that caused the cutoff, penalize
                        // the ones tried and rejected before it.
                        if besti > 0 {
                            let mut k = 0usize;
                            while k < besti
                                invariant
                                    k <= besti,
                                    besti < nav <= WIDTH,
                                    forall|j: int| 0 <= j < nav ==> #[trigger] av[j] < 7,
                                    forall|c: int| 0 <= c < 7 ==> #[trigger] board.height[c] < SIZE1,
                                    side < 2,
                                    solver_ready(*self),
                                    self.tt.slots().len() == old(self).tt.slots().len(),
                                    sm ==> tt_sound(self.tt),
                                decreases besti - k,
                            {
                                let idx = board.height[av[k]] as usize;
                                self.history[side][idx] = self.history[side][idx].wrapping_sub(1);
                                k += 1;
                            }
                            let idx = board.height[av[besti]] as usize;
                            self.history[side][idx] = self.history[side][idx].wrapping_add(
                                besti as i32,
                            );
                        }
                        break;
                    }
                }
            }
            i += 1;
        }
        // Combine a stored upper bound with a newly proven lower bound (or
        // vice versa) at the same point into an exact DRAW.
        if score == LOSSWIN - ttscore {
            score = DRAW;
        }
        proof {
            if sm && score == LOSS {
                let cl = candidate_list(b0);
                assert forall|c: int| 0 <= c < 7 && #[trigger] b0.has_room(c) implies game_value(
                    b0.history().push(c as u8),
                ) == WIN by {
                    if cl.contains(c as usize) {
                        assert(av@.take(nav as int).contains(c as usize));
                        let k = choose|k: int| 0 <= k < nav && av@.take(nav as int)[k] == c as usize;
                        assert(av[k] == c as usize);
                    } else {
                        crate::value::lemma_non_candidate_loses(b0, c);
                    }
                }
                crate::value::lemma_all_children_win(b0);
            }
        }
        let poscnt = self.tt.posed.wrapping_sub(poscnt_before);
        let work = intlog(poscnt);
        let ghost he = self.tt.slots()[index as int];
        let ghost tt_before = self.tt;
        self.tt.store(index, lock, score, work);
        proof {
            lemma_store_then_lookup(he, lock, score, work);
            if sm {
                lemma_store_sound(tt_before, self.tt, b0, score, work);
            }
        }
        if self.verbose && board.nplies <= self.report_ply {
            let moves = format_moves(board);
            self.report.push(NodeReport { moves, score, work });
        }
        score
    }

    /// Solve the position currently on `board`. Returns (score, nodes visited,
    /// elapsed milliseconds). Does not clear the transposition table -- call
    /// `self.tt.clear()` first if a fresh table is wanted.
    pub fn solve(&mut self, board: &mut Board) -> (r: (i32, u64, u128))
        requires
            old(board).wf(),
            old(self).tt.wf(),
            old(self).tt.slots().len() > 0 || decided_at_once(*old(board)),
        ensures
            final(board).wf(),
            same_position(*final(board), *old(board)),
            final(self).tt.wf(),
            final(self).tt.slots().len() == old(self).tt.slots().len(),
            LOSS <= r.0 <= WIN,
            r.1 == final(self).nodes,
            r.2 >= 1,
            has_four(opponent_stones(*old(board))) ==> r == (LOSS, 0u64, 1u128),
            !has_four(opponent_stones(*old(board))) && can_win_now(*old(board)) ==> r == (
                WIN,
                0u64,
                1u128,
            ),
            !has_four(opponent_stones(*old(board))) && !can_win_now(*old(board)) ==> {
                &&& old(board).nplies >= SIZE - 1 ==> r.0 == DRAW
                &&& old(board).nplies < SIZE - 1 && forced_loss(*old(board)) ==> r.0 == LOSS
                &&& old(board).nplies == SIZE - 2 && !forced_loss(*old(board)) ==> r.0 == DRAW
                &&& shortcut(*old(board)) ==> r.1 == 1 && final(self).tt == old(self).tt
                &&& searched(*old(board)) ==> slot_lookup(
                    final(self).tt.slots()[key_index(*old(board), old(self).tt.slots().len() as int)],
                    key_lock(*old(board)),
                ) == r.0
            },
            has_four(opponent_stones(*old(board))) || can_win_now(*old(board)) ==> final(self).tt
                == old(self).tt,
            decided_at_once(*old(board)) ==> r.0 == game_value(old(board).history()),
            old(self).tt.slots().len() >= 0x80_0000 && tt_sound(old(self).tt) ==> {
                &&& tt_sound(final(self).tt)
                &&& r.0 == LOSS ==> game_value(old(board).history()) == LOSS
                &&& r.0 == WIN ==> game_value(old(board).history()) == WIN
            },
    {
        self.nodes = 0;
        let side = board.side();
        let otherside = 1 - side;
        if Board::has_won(board.color[otherside]) {
            proof {
                lemma_value_lost(*board);
            }
            return (LOSS, self.nodes, 1);
        }
        proof {
            board.lemma_shape();
        }
        let mut i = 0usize;
        while i < WIDTH
            invariant
                board.wf(),
                side == board.spec_side(),
                self.nodes == 0,
                self.tt == old(self).tt,
                old(self).tt.wf(),
                old(self).tt.slots().len() > 0 || decided_at_once(*old(board)),
                *board == *old(board),
                otherside == 1 - side,
                !has_four(opponent_stones(*board)),
                forall|c: int| 0 <= c < i ==> !#[trigger] win_at(*board, c),
            decreases WIDTH - i,
        {
            proof {
                crate::board::lemma_open_column(*board, i as int);
            }
            if Board::is_legal_has_won(board.color[side] | (1u64 << board.height[i])) {
                proof {
                    assert(win_at(*board, i as int));
                    lemma_value_win_now(*board);
                }
                return (WIN, self.nodes, 1);
            }
            i += 1;
        }
        self.init_history();
        self.report_ply = board.nplies + REPORTPLY;
        self.book_ply = board.nplies + BOOKPLY;
        let start = clock_now();
        let score = self.ab(board, LOSS, WIN);
        let elapsed = clock_elapsed(&start);
        let ms = duration_millis(&elapsed);
        let elapsed_ms = if ms < 1 {
            1
        } else {
            ms
        };
        (score, self.nodes, elapsed_ms)
    }

    /// Choose the best legal column to play in the current position. Unlike
    /// `solve`, this doesn't clear the transposition table or reinitialize
    /// history -- for interactive play, keep reusing the same `Solver`
    /// across a whole game so later, shallower searches benefit from
    /// everything learned on earlier turns.
    ///
    /// Returns `None` only if the board is completely full. If the position
    /// is already lost regardless of what's played, this still returns some
    /// legal column so the game can continue.
    ///
    /// On a root whose candidate positions are all `settled`, the column
    /// returned is optimal: it achieves the value of the position, and no
    /// column leaves the opponent a lower value. With a sound table of at
    /// least 2^23 slots, the table stays sound, and where some candidate
    /// column wins with a `settled` position after it, the column returned
    /// wins too.
    pub fn best_move(&mut self, board: &mut Board) -> (r: Option<usize>)
        requires
            old(board).wf(),
            old(self).tt.wf(),
            old(self).tt.slots().len() > 0 || can_win_now(*old(board)) || settled(
                *old(board),
                (SIZE - old(board).nplies) as nat,
            ),
        ensures
            final(board).wf(),
            same_position(*final(board), *old(board)),
            final(self).tt.wf(),
            final(self).tt.slots().len() == old(self).tt.slots().len(),
            r.is_some() == any_room(*old(board)),
            r matches Some(c) ==> c < WIDTH && old(board).has_room(c as int),
            can_win_now(*old(board)) ==> r == Some(first_win_from(*old(board), 0) as usize),
            !can_win_now(*old(board)) && forced_loss(*old(board)) ==> r == first_room_from(
                *old(board),
                0,
            ),
            !can_win_now(*old(board)) && !forced_loss(*old(board)) ==> (r matches Some(c)
                && candidate_list(*old(board)).contains(c)),
            can_win_now(*old(board)) ==> (r matches Some(c) && game_value(
                old(board).history().push(c as u8),
            ) == LOSS),
            !has_four(opponent_stones(*old(board))) && can_win_now(*old(board)) ==> game_value(
                old(board).history(),
            ) == WIN,
            !has_four(opponent_stones(*old(board))) && !can_win_now(*old(board)) && forced_loss(
                *old(board),
            ) && old(board).nplies < SIZE - 1 ==> game_value(old(board).history()) == LOSS,
            !has_four(opponent_stones(*old(board))) && !can_win_now(*old(board)) && !forced_loss(
                *old(board),
            ) && old(board).nplies < SIZE - 2 && candidate_list(*old(board)).len() == 1 ==> (r matches Some(
                c,
            ) && game_value(old(board).history()) == LOSSWIN - game_value(
                old(board).history().push(c as u8),
            )),
            exact_root(*old(board)) ==> (r matches Some(c) && game_value(old(board).history())
                == LOSSWIN - game_value(old(board).history().push(c as u8))),
            exact_root(*old(board)) ==> (r matches Some(c) && forall|c2: int|
                0 <= c2 < WIDTH && #[trigger] old(board).has_room(c2) ==> game_value(
                    old(board).history().push(c as u8),
                ) <= game_value(old(board).history().push(c2 as u8))),
            sound_root(*old(self), *old(board)) ==> tt_sound(final(self).tt),
            sound_root(*old(self), *old(board)) && (exists|c: usize|
                #[trigger] settled_winning_move(*old(board), c)) ==> (r matches Some(c) && game_value(
                old(board).history().push(c as u8),
            ) == LOSS),
            can_win_now(*old(board)) || forced_loss(*old(board)) ==> final(self).nodes == 0
                && final(self).tt == old(self).tt && final(self).history == old(self).history,
    {
        self.nodes = 0;
        self.book_ply = board.nplies + BOOKPLY;
        self.report_ply = 0;  // no per-node tracing during interactive play
        let side = board.side();
        let ghost b0 = *board;
        proof {
            board.lemma_shape();
        }
        // Fast path: an outright winning move needs no search.
        let mut col = 0usize;
        while col < WIDTH
            invariant
                *board == b0,
                b0 == *old(board),
                self.tt == old(self).tt,
                self.nodes == 0,
                self.history == old(self).history,
                old(self).tt.wf(),
                old(self).tt.slots().len() > 0 || can_win_now(b0) || settled(
                    b0,
                    (SIZE - b0.nplies) as nat,
                ),
                b0.wf(),
                side == b0.spec_side(),
                col <= WIDTH,
                forall|c: int| 0 <= c < col ==> !#[trigger] win_at(b0, c),
            decreases WIDTH - col,
        {
            proof {
                crate::board::lemma_open_column(b0, col as int);
            }
            if Board::is_legal_has_won(board.color[side] | (1u64 << board.height[col])) {
                proof {
                    assert(win_at(b0, col as int));
                    lemma_first_win_skip(b0, 0, col as int);
                    assert(b0.has_room(col as int));
                    lemma_value_winning_move(b0, col as int);
                    if !has_four(opponent_stones(b0)) {
                        lemma_value_win_now(b0);
                    }
                }
                return Some(col);
            }
            col += 1;
        }
        proof {
            lemma_first_win_skip(b0, 0, 7);
            lemma_candidates_playable(b0);
            assert(!can_win_now(b0));
        }
        let cands = candidates(board);
        match cands {
            Candidates::Forced(_) => {
                proof {
                    if !has_four(opponent_stones(b0)) && b0.nplies < SIZE - 1 {
                        lemma_value_forced_loss(b0);
                    }
                }
                // Lost regardless of what's played (or no safe column at
                // all) -- just play any legal column so the game continues.
                first_playable(board)
            },
            Candidates::Open(av, nav) => {
                proof {
                    assert(any_room(b0)) by {
                        assert(av@.take(nav as int)[0] == av[0]);
                        assert(b0.has_room(av[0] as int));
                    }
                }
                proof {
                    if self.tt.slots().len() == 0 {
                        assert forall|c: int, b2: Board|
                            0 <= c < candidate_list(b0).len() && b2.wf() && #[trigger] Board::made_move(
                                b0,
                                b2,
                                candidate_list(b0)[c] as int,
                            ) implies settled(b2, (SIZE - b2.nplies) as nat) by {
                            if !shortcut(b0) {
                                assert(candidate_list(b0).len() == 1);
                                assert(c == 0);
                            } else {
                                assert(!forced_loss(b0));
                                assert(b2.nplies >= SIZE - 1);
                                assert(shortcut(b2));
                            }
                        }
                    }
                }
                let best = self.search_root(board, av, nav);
                proof {
                    let cl = candidate_list(b0);
                    if !has_four(opponent_stones(b0)) && b0.nplies < SIZE - 2 && cl.len() == 1 {
                        let k = choose|k: int| 0 <= k < cl.len() && cl[k] == best;
                        assert(cl =~= seq![best]);
                        lemma_single_candidate_value(b0, best as int);
                    }
                    if exact_root(b0) {
                        crate::value::lemma_optimal_move(b0, best as int);
                    }
                }
                Some(best)
            },
        }
    }

    /// Search every candidate column of the root, most promising first, and
    /// return the one with the best score.
    #[verifier::rlimit(60)]
    fn search_root(&mut self, board: &mut Board, av: [usize; WIDTH], nav: usize) -> (best: usize)
        requires
            old(board).wf(),
            old(self).tt.wf(),
            old(self).tt.slots().len() > 0 || children_settled(*old(board)),
            !forced_loss(*old(board)),
            nav == candidate_list(*old(board)).len(),
            av@.take(nav as int) == candidate_list(*old(board)),
        ensures
            final(board).wf(),
            same_position(*final(board), *old(board)),
            final(self).tt.wf(),
            final(self).tt.slots().len() == old(self).tt.slots().len(),
            candidate_list(*old(board)).contains(best),
            best < WIDTH,
            old(board).has_room(best as int),
            exact_root(*old(board)) ==> game_value(old(board).history()) == LOSSWIN - game_value(
                old(board).history().push(best as u8),
            ),
            sound_root(*old(self), *old(board)) ==> tt_sound(final(self).tt),
            sound_root(*old(self), *old(board)) && (exists|c: usize|
                #[trigger] settled_winning_move(*old(board), c)) ==> game_value(
                old(board).history().push(best as u8),
            ) == LOSS,
    {
        let mut av = av;
        let side = board.side();
        let ghost b0 = *board;
        let ghost cl = candidate_list(b0);
        let ghost ex = exact_root(b0);
        let ghost h = b0.history();
        let ghost sm = sound_root(*self, b0);
        proof {
            board.lemma_shape();
            lemma_candidates_playable(b0);
            assert forall|j: int| 0 <= j < nav implies #[trigger] av[j] < 7 && b0.has_room(av[j] as int)
                && cl.contains(av[j]) by {
                assert(av@.take(nav as int)[j] == av[j]);
                assert(cl[j] == av[j]);
            }
        }
        let mut best_col: Option<usize> = None;
        let mut alpha = LOSS;
        let beta = WIN;
        let mut i = 0usize;
        while i < nav
            invariant_except_break
                i == 0 ==> best_col is None,
            invariant
                board.wf(),
                b0.wf(),
                same_position(*board, b0),
                b0 == *old(board),
                cl == candidate_list(b0),
                1 <= nav <= WIDTH,
                i <= nav,
                forall|j: int| 0 <= j < nav ==> #[trigger] av[j] < 7 && b0.has_room(av[j] as int)
                    && cl.contains(av[j]),
                forall|c: int| 0 <= c < 7 ==> #[trigger] b0.height[c] < SIZE1,
                side == b0.spec_side(),
                side < 2,
                LOSS <= alpha <= WIN,
                beta == WIN,
                i > 0 ==> best_col is Some,
                best_col matches Some(c) ==> c < WIDTH && b0.has_room(c as int) && cl.contains(c),
                self.tt.wf(),
                self.tt.slots().len() == old(self).tt.slots().len(),
                old(self).tt.slots().len() > 0 || children_settled(b0),
                ex == exact_root(b0),
                h == b0.history(),
                best_col is None ==> alpha == LOSS && i == 0,
                forall|x: usize| #[trigger] cl.contains(x) ==> av@.take(nav as int).contains(x),
                ex && i > 0 ==> (best_col matches Some(bc) && LOSSWIN - game_value(h.push(bc as u8))
                    == alpha),
                ex ==> forall|k: int|
                    0 <= k < i ==> LOSSWIN - game_value(h.push(#[trigger] av[k] as u8)) <= alpha,
                sm == sound_root(*old(self), b0),
                sm ==> tt_sound(self.tt),
                sm && alpha == WIN ==> (best_col matches Some(bc) && game_value(h.push(bc as u8)) == LOSS),
                sm ==> forall|k: int| 0 <= k < i && settled_winning_move(b0, #[trigger] av[k]) ==> alpha == WIN,
            ensures
                best_col is Some,
                i == nav || alpha == WIN,
                sm ==> tt_sound(self.tt),
                sm && alpha == WIN ==> (best_col matches Some(bc) && game_value(h.push(bc as u8)) == LOSS),
                sm ==> forall|k: int| 0 <= k < i && settled_winning_move(b0, #[trigger] av[k]) ==> alpha == WIN,
                ex ==> (best_col matches Some(bc) && LOSSWIN - game_value(h.push(bc as u8)) == alpha),
                ex ==> forall|k: int|
                    0 <= k < i ==> LOSSWIN - game_value(h.push(#[trigger] av[k] as u8)) <= alpha,
            decreases nav - i,
        {
            let ghost av_before = av@;
            let chosen = pick_next_move(&self.history[side], board, &mut av, i, nav);
            proof {
                let l = choose|l: int|
                    #![trigger av_before[l]]
                    i <= l < nav && chosen == av_before[l] && moved_to_front(av_before, av@, i as int, l);
                assert forall|j: int| 0 <= j < nav implies #[trigger] av[j] < 7 && b0.has_room(av[j] as int)
                    && cl.contains(av[j]) by {
                    if j < i {
                        assert(av@[j] == av_before[j]);
                    } else if j == i {
                        assert(av@[j] == av_before[l]);
                    } else if j <= l {
                        assert(av@[j] == av_before[j - 1]);
                    } else {
                        assert(av@[j] == av_before[j]);
                    }
                }
                assert(b0.has_room(chosen as int) && cl.contains(chosen));
                assert forall|x: usize| #[trigger] cl.contains(x) implies av@.take(nav as int).contains(x) by {
                    assert(av_before.take(nav as int).contains(x));
                    let p = choose|p: int| 0 <= p < nav && av_before.take(nav as int)[p] == x;
                    let q: int = if p < i {
                        p
                    } else if p == l {
                        i as int
                    } else if p < l {
                        p + 1
                    } else {
                        p
                    };
                    assert(av@[q] == x);
                    assert(av@.take(nav as int)[q] == x);
                }
                assert forall|k: int| 0 <= k < i implies #[trigger] av[k] == av_before[k] by {
                    assert(av@[k] == av_before[k]);
                }
                assert(av[i as int] == chosen);
                if ex {
                    assert forall|k: int| 0 <= k < i implies LOSSWIN - game_value(
                        h.push(#[trigger] av[k] as u8),
                    ) <= alpha by {
                        assert(av[k] == av_before[k]);
                    }
                }
                if sm {
                    assert forall|k: int| 0 <= k < i && settled_winning_move(b0, #[trigger] av[k]) implies alpha
                        == WIN by {
                        assert(av[k] == av_before[k]);
                    }
                }
            }
            board.make_move(chosen);
            let ghost b1 = *board;
            proof {
                if self.tt.slots().len() == 0 {
                    let kk = choose|kk: int| 0 <= kk < cl.len() && cl[kk] == chosen;
                    assert(Board::made_move(b0, b1, cl[kk] as int));
                }
            }
            let ghost s1 = *self;
            let sub = self.ab(board, LOSSWIN - beta, LOSSWIN - alpha);
            let ghost b1s = *board;
            let score = LOSSWIN - sub;
            board.unmake_move();
            proof {
                lemma_unmake_undoes_make(b0, b1, b1s, *board, chosen as int);
                if sm {
                    lemma_candidate_child(b0, chosen as int, b1);
                    assert(sound_search(s1, b1, (LOSSWIN - beta) as i32, (LOSSWIN - alpha) as i32));
                    assert(score == WIN ==> game_value(h.push(chosen as u8)) == LOSS);
                    if settled_winning_move(b0, chosen) {
                        let kk = choose|kk: int| 0 <= kk < cl.len() && cl[kk] == chosen;
                        assert(Board::made_move(b0, b1, cl[kk] as int));
                        assert(settled(b1, (SIZE - b1.nplies) as nat));
                        assert(sub == game_value(h.push(chosen as u8)));
                        assert(score == WIN);
                    }
                }
                if ex {
                    lemma_candidate_child(b0, chosen as int, b1);
                    let kk = choose|kk: int| 0 <= kk < cl.len() && cl[kk] == chosen;
                    assert(Board::made_move(b0, b1, cl[kk] as int));
                    assert(settled(b1, (SIZE - b1.nplies) as nat));
                    assert(score == LOSSWIN - game_value(h.push(chosen as u8)));
                }
            }
            let ghost alpha_before = alpha;
            let ghost best_before = best_col;
            if best_col.is_none() || score > alpha {
                best_col = Some(chosen);
                alpha = score;
                if alpha >= beta {
                    proof {
                        if ex {
                            lemma_root_step(h, av@, i as int, alpha_before as int, alpha as int, chosen);
                        }
                    }
                    break;  // found a proven win; can't do better
                }
            }
            proof {
                if sm && settled_winning_move(b0, chosen) {
                    assert(alpha == WIN);
                }
                if ex {
                    assert(score == LOSSWIN - game_value(h.push(chosen as u8)));
                    if best_before is None || score > alpha_before {
                        assert(best_col == Some(chosen) && alpha == score);
                    } else {
                        assert(best_col == best_before && alpha == alpha_before);
                    }
                    lemma_root_step(h, av@, i as int, alpha_before as int, alpha as int, chosen);
                }
            }
            i += 1;
        }
        let best = match best_col {
            Some(c) => c,
            None => 0,
        };
        proof {
            if ex {
                lemma_candidates_playable(b0);
                assert forall|c2: int| 0 <= c2 < 7 && #[trigger] b0.has_room(c2) implies LOSSWIN - game_value(
                    h.push(c2 as u8),
                ) <= alpha by {
                    if alpha == WIN {
                        crate::value::lemma_room_push_range(b0, c2);
                    } else if cl.contains(c2 as usize) {
                        let k = choose|k: int| 0 <= k < nav && av@.take(nav as int)[k] == c2 as usize;
                        assert(av[k] == c2 as usize);
                    } else {
                        crate::value::lemma_non_candidate_loses(b0, c2);
                    }
                }
                crate::value::lemma_value_is_max(b0, best as int, alpha as int);
            }
            if sm && exists|c: usize| #[trigger] settled_winning_move(b0, c) {
                let c = choose|c: usize| #[trigger] settled_winning_move(b0, c);
                let k = choose|k: int| 0 <= k < nav && av@.take(nav as int)[k] == c;
                assert(av[k] == c);
            }
        }
        best
    }

    /// Seed the history-heuristic table with the symmetric center-weighted
    /// values (columns/rows near the board's center start with higher scores).
    #[verifier::rlimit(40)]
    pub fn init_history(&mut self)
        ensures
            seeded_row(final(self).history[0], old(self).history[0]),
            seeded_row(final(self).history[1], old(self).history[1]),
            final(self).tt == old(self).tt,
            final(self).nodes == old(self).nodes,
            final(self).book_ply == old(self).book_ply,
            final(self).report_ply == old(self).report_ply,
            final(self).verbose == old(self).verbose,
            final(self).report == old(self).report,
    {
        let mut side = 0usize;
        while side < 2
            invariant
                side <= 2,
                forall|s: int| 0 <= s < side ==> seeded_row(#[trigger] self.history[s], old(self).history[s]),
                forall|s: int| side <= s < 2 ==> #[trigger] self.history[s] == old(self).history[s],
                self.tt == old(self).tt,
                self.nodes == old(self).nodes,
                self.book_ply == old(self).book_ply,
                self.report_ply == old(self).report_ply,
                self.verbose == old(self).verbose,
                self.report == old(self).report,
            decreases 2 - side,
        {
            let ghost old_row = self.history[side as int];
            let mut row = self.history[side];
            let mut i = 0usize;
            while i < (WIDTH + 1) / 2
                invariant
                    i <= 4,
                    forall|c: int, r: int|
                        0 <= c < 7 && 0 <= r < 6 && seeded_before(c, r, i as int, 0) ==> #[trigger] row[7 * c + r]
                            == history_seed(c, r),
                    forall|c: int, r: int|
                        0 <= c < 7 && 0 <= r < 7 && !(r < 6 && seeded_before(c, r, i as int, 0)) ==> #[trigger] row[7 * c + r]
                            == old_row[7 * c + r],
                decreases 4 - i,
            {
                let mut h = 0usize;
                while h < H1 / 2
                    invariant
                        i < 4,
                        h <= 3,
                        forall|c: int, r: int|
                            0 <= c < 7 && 0 <= r < 6 && seeded_before(c, r, i as int, h as int) ==> #[trigger] row[7
                                * c + r] == history_seed(c, r),
                        forall|c: int, r: int|
                            0 <= c < 7 && 0 <= r < 7 && !(r < 6 && seeded_before(c, r, i as int, h as int))
                                ==> #[trigger] row[7 * c + r] == old_row[7 * c + r],
                    decreases 3 - h,
                {
                    let ii = i as i32;
                    let hh = h as i32;
                    let val = 4 + min_i32(ii, 3) + max_i32(min_i32(hh, 3) - max_i32(3 - ii, 0), -1)
                        + min_i32(min_i32(ii, hh), 3) + min_i32(hh, 3);
                    let idx1 = H1 * i + h;
                    let idx2 = H1 * (WIDTH - 1 - i) + HEIGHT - 1 - h;
                    let idx3 = H1 * i + HEIGHT - 1 - h;
                    let idx4 = H1 * (WIDTH - 1 - i) + h;
                    let ghost prev = row;
                    row[idx1] = val;
                    row[idx2] = val;
                    row[idx3] = val;
                    row[idx4] = val;
                    proof {
                        assert(val == seed_value(i as int, h as int));
                        assert forall|c: int, r: int|
                            0 <= c < 7 && 0 <= r < 6 && seeded_before(c, r, i as int, h + 1) implies #[trigger] row[7
                                * c + r] == history_seed(c, r) by {
                            if seeded_before(c, r, i as int, h as int) {
                                assert(prev[7 * c + r] == history_seed(c, r));
                            }
                        }
                        assert forall|c: int, r: int|
                            0 <= c < 7 && 0 <= r < 7 && !(r < 6 && seeded_before(c, r, i as int, h + 1))
                                implies #[trigger] row[7 * c + r] == old_row[7 * c + r] by {
                            assert(prev[7 * c + r] == old_row[7 * c + r]);
                        }
                    }
                    h += 1;
                }
                proof {
                    assert forall|c: int, r: int|
                        0 <= c < 7 && 0 <= r < 6 && seeded_before(c, r, i + 1, 0) implies #[trigger] row[7 * c + r]
                            == history_seed(c, r) by {
                        assert(seeded_before(c, r, i as int, 3));
                    }
                }
                i += 1;
            }
            self.history[side] = row;
            proof {
                assert forall|c: int, r: int|
                    0 <= c < 7 && 0 <= r < 6 implies #[trigger] row[7 * c + r] == history_seed(c, r) by {
                    assert(seeded_before(c, r, 4, 0));
                }
                assert forall|c: int| 0 <= c < 7 implies #[trigger] row[7 * c + 6] == old_row[7 * c + 6] by {
                    assert(!(6int < 6));
                }
            }
            side += 1;
        }
    }
}

} // verus!
