//! Left-right mirror symmetry of the game: reflecting every move of a game
//! reflects the stones, keeps four-in-a-rows and keeps the value.

use vstd::prelude::*;
use crate::board::{
    BOTTOM, bit, col_count, connects_four, four_in_a_row, has_four, is_direction, legal_history,
    lemma_col_count_push, lemma_has_four_is_connect_four, lemma_history_shape, occupied,
    replay_color, replay_height, stone_at, PLAYABLE, SIZE,
};
use crate::tt::{code_shape, lemma_code_groups, lemma_mirror_sum, lemma_mirror_unfold, mirror7, mirror_code};
use crate::value::{best_value, game_value, last_side, lemma_push};

verus! {

/// The moves `h` with every column reflected left to right.
pub open spec fn mirror_moves(h: Seq<u8>) -> Seq<u8> {
    Seq::new(h.len(), |k: int| (6 - h[k]) as u8)
}

proof fn lemma_mirror_push(h: Seq<u8>, c: int)
    requires
        0 <= c < 7,
    ensures
        mirror_moves(h.push(c as u8)) == mirror_moves(h).push((6 - c) as u8),
{
    assert(mirror_moves(h.push(c as u8)) =~= mirror_moves(h).push((6 - c) as u8));
}

proof fn lemma_mirror_xor(x: u64, y: u64)
    by (bit_vector)
    ensures
        mirror7(x ^ y) == mirror7(x) ^ mirror7(y),
        mirror7(0) == 0,
{
}

proof fn lemma_mirror_single(c: u64, k: u64)
    by (bit_vector)
    requires
        c < 7,
        k < 7,
    ensures
        mirror7(1u64 << ((7 * c + k) as u64)) == 1u64 << ((7 * (6 - c) + k) as u64),
{
}

proof fn lemma_mirror_bit(x: u64, c: u64, r: u64)
    by (bit_vector)
    requires
        c < 7,
        r < 7,
    ensures
        bit(mirror7(x), (7 * c + r) as u64) == bit(x, (7 * (6 - c) + r) as u64),
{
}

proof fn lemma_mirror_playable(x: u64)
    by (bit_vector)
    requires
        x & !0xfdfbf7efdfbfu64 == 0,
    ensures
        mirror7(x) & !0xfdfbf7efdfbfu64 == 0,
        mirror7(mirror7(x)) == x,
{
}

proof fn lemma_mirror_counts(h: Seq<u8>)
    requires
        forall|k: int| 0 <= k < h.len() ==> #[trigger] h[k] < 7,
    ensures
        forall|c: int| 0 <= c < 7 ==> #[trigger] col_count(mirror_moves(h), c) == col_count(h, 6 - c),
    decreases h.len(),
{
    let hm = mirror_moves(h);
    if h.len() > 0 {
        let prev = h.drop_last();
        let c = h.last() as int;
        assert(h =~= prev.push(c as u8));
        assert(h[h.len() - 1] < 7);
        lemma_mirror_counts(prev);
        lemma_mirror_push(prev, c);
        let pm = mirror_moves(prev);
        assert forall|t: int| 0 <= t < 7 implies #[trigger] col_count(hm, t) == col_count(h, 6 - t) by {
            lemma_col_count_push(pm, (6 - c) as u8, t);
            lemma_col_count_push(prev, c as u8, 6 - t);
        }
    }
}

#[verifier::spinoff_prover]
#[verifier::rlimit(60)]
proof fn lemma_mirror_colors(h: Seq<u8>)
    requires
        legal_history(h),
    ensures
        replay_color(mirror_moves(h), 0) == mirror7(replay_color(h, 0)),
        replay_color(mirror_moves(h), 1) == mirror7(replay_color(h, 1)),
    decreases h.len(),
{
    lemma_mirror_xor(0, 0);
    if h.len() > 0 {
        let prev = h.drop_last();
        let c = h.last() as int;
        assert(h =~= prev.push(c as u8));
        let hm = mirror_moves(h);
        let pm = mirror_moves(prev);
        lemma_history_shape(h);
        assert(h[h.len() - 1] < 7);
        lemma_mirror_colors(prev);
        lemma_mirror_push(prev, c);
        assert(hm.drop_last() =~= pm);
        assert(hm.last() == (6 - c) as u8);
        lemma_history_shape(prev);
        lemma_mirror_counts(prev);
        assert(col_count(pm, 6 - c) == col_count(prev, 6 - (6 - c)));
        let k = col_count(prev, c);
        assert(0 <= k < 6);
        lemma_mirror_single(c as u64, k as u64);
        let b = 1u64 << ((7 * c + k) as u64);
        assert(replay_height(pm, 6 - c) == 7 * (6 - c) + k);
        assert(replay_height(prev, c) == 7 * c + k);
        lemma_mirror_xor(replay_color(prev, 0), b);
        lemma_mirror_xor(replay_color(prev, 1), b);
        if prev.len() % 2 == 0 {
            assert(replay_color(h, 0) == replay_color(prev, 0) ^ b);
            assert(replay_color(hm, 0) == replay_color(pm, 0) ^ mirror7(b));
            assert(replay_color(h, 1) == replay_color(prev, 1));
            assert(replay_color(hm, 1) == replay_color(pm, 1));
        } else {
            assert(replay_color(h, 1) == replay_color(prev, 1) ^ b);
            assert(replay_color(hm, 1) == replay_color(pm, 1) ^ mirror7(b));
            assert(replay_color(h, 0) == replay_color(prev, 0));
            assert(replay_color(hm, 0) == replay_color(pm, 0));
        }
    }
}

proof fn lemma_mirror_legal(h: Seq<u8>)
    requires
        legal_history(h),
    ensures
        legal_history(mirror_moves(h)),
    decreases h.len(),
{
    if h.len() > 0 {
        let prev = h.drop_last();
        let c = h.last() as int;
        assert(h =~= prev.push(c as u8));
        lemma_history_shape(prev);
        lemma_mirror_legal(prev);
        lemma_mirror_push(prev, c);
        lemma_mirror_counts(prev);
        let hm = mirror_moves(h);
        assert(hm.drop_last() =~= mirror_moves(prev));
        assert(col_count(mirror_moves(prev), 6 - c) == col_count(prev, 6 - (6 - c)));
    }
}

/// Reflecting the moves reflects the column counts, keeps legality and
/// reflects each player's stones.
pub proof fn lemma_mirror_history(h: Seq<u8>)
    requires
        legal_history(h),
    ensures
        legal_history(mirror_moves(h)),
        forall|c: int| 0 <= c < 7 ==> #[trigger] col_count(mirror_moves(h), c) == col_count(h, 6 - c),
        replay_color(mirror_moves(h), 0) == mirror7(replay_color(h, 0)),
        replay_color(mirror_moves(h), 1) == mirror7(replay_color(h, 1)),
{
    lemma_history_shape(h);
    lemma_mirror_counts(h);
    lemma_mirror_colors(h);
    lemma_mirror_legal(h);
}

/// Reflecting a set of stones on playable squares keeps four in a row.
pub proof fn lemma_mirror_four(x: u64)
    requires
        x & !PLAYABLE == 0,
    ensures
        has_four(mirror7(x)) == has_four(x),
{
    lemma_mirror_playable(x);
    lemma_mirror_playable(mirror7(x));
    lemma_has_four_is_connect_four(x);
    lemma_has_four_is_connect_four(mirror7(x));
    lemma_mirror_connects(x);
    lemma_mirror_connects(mirror7(x));
}

proof fn lemma_mirror_stone(x: u64, c: int, r: int)
    ensures
        stone_at(mirror7(x), c, r) == stone_at(x, 6 - c, r),
{
    if 0 <= c < 7 && 0 <= r < 6 {
        lemma_mirror_bit(x, c as u64, r as u64);
    }
}

proof fn lemma_mirror_connects(x: u64)
    ensures
        connects_four(x) ==> connects_four(mirror7(x)),
{
    let m = mirror7(x);
    if connects_four(x) {
        let (c, r, dc, dr) = choose|c: int, r: int, dc: int, dr: int|
            is_direction(dc, dr) && #[trigger] four_in_a_row(x, c, r, dc, dr);
        lemma_mirror_stone(x, 6 - c, r);
        lemma_mirror_stone(x, 6 - c - dc, r + dr);
        lemma_mirror_stone(x, 6 - c - 2 * dc, r + 2 * dr);
        lemma_mirror_stone(x, 6 - c - 3 * dc, r + 3 * dr);
        if dc == 0 {
            assert(four_in_a_row(m, 6 - c, r, 0, 1));
        } else {
            let c2 = 3 - c;
            let r2 = r + 3 * dr;
            assert(four_in_a_row(m, c2, r2, 1, -dr));
            assert(is_direction(1, -dr));
        }
    }
}

/// Reflecting every move of a game keeps its value.
pub proof fn lemma_mirror_value(h: Seq<u8>)
    requires
        legal_history(h),
    ensures
        game_value(mirror_moves(h)) == game_value(h),
    decreases crate::board::SIZE - h.len(),
{
    let hm = mirror_moves(h);
    lemma_mirror_history(h);
    lemma_history_shape(h);
    let k0 = col_count(h, 0) as u64;
    let k1 = col_count(h, 1) as u64;
    let k2 = col_count(h, 2) as u64;
    let k3 = col_count(h, 3) as u64;
    let k4 = col_count(h, 4) as u64;
    let k5 = col_count(h, 5) as u64;
    let k6 = col_count(h, 6) as u64;
    assert(0 <= col_count(h, 0) <= 6 && 0 <= col_count(h, 1) <= 6 && 0 <= col_count(h, 2) <= 6
        && 0 <= col_count(h, 3) <= 6 && 0 <= col_count(h, 4) <= 6 && 0 <= col_count(h, 5) <= 6
        && 0 <= col_count(h, 6) <= 6);
    crate::board::lemma_filled_playable(replay_color(h, 0), replay_color(h, 1), k0, k1, k2, k3, k4, k5, k6);
    lemma_mirror_four(replay_color(h, last_side(h)));
    assert(last_side(hm) == last_side(h));
    assert(last_side(h) == 0 || last_side(h) == 1);
    if !has_four(replay_color(h, last_side(h))) && h.len() < SIZE {
        assert forall|c: int| 0 <= c < 7 && #[trigger] col_count(h, c) < 6 implies game_value(
            h.push(c as u8),
        ) == game_value(hm.push((6 - c) as u8)) by {
            lemma_push(h, c);
            lemma_mirror_push(h, c);
            lemma_mirror_value(h.push(c as u8));
        }
        lemma_mirror_best(h);
    }
}

proof fn lemma_mirror_best(h: Seq<u8>)
    requires
        legal_history(h),
        h.len() < SIZE,
        forall|c: int| 0 <= c < 7 ==> #[trigger] col_count(mirror_moves(h), c) == col_count(h, 6 - c),
        forall|c: int|
            0 <= c < 7 && #[trigger] col_count(h, c) < 6 ==> game_value(h.push(c as u8)) == game_value(
                mirror_moves(h).push((6 - c) as u8),
            ),
    ensures
        best_value(mirror_moves(h), 7) == best_value(h, 7),
{
    let hm = mirror_moves(h);
    crate::value::lemma_best_bounds(h, hm);
}

/// The position code of the position after the moves `h`.
pub open spec fn history_code(h: Seq<u8>) -> int {
    replay_color(h, h.len() as int % 2) + replay_color(h, 0) + replay_color(h, 1) + BOTTOM
}

proof fn lemma_history_code_facts(h: Seq<u8>)
    requires
        legal_history(h),
    ensures
        history_code(h) < 0x2000000000000,
        code_shape(history_code(h) as u64),
        mirror7(history_code(h) as u64) == mirror7(replay_color(h, h.len() as int % 2)) + mirror7(
            replay_color(h, 0),
        ) + mirror7(replay_color(h, 1)) + BOTTOM,
{
    lemma_history_shape(h);
    let k0 = col_count(h, 0) as u64;
    let k1 = col_count(h, 1) as u64;
    let k2 = col_count(h, 2) as u64;
    let k3 = col_count(h, 3) as u64;
    let k4 = col_count(h, 4) as u64;
    let k5 = col_count(h, 5) as u64;
    let k6 = col_count(h, 6) as u64;
    assert(0 <= col_count(h, 0) <= 6 && 0 <= col_count(h, 1) <= 6 && 0 <= col_count(h, 2) <= 6
        && 0 <= col_count(h, 3) <= 6 && 0 <= col_count(h, 4) <= 6 && 0 <= col_count(h, 5) <= 6
        && 0 <= col_count(h, 6) <= 6);
    let x = replay_color(h, 0);
    let y = replay_color(h, 1);
    let m = replay_color(h, h.len() as int % 2);
    assert(m == x || m == y);
    crate::board::lemma_code_bound(x, y, k0, k1, k2, k3, k4, k5, k6);
    lemma_code_groups(x, y, k0, k1, k2, k3, k4, k5, k6, m);
    lemma_mirror_sum(x, y, k0, k1, k2, k3, k4, k5, k6, m);
    crate::board::lemma_filled_playable(x, y, k0, k1, k2, k3, k4, k5, k6);
    lemma_mirror_small(x);
    lemma_mirror_small(y);
    lemma_mirror_small(m);
}

proof fn lemma_mirror_small(z: u64)
    by (bit_vector)
    ensures
        mirror7(z) < 0x2000000000000u64,
{
}

/// The code of the reflected game is the reflected code.
pub proof fn lemma_mirror_code(h: Seq<u8>)
    requires
        legal_history(h),
    ensures
        history_code(mirror_moves(h)) == mirror_code(history_code(h) as u64),
{
    lemma_mirror_history(h);
    lemma_history_code_facts(h);
    lemma_mirror_unfold(history_code(h) as u64);
    assert(mirror_moves(h).len() == h.len());
}

/// The code of a legal game determines its length and each side's stones.
pub proof fn lemma_history_code_injective(h1: Seq<u8>, h2: Seq<u8>)
    requires
        legal_history(h1),
        legal_history(h2),
        history_code(h1) == history_code(h2),
    ensures
        h1.len() == h2.len(),
        replay_color(h1, 0) == replay_color(h2, 0),
        replay_color(h1, 1) == replay_color(h2, 1),
{
    lemma_history_shape(h1);
    lemma_history_shape(h2);
    crate::board::lemma_disjoint_parts(replay_color(h1, 0), replay_color(h1, 1));
    crate::board::lemma_disjoint_parts(replay_color(h2, 0), replay_color(h2, 1));
    let m1 = replay_color(h1, h1.len() as int % 2);
    let m2 = replay_color(h2, h2.len() as int % 2);
    assert(m1 & !occupied(h1) == 0);
    assert(m2 & !occupied(h2) == 0);
    assert(m1 + occupied(h1) == m2 + occupied(h2));
    assert(0 <= col_count(h1, 0) <= 6 && 0 <= col_count(h1, 1) <= 6 && 0 <= col_count(h1, 2) <= 6
        && 0 <= col_count(h1, 3) <= 6 && 0 <= col_count(h1, 4) <= 6 && 0 <= col_count(h1, 5) <= 6
        && 0 <= col_count(h1, 6) <= 6);
    assert(0 <= col_count(h2, 0) <= 6 && 0 <= col_count(h2, 1) <= 6 && 0 <= col_count(h2, 2) <= 6
        && 0 <= col_count(h2, 3) <= 6 && 0 <= col_count(h2, 4) <= 6 && 0 <= col_count(h2, 5) <= 6
        && 0 <= col_count(h2, 6) <= 6);
    crate::board::lemma_code_columns(
        m1,
        m2,
        col_count(h1, 0) as u64,
        col_count(h1, 1) as u64,
        col_count(h1, 2) as u64,
        col_count(h1, 3) as u64,
        col_count(h1, 4) as u64,
        col_count(h1, 5) as u64,
        col_count(h1, 6) as u64,
        col_count(h2, 0) as u64,
        col_count(h2, 1) as u64,
        col_count(h2, 2) as u64,
        col_count(h2, 3) as u64,
        col_count(h2, 4) as u64,
        col_count(h2, 5) as u64,
        col_count(h2, 6) as u64,
    );
    assert(h1.len() == h2.len());
    assert(occupied(h1) == occupied(h2));
}

} // verus!
