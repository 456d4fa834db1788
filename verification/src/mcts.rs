//! Monte Carlo Tree Search, tree side: expansion, random rollouts to a
//! terminal position, backpropagation and the final move choice. The tree
//! is a flat arena (`Vec<Node>`, indexed by position). Rewards are kept in
//! half-points (2 per win, 1 per draw, 0 per loss), so the win rate of a
//! node is `half_wins / (2 * visits)`.

use vstd::prelude::*;
use rand::RngExt;
use rand::seq::IndexedRandom;
use crate::board::{Board, SIZE, WIDTH, has_four, legal_history, replay_color};

verus! {

#[verifier::external_type_specification]
#[verifier::external_body]
pub struct ExThreadRng(rand::rngs::ThreadRng);

/// Calls `RngExt::random_range(0..n)`, which yields a value in `0..n`
/// (and panics on an empty range, which `n > 0` rules out).
#[verifier::external_body]
fn random_index(rng: &mut rand::rngs::ThreadRng, n: usize) -> (i: usize)
    requires
        n > 0,
    ensures
        i < n,
{
    rng.random_range(0..n)
}

/// Calls `IndexedRandom::choose` on the columns: `None` exactly when there
/// are none, else one of them.
#[verifier::external_body]
fn choose_column(legal: &Vec<usize>, rng: &mut rand::rngs::ThreadRng) -> (c: Option<usize>)
    ensures
        (c is None) == (legal@.len() == 0),
        c matches Some(x) ==> legal@.contains(x),
{
    legal.choose(rng).copied()
}

pub struct Node {
    pub parent: Option<usize>,
    /// The column played to reach this node from its parent; `None` only
    /// for the root, which represents the current actual position.
    pub move_played: Option<usize>,
    /// The side who played `move_played` to reach this node -- i.e. whose
    /// perspective `half_wins` is measured from.
    pub player_just_moved: usize,
    pub children: Vec<usize>,
    /// Columns not yet expanded into a child.
    pub untried: Vec<usize>,
    pub visits: u32,
    /// Accumulated reward for `player_just_moved`, in half-points (2 per
    /// win, 1 per draw, 0 per loss, summed across all rollouts through this
    /// node).
    pub half_wins: u64,
}

/// The columns with room among `0..n`, left to right.
pub open spec fn room_cols(b: Board, n: int) -> Seq<usize>
    decreases n,
{
    if n <= 0 {
        Seq::empty()
    } else {
        room_cols(b, n - 1) + if b.has_room(n - 1) {
            seq![(n - 1) as usize]
        } else {
            Seq::empty()
        }
    }
}

proof fn lemma_room_cols(b: Board, n: int)
    requires
        0 <= n <= 7,
    ensures
        room_cols(b, n).len() <= n,
        forall|k: int|
            0 <= k < room_cols(b, n).len() ==> #[trigger] room_cols(b, n)[k] < n && b.has_room(
                room_cols(b, n)[k] as int,
            ),
        (room_cols(b, n).len() == 0) == (forall|c: int| 0 <= c < n ==> !#[trigger] b.has_room(c)),
    decreases n,
{
    if n > 0 {
        lemma_room_cols(b, n - 1);
        let prev = room_cols(b, n - 1);
        assert forall|k: int| 0 <= k < room_cols(b, n).len() implies #[trigger] room_cols(b, n)[k]
            < n && b.has_room(room_cols(b, n)[k] as int) by {
            if k < prev.len() {
                assert(room_cols(b, n)[k] == prev[k]);
            }
        }
        if room_cols(b, n).len() == 0 {
            assert forall|c: int| 0 <= c < n implies !#[trigger] b.has_room(c) by {
                if c == n - 1 {
                } else {
                    assert(!b.has_room(c));
                }
            }
        }
    }
}

/// The columns of `b` with room for another stone, left to right.
pub fn legal_columns(b: &Board) -> (cols: Vec<usize>)
    requires
        b.wf(),
    ensures
        cols@ == room_cols(*b, 7),
{
    let mut cols: Vec<usize> = Vec::new();
    let mut c = 0usize;
    while c < WIDTH
        invariant
            b.wf(),
            c <= WIDTH,
            cols@ == room_cols(*b, c as int),
        decreases WIDTH - c,
    {
        proof {
            crate::board::lemma_open_column(*b, c as int);
        }
        if b.is_playable(c) {
            cols.push(c);
        }
        proof {
            assert(cols@ =~= room_cols(*b, c + 1));
        }
        c += 1;
    }
    cols
}

/// The move a search from `b` need not be run for: `Some(None)` on a full
/// board, `Some(Some(c))` when `c` is the only column with room, and
/// `None` when there is a choice to search.
pub fn forced_root_move(b: &Board) -> (r: Option<Option<usize>>)
    requires
        b.wf(),
    ensures
        room_cols(*b, 7).len() == 0 ==> r == Some(None::<usize>),
        room_cols(*b, 7).len() == 1 ==> r == Some(Some(room_cols(*b, 7)[0])),
        room_cols(*b, 7).len() > 1 ==> r is None,
{
    let legal = legal_columns(b);
    if legal.len() == 0 {
        Some(None)
    } else if legal.len() == 1 {
        Some(Some(legal[0]))
    } else {
        None
    }
}

/// The player who made the last of the moves `s`.
pub open spec fn last_mover(s: Seq<u8>) -> int {
    (s.len() as int - 1) % 2
}

/// The game after the moves `s` is over: the last mover has four in a row,
/// or the board is full.
pub open spec fn game_over(s: Seq<u8>) -> bool {
    s.len() > 0 && (has_four(replay_color(s, last_mover(s))) || s.len() >= SIZE)
}

/// The winner of a finished game, or `None` for a draw.
pub open spec fn outcome(s: Seq<u8>) -> Option<usize> {
    if has_four(replay_color(s, last_mover(s))) {
        Some(last_mover(s) as usize)
    } else {
        None
    }
}

/// `s` continues `h` by legal moves up to the first finished position
/// after `h`.
pub open spec fn finishes(h: Seq<u8>, s: Seq<u8>) -> bool {
    &&& legal_history(s)
    &&& h.len() < s.len()
    &&& s.take(h.len() as int) == h
    &&& game_over(s)
    &&& forall|k: int| h.len() < k < s.len() ==> !#[trigger] game_over(s.take(k))
}

/// Play uniformly random legal moves from `b` until the game ends.
/// Returns the winning side, or `None` for a draw.
pub fn rollout(start: Board, rng: &mut rand::rngs::ThreadRng) -> (winner: Option<usize>)
    requires
        start.wf(),
    ensures
        start.nplies == SIZE ==> winner is None,
        start.nplies < SIZE ==> exists|s: Seq<u8>| #[trigger] finishes(start.history(), s) && winner == outcome(s),
{
    let ghost h = start.history();
    let ghost n0 = start.nplies;
    proof {
        assert(h.len() == n0);
    }
    let mut b = start;
    loop
        invariant
            b.wf(),
            h == start.history(),
            n0 == start.nplies,
            h.len() == n0,
            h.len() <= b.history().len(),
            b.history().take(h.len() as int) == h,
            b.history().len() == h.len() ==> b.history() == h,
            h.len() < b.history().len() ==> !game_over(b.history()),
            forall|k: int| h.len() < k < b.history().len() ==> !#[trigger] game_over(b.history().take(k)),
        decreases SIZE - b.nplies,
    {
        let mover = b.side();
        let legal = legal_columns(&b);
        proof {
            lemma_room_cols(b, 7);
            b.lemma_shape();
        }
        let mv = match choose_column(&legal, rng) {
            Some(mv) => mv,
            None => {
                // no legal moves left: draw
                proof {
                    assert(b.nplies == SIZE) by {
                        assert(!b.has_room(0) && !b.has_room(1) && !b.has_room(2) && !b.has_room(3)
                            && !b.has_room(4) && !b.has_room(5) && !b.has_room(6));
                    }
                }
                proof {
                    if h.len() < b.history().len() {
                        assert(game_over(b.history()));
                    }
                }
                return None;
            },
        };
        proof {
            let k = choose|k: int| 0 <= k < legal@.len() && legal@[k] == mv;
            assert(b.has_room(mv as int));
            assert(0 <= b.stones_in(0) <= 6 && 0 <= b.stones_in(1) <= 6 && 0 <= b.stones_in(2) <= 6
                && 0 <= b.stones_in(3) <= 6 && 0 <= b.stones_in(4) <= 6 && 0 <= b.stones_in(5) <= 6
                && 0 <= b.stones_in(6) <= 6);
            assert(b.nplies < SIZE);
        }
        let ghost before = b;
        b.make_move(mv);
        proof {
            let s = b.history();
            assert(s.take(h.len() as int) =~= h);
            assert(s.take(before.history().len() as int) =~= before.history());
            assert(last_mover(s) == mover);
            assert forall|k: int| h.len() < k < s.len() implies !#[trigger] game_over(s.take(k)) by {
                assert(s.take(k) =~= before.history().take(k));
            }
        }
        if Board::has_won(b.color[mover]) {
            proof {
                assert(finishes(h, b.history()));
                assert(outcome(b.history()) == Some(mover));
            }
            return Some(mover);
        }
        if b.nplies == SIZE {
            proof {
                assert(finishes(h, b.history()));
                assert(outcome(b.history()) == None::<usize>);
            }
            return None;
        }
    }
}

/// Reward, in half-points, of a game won by `winner` (`None`: a draw) for
/// `side`.
pub open spec fn reward_spec(winner: Option<usize>, side: usize) -> u64 {
    match winner {
        Some(w) => if w == side {
            2
        } else {
            0
        },
        None => 1,
    }
}

fn reward(winner: Option<usize>, side: usize) -> (r: u64)
    ensures
        r == reward_spec(winner, side),
{
    match winner {
        Some(w) => if w == side {
            2
        } else {
            0
        },
        None => 1,
    }
}

/// Every parent link points to an earlier node, every child index is in
/// range, and the players and moves are real ones.
pub open spec fn tree_wf(arena: Seq<Node>) -> bool {
    forall|i: int|
        0 <= i < arena.len() ==> {
            &&& (#[trigger] arena[i].parent matches Some(p) ==> p < i)
            &&& arena[i].player_just_moved < 2
            &&& (arena[i].move_played matches Some(m) ==> m < WIDTH)
            &&& forall|k: int|
                0 <= k < arena[i].children@.len() ==> #[trigger] arena[i].children@[k] < arena.len()
        }
}

proof fn lemma_tree_node(arena: Seq<Node>, i: int)
    requires
        tree_wf(arena),
        0 <= i < arena.len(),
    ensures
        arena[i].parent matches Some(p) ==> p < i,
        arena[i].player_just_moved < 2,
        arena[i].move_played matches Some(m) ==> m < WIDTH,
        forall|k: int| 0 <= k < arena[i].children@.len() ==> #[trigger] arena[i].children@[k] < arena.len(),
{
    assert(arena[i].parent == arena[i].parent);
}

/// Node `i` lies on the path from `leaf` up to the root.
pub open spec fn on_path(arena: Seq<Node>, leaf: int, i: int) -> bool
    decreases leaf,
{
    if leaf < 0 || leaf >= arena.len() {
        false
    } else if i == leaf {
        true
    } else {
        match arena[leaf].parent {
            Some(p) => if p < leaf {
                on_path(arena, p as int, i)
            } else {
                false
            },
            None => false,
        }
    }
}

proof fn lemma_on_path_le(arena: Seq<Node>, leaf: int, i: int)
    requires
        on_path(arena, leaf, i),
    ensures
        i <= leaf,
    decreases leaf,
{
    if i != leaf {
        match arena[leaf].parent {
            Some(p) => {
                lemma_on_path_le(arena, p as int, i);
            },
            None => {},
        }
    }
}

/// Count one more visit, and the reward for `result`, at every node from
/// `leaf` up to the root (the root itself has no mover and gets no reward).
pub fn backpropagate(arena: &mut Vec<Node>, leaf: usize, result: Option<usize>)
    requires
        tree_wf(old(arena)@),
        leaf < old(arena).len(),
    ensures
        final(arena).len() == old(arena).len(),
        tree_wf(final(arena)@),
        forall|i: int|
            0 <= i < final(arena).len() ==> {
                let o = #[trigger] old(arena)@[i];
                let n = final(arena)@[i];
                &&& n.parent == o.parent
                &&& n.move_played == o.move_played
                &&& n.player_just_moved == o.player_just_moved
                &&& n.children == o.children
                &&& n.untried == o.untried
                &&& n.visits == if on_path(old(arena)@, leaf as int, i) {
                    o.visits.wrapping_add(1)
                } else {
                    o.visits
                }
                &&& n.half_wins == if on_path(old(arena)@, leaf as int, i) && o.move_played is Some {
                    o.half_wins.wrapping_add(reward_spec(result, o.player_just_moved))
                } else {
                    o.half_wins
                }
            },
{
    let ghost a0 = arena@;
    let mut idx = leaf;
    loop
        invariant_except_break
            forall|i: int|
                0 <= i < arena.len() ==> {
                    let o = #[trigger] a0[i];
                    let n = arena@[i];
                    &&& n.parent == o.parent
                    &&& n.move_played == o.move_played
                    &&& n.player_just_moved == o.player_just_moved
                    &&& n.children == o.children
                    &&& n.untried == o.untried
                    &&& n.visits == if on_path(a0, leaf as int, i) && !on_path(a0, idx as int, i) {
                        o.visits.wrapping_add(1)
                    } else {
                        o.visits
                    }
                    &&& n.half_wins == if on_path(a0, leaf as int, i) && !on_path(a0, idx as int, i)
                        && o.move_played is Some {
                        o.half_wins.wrapping_add(reward_spec(result, o.player_just_moved))
                    } else {
                        o.half_wins
                    }
                },
        invariant
            arena.len() == a0.len(),
            tree_wf(a0),
            idx < a0.len(),
            forall|i: int| 0 <= i < a0.len() && on_path(a0, idx as int, i) ==> on_path(a0, leaf as int, i),
        ensures
            arena.len() == a0.len(),
            forall|i: int|
                0 <= i < arena.len() ==> {
                    let o = #[trigger] a0[i];
                    let n = arena@[i];
                    &&& n.parent == o.parent
                    &&& n.move_played == o.move_played
                    &&& n.player_just_moved == o.player_just_moved
                    &&& n.children == o.children
                    &&& n.untried == o.untried
                    &&& n.visits == if on_path(a0, leaf as int, i) {
                        o.visits.wrapping_add(1)
                    } else {
                        o.visits
                    }
                    &&& n.half_wins == if on_path(a0, leaf as int, i) && o.move_played is Some {
                        o.half_wins.wrapping_add(reward_spec(result, o.player_just_moved))
                    } else {
                        o.half_wins
                    }
                },
        decreases idx,
    {
        let ghost before = arena@;
        arena[idx].visits = arena[idx].visits.wrapping_add(1);
        if arena[idx].move_played.is_some() {
            let r = reward(result, arena[idx].player_just_moved);
            arena[idx].half_wins = arena[idx].half_wins.wrapping_add(r);
        }
        match arena[idx].parent {
            Some(p) => {
                proof {
                    assert(tree_wf(a0));
                    assert(a0[idx as int].parent == Some(p));
                    assert(p < idx);
                    assert forall|i: int| 0 <= i < a0.len() implies on_path(a0, idx as int, i) == (i
                        == idx || on_path(a0, p as int, i)) by {
                    }
                    if on_path(a0, p as int, idx as int) {
                        lemma_on_path_le(a0, p as int, idx as int);
                    }
                }
                idx = p;
            },
            None => {
                proof {
                    assert forall|i: int| 0 <= i < a0.len() implies on_path(a0, idx as int, i) == (i
                        == idx) by {
                    }
                }
                break;
            },
        }
    }
    proof {
        assert forall|i: int| 0 <= i < arena@.len() implies {
            &&& (#[trigger] arena@[i].parent matches Some(p) ==> p < i)
            &&& arena@[i].player_just_moved < 2
            &&& (arena@[i].move_played matches Some(m) ==> m < WIDTH)
            &&& forall|k: int|
                0 <= k < arena@[i].children@.len() ==> #[trigger] arena@[i].children@[k] < arena@.len()
        } by {
            assert(a0[i].children == arena@[i].children);
        }
    }
}

/// Two arenas that agree on the parent links of nodes `0..=leaf` have the
/// same path from `leaf` up to the root.
proof fn lemma_on_path_frame(a: Seq<Node>, b: Seq<Node>, leaf: int, i: int)
    requires
        0 <= leaf < a.len(),
        leaf < b.len(),
        forall|j: int| 0 <= j <= leaf ==> #[trigger] a[j].parent == b[j].parent,
    ensures
        on_path(a, leaf, i) == on_path(b, leaf, i),
    decreases leaf,
{
    if i != leaf {
        assert(a[leaf].parent == b[leaf].parent);
        match a[leaf].parent {
            Some(p) => {
                if p < leaf {
                    lemma_on_path_frame(a, b, p as int, i);
                }
            },
            None => {},
        }
    }
}

/// `new` is `old` after one playout whose result `w` was backed up from
/// node `node` to the root: every node on that path counts one more visit
/// and (unless it is the root) the reward of `w` for its mover; links,
/// moves and movers stay; children and untried columns stay except at
/// `node`.
pub open spec fn backed_up(old: Seq<Node>, new: Seq<Node>, node: int, w: Option<usize>) -> bool {
    forall|i: int|
        0 <= i < old.len() ==> {
            let o = #[trigger] old[i];
            let n = new[i];
            &&& n.parent == o.parent
            &&& n.move_played == o.move_played
            &&& n.player_just_moved == o.player_just_moved
            &&& (i != node ==> n.children == o.children && n.untried == o.untried)
            &&& n.visits == if on_path(old, node, i) {
                o.visits.wrapping_add(1)
            } else {
                o.visits
            }
            &&& n.half_wins == if on_path(old, node, i) && o.move_played is Some {
                o.half_wins.wrapping_add(reward_spec(w, o.player_just_moved))
            } else {
                o.half_wins
            }
        }
}

/// The result already known at node `i` with board `b` (see `decided`):
/// its mover won, or (a full board) a draw.
pub open spec fn decided_result(arena: Seq<Node>, i: int, b: Board) -> Option<usize> {
    if has_four(b.color[arena[i].player_just_moved as int]) {
        Some(arena[i].player_just_moved)
    } else {
        None
    }
}

/// `w` is how the game after the moves `h` ended for a playout: the last
/// mover `side` if that move made four in a row, a draw if it filled the
/// board, else the result of some legal continuation to the end of the game.
pub open spec fn playout_outcome(h: Seq<u8>, side: int, w: Option<usize>) -> bool {
    if has_four(replay_color(h, side)) {
        w == Some(side as usize)
    } else if h.len() >= SIZE {
        w is None
    } else {
        exists|s: Seq<u8>| #[trigger] finishes(h, s) && w == outcome(s)
    }
}

/// Column `x` is accounted for at node `i`: still untried there, or the
/// move of one of its children.
pub open spec fn moves_of(arena: Seq<Node>, i: int, x: usize) -> bool {
    arena[i].untried@.contains(x) || exists|k: int|
        0 <= k < arena[i].children@.len() && arena[#[trigger] arena[i].children@[k] as int].move_played
            == Some(x)
}

/// Node `i`, whose position is `b`, accounts exactly for the columns with
/// room: its untried columns and its children's moves are those columns.
pub open spec fn covers(arena: Seq<Node>, i: int, b: Board) -> bool {
    forall|x: usize| #[trigger] moves_of(arena, i, x) <==> (x < 7 && b.has_room(x as int))
}

proof fn lemma_room_cols_contains(b: Board, n: int, x: usize)
    requires
        0 <= n <= 7,
    ensures
        room_cols(b, n).contains(x) <==> (x < n && b.has_room(x as int)),
    decreases n,
{
    lemma_room_cols(b, n);
    if n > 0 {
        lemma_room_cols_contains(b, n - 1, x);
        let prev = room_cols(b, n - 1);
        if prev.contains(x) {
            let k = choose|k: int| 0 <= k < prev.len() && prev[k] == x;
            assert(room_cols(b, n)[k] == prev[k]);
        }
        if x == n - 1 && b.has_room(x as int) {
            assert(room_cols(b, n)[prev.len() as int] == x);
        }
        if room_cols(b, n).contains(x) {
            let k = choose|k: int| 0 <= k < room_cols(b, n).len() && room_cols(b, n)[k] == x;
            if k < prev.len() {
                assert(room_cols(b, n)[k] == prev[k]);
            }
        }
    }
}

proof fn lemma_swap_remove_contains(u: Seq<usize>, i0: int, x: usize)
    requires
        0 <= i0 < u.len(),
    ensures
        u.update(i0, u.last()).drop_last().contains(x) || x == u[i0] <==> u.contains(x),
{
    let v = u.update(i0, u.last()).drop_last();
    if v.contains(x) {
        let k = choose|k: int| 0 <= k < v.len() && v[k] == x;
        if k == i0 {
            assert(u[u.len() - 1] == x);
        } else {
            assert(u[k] == x);
        }
    }
    if u.contains(x) && x != u[i0] {
        let k = choose|k: int| 0 <= k < u.len() && u[k] == x;
        if k == u.len() - 1 {
            if i0 < u.len() - 1 {
                assert(v[i0] == x);
            }
        } else {
            assert(k != i0);
            assert(v[k] == x);
        }
    }
    if x == u[i0] {
        assert(u.contains(x));
    }
}

/// The untried columns of node `i` all have room on `b`.
pub open spec fn untried_playable(arena: Seq<Node>, i: int, b: Board) -> bool {
    forall|k: int|
        0 <= k < arena[i].untried@.len() ==> #[trigger] arena[i].untried@[k] < WIDTH && b.has_room(
            arena[i].untried@[k] as int,
        )
}

/// The move that reached node `i` already ended the game on `b`: its mover
/// has four in a row, or the board is full. The root is never decided.
pub open spec fn decided(arena: Seq<Node>, i: int, b: Board) -> bool {
    arena[i].move_played is Some && (has_four(b.color[arena[i].player_just_moved as int])
        || b.nplies == SIZE)
}

/// A playout can be finished at node `i` with the board `b` of its
/// position: its untried columns are playable there, and unless the game is
/// already decided, one is left to expand.
pub open spec fn finishable(arena: Seq<Node>, i: int, b: Board) -> bool {
    &&& b.wf()
    &&& 0 <= i < arena.len()
    &&& untried_playable(arena, i, b)
    &&& (decided(arena, i, b) || arena[i].untried@.len() > 0)
}

/// Tests `finishable`.
pub fn can_finish(arena: &Vec<Node>, node_idx: usize, b: &Board) -> (ok: bool)
    requires
        tree_wf(arena@),
        b.wf(),
    ensures
        ok == finishable(arena@, node_idx as int, *b),
{
    if node_idx >= arena.len() {
        return false;
    }
    let untried = &arena[node_idx].untried;
    let mut k = 0usize;
    while k < untried.len()
        invariant
            b.wf(),
            k <= untried@.len(),
            node_idx < arena@.len(),
            *untried == arena@[node_idx as int].untried,
            forall|j: int|
                0 <= j < k ==> #[trigger] untried@[j] < WIDTH && b.has_room(untried@[j] as int),
        decreases untried@.len() - k,
    {
        let c = untried[k];
        if c >= WIDTH {
            return false;
        }
        proof {
            crate::board::lemma_open_column(*b, c as int);
        }
        if !b.is_playable(c) {
            return false;
        }
        k += 1;
    }
    proof {
        lemma_tree_node(arena@, node_idx as int);
    }
    let decided_now = match arena[node_idx].move_played {
        Some(_) => {
            let pjm = arena[node_idx].player_just_moved;
            Board::has_won(b.color[pjm]) || b.nplies == SIZE
        },
        None => false,
    };
    decided_now || arena[node_idx].untried.len() > 0
}

/// Expand node `node_idx` (whose position is `b`) by one of its untried
/// columns, chosen at random, returning the new child and its position.
fn expand(arena: &mut Vec<Node>, node_idx: usize, b: Board, rng: &mut rand::rngs::ThreadRng) -> (r: (
    usize,
    Board,
))
    requires
        tree_wf(old(arena)@),
        finishable(old(arena)@, node_idx as int, b),
        old(arena)@[node_idx as int].untried@.len() > 0,
        old(arena).len() < usize::MAX,
    ensures
        tree_wf(final(arena)@),
        final(arena).len() == old(arena).len() + 1,
        r.0 == old(arena).len(),
        r.1.wf(),
        final(arena)@[r.0 as int].parent == Some(node_idx),
        exists|i0: int|
            #![trigger old(arena)@[node_idx as int].untried@[i0]]
            0 <= i0 < old(arena)@[node_idx as int].untried@.len()
                && final(arena)@[r.0 as int].move_played == Some(old(arena)@[node_idx as int].untried@[i0])
                && final(arena)@[node_idx as int].untried@ == old(arena)@[node_idx as int].untried@.update(
                i0,
                old(arena)@[node_idx as int].untried@.last(),
            ).drop_last() && Board::made_move(b, r.1, old(arena)@[node_idx as int].untried@[i0] as int),
        final(arena)@[node_idx as int].children@ == old(arena)@[node_idx as int].children@.push(r.0),
        forall|j: int|
            0 <= j < old(arena).len() ==> {
                let o = #[trigger] old(arena)@[j];
                let n = final(arena)@[j];
                &&& n.parent == o.parent
                &&& n.move_played == o.move_played
                &&& n.player_just_moved == o.player_just_moved
                &&& n.visits == o.visits
                &&& n.half_wins == o.half_wins
                &&& (j != node_idx ==> n.children == o.children && n.untried == o.untried)
            },
        final(arena)@[r.0 as int].player_just_moved == b.spec_side(),
        final(arena)@[r.0 as int].untried@ == room_cols(r.1, 7),
        final(arena)@[r.0 as int].children@.len() == 0,
        final(arena)@[r.0 as int].visits == 0,
        final(arena)@[r.0 as int].half_wins == 0,
{
    let ghost a0 = arena@;
    let n = arena[node_idx].untried.len();
    let i = random_index(rng, n);
    let mv = arena[node_idx].untried.swap_remove(i);
    proof {
        assert(a0[node_idx as int].untried@[i as int] == mv);
        assert(mv < WIDTH && b.has_room(mv as int));
    }
    let mover = b.side();
    let mut b = b;
    b.make_move(mv);
    let child_legal = legal_columns(&b);
    let child_idx = arena.len();
    arena.push(
        Node {
            parent: Some(node_idx),
            move_played: Some(mv),
            player_just_moved: mover,
            children: Vec::new(),
            untried: child_legal,
            visits: 0,
            half_wins: 0,
        },
    );
    arena[node_idx].children.push(child_idx);
    proof {
        assert forall|j: int| 0 <= j < arena@.len() implies {
            &&& (#[trigger] arena@[j].parent matches Some(p) ==> p < j)
            &&& arena@[j].player_just_moved < 2
            &&& (arena@[j].move_played matches Some(m) ==> m < WIDTH)
            &&& forall|k: int|
                0 <= k < arena@[j].children@.len() ==> #[trigger] arena@[j].children@[k] < arena@.len()
        } by {
            if j < a0.len() {
                assert(tree_wf(a0));
                if j != node_idx {
                    assert(arena@[j] == a0[j]);
                } else {
                    assert forall|k: int| 0 <= k < arena@[j].children@.len() implies #[trigger] arena@[j].children@[k]
                        < arena@.len() by {
                        if k < a0[j].children@.len() {
                            assert(arena@[j].children@[k] == a0[j].children@[k]);
                        }
                    }
                }
            }
        }
        assert(arena@[node_idx as int].untried@ == a0[node_idx as int].untried@.update(
            i as int,
            a0[node_idx as int].untried@.last(),
        ).drop_last());
        assert(a0[node_idx as int].untried@[i as int] == mv);
    }
    (child_idx, b)
}

/// The rest of one selection/expansion/simulation/backpropagation cycle,
/// once selection has reached `node_idx` with `b` its position: settle the
/// result (known if the game already ended there, else expand one untried
/// column and roll out from it), then backpropagate it.
pub fn finish_playout(arena: &mut Vec<Node>, node_idx: usize, b: Board, rng: &mut rand::rngs::ThreadRng)
    requires
        tree_wf(old(arena)@),
        finishable(old(arena)@, node_idx as int, b),
        old(arena).len() < usize::MAX,
    ensures
        tree_wf(final(arena)@),
        decided(old(arena)@, node_idx as int, b) ==> {
            &&& final(arena).len() == old(arena).len()
            &&& backed_up(
                old(arena)@,
                final(arena)@,
                node_idx as int,
                decided_result(old(arena)@, node_idx as int, b),
            )
            &&& final(arena)@[node_idx as int].children == old(arena)@[node_idx as int].children
            &&& final(arena)@[node_idx as int].untried == old(arena)@[node_idx as int].untried
            &&& forall|i: int, x: usize|
                0 <= i < old(arena).len() ==> (#[trigger] moves_of(final(arena)@, i, x) <==> moves_of(
                    old(arena)@,
                    i,
                    x,
                ))
        },
        !decided(old(arena)@, node_idx as int, b) ==> {
            let c = old(arena).len() as int;
            let u = old(arena)@[node_idx as int].untried@;
            &&& final(arena).len() == c + 1
            &&& final(arena)@[c].parent == Some(node_idx)
            &&& final(arena)@[c].player_just_moved == b.spec_side()
            &&& final(arena)@[c].children@.len() == 0
            &&& final(arena)@[c].visits == 1
            &&& final(arena)@[node_idx as int].children@ == old(arena)@[node_idx as int].children@.push(
                c as usize,
            )
            &&& exists|i0: int|
                #![trigger u[i0]]
                0 <= i0 < u.len() && final(arena)@[c].move_played == Some(u[i0])
                    && final(arena)@[node_idx as int].untried@ == u.update(i0, u.last()).drop_last()
            &&& exists|nb: Board|
                #[trigger] Board::made_move(b, nb, (final(arena)@[c].move_played->0) as int) && nb.wf()
                    && final(arena)@[c].untried@ == room_cols(nb, 7)
            &&& forall|i: int, x: usize|
                0 <= i < c ==> (#[trigger] moves_of(final(arena)@, i, x) <==> moves_of(old(arena)@, i, x))
            &&& forall|nb: Board|
                #[trigger] Board::made_move(b, nb, (final(arena)@[c].move_played->0) as int) && nb.wf()
                    ==> covers(final(arena)@, c, nb)
            &&& exists|w: Option<usize>|
                #[trigger] backed_up(old(arena)@, final(arena)@, node_idx as int, w)
                    && final(arena)@[c].half_wins == reward_spec(w, b.spec_side() as usize)
                    && playout_outcome(
                    b.history().push((final(arena)@[c].move_played->0) as u8),
                    b.spec_side(),
                    w,
                )
        },
{
    // If the move that reached this node already ended the game, no
    // expansion or rollout is needed -- the outcome is already known.
    proof {
        lemma_tree_node(arena@, node_idx as int);
    }
    let already_decided: Option<Option<usize>> = match arena[node_idx].move_played {
        Some(_) => {
            let pjm = arena[node_idx].player_just_moved;
            if Board::has_won(b.color[pjm]) {
                Some(Some(pjm))
            } else if b.nplies == SIZE {
                Some(None)
            } else {
                None
            }
        },
        None => None,
    };
    let ghost a0 = arena@;
    match already_decided {
        Some(known) => {
            backpropagate(arena, node_idx, known);
            proof {
                let fin = arena@;
                assert forall|i: int, x: usize|
                    0 <= i < a0.len() implies (#[trigger] moves_of(fin, i, x) <==> moves_of(a0, i, x)) by {
                    assert(tree_wf(a0));
                    assert(a0[i].parent == a0[i].parent);
                    assert(fin[i].untried == a0[i].untried);
                    assert(fin[i].children == a0[i].children);
                    assert forall|k: int| 0 <= k < fin[i].children@.len() implies fin[#[trigger] fin[i].children@[k] as int].move_played
                        == a0[a0[i].children@[k] as int].move_played by {
                        assert(a0[i].children@[k] < a0.len());
                    }
                }
            }
        },
        None => {
            let mover = b.side();
            let (child_idx, nb) = expand(arena, node_idx, b, rng);
            let ghost a1 = arena@;
            // If the new node itself is already terminal, use that;
            // otherwise roll out with random play.
            let result = if Board::has_won(nb.color[mover]) {
                Some(mover)
            } else if nb.nplies == SIZE {
                None
            } else {
                rollout(nb, rng)
            };
            backpropagate(arena, child_idx, result);
            proof {
                assert(nb.history().len() == nb.nplies);
                assert(playout_outcome(nb.history(), mover as int, result));
                assert forall|i: int| 0 <= i < a0.len() implies on_path(a1, child_idx as int, i)
                    == on_path(a0, node_idx as int, i) by {
                    assert forall|j: int| 0 <= j <= node_idx implies #[trigger] a1[j].parent
                        == a0[j].parent by {
                        assert(a0[j] == a0[j]);
                    }
                    lemma_on_path_frame(a1, a0, node_idx as int, i);
                }
                assert(backed_up(a0, arena@, node_idx as int, result));
                assert(arena@[child_idx as int].untried == a1[child_idx as int].untried);
                assert(Board::made_move(b, nb, (arena@[child_idx as int].move_played->0) as int));
                let fin = arena@;
                let u = a0[node_idx as int].untried@;
                let i0 = choose|i0: int|
                    #![trigger u[i0]]
                    0 <= i0 < u.len() && a1[child_idx as int].move_played == Some(u[i0])
                        && a1[node_idx as int].untried@ == u.update(i0, u.last()).drop_last();
                let mv = u[i0];
                assert forall|i: int, x: usize|
                    0 <= i < child_idx as int implies (#[trigger] moves_of(fin, i, x) <==> moves_of(a0, i, x)) by {
                    assert(tree_wf(a0));
                    assert(a0[i].parent == a0[i].parent);
                    if i != node_idx as int {
                        assert(fin[i].untried == a0[i].untried);
                        assert(fin[i].children == a0[i].children);
                        assert forall|k: int| 0 <= k < fin[i].children@.len() implies fin[#[trigger] fin[i].children@[k] as int].move_played
                            == a0[a0[i].children@[k] as int].move_played by {
                            assert(a0[i].children@[k] < a0.len());
                        }
                    } else {
                        lemma_swap_remove_contains(u, i0, x);
                        assert(fin[i].untried@ == u.update(i0, u.last()).drop_last());
                        assert(fin[i].children@ == a0[i].children@.push(child_idx));
                        assert forall|k: int| 0 <= k < a0[i].children@.len() implies fin[#[trigger] fin[i].children@[k] as int].move_played
                            == a0[a0[i].children@[k] as int].move_played by {
                            assert(a0[i].children@[k] < a0.len());
                            assert(fin[i].children@[k] == a0[i].children@[k]);
                        }
                        let n = a0[i].children@.len() as int;
                        assert(fin[i].children@[n] == child_idx);
                        if moves_of(fin, i, x) && !fin[i].untried@.contains(x) {
                            let k = choose|k: int|
                                0 <= k < fin[i].children@.len() && fin[#[trigger] fin[i].children@[k] as int].move_played
                                    == Some(x);
                            if k < n {
                                assert(a0[a0[i].children@[k] as int].move_played == Some(x));
                            }
                        }
                        if moves_of(a0, i, x) && !a0[i].untried@.contains(x) {
                            let k = choose|k: int|
                                0 <= k < a0[i].children@.len() && a0[#[trigger] a0[i].children@[k] as int].move_played
                                    == Some(x);
                            assert(fin[fin[i].children@[k] as int].move_played == Some(x));
                        }
                        if x == mv {
                            assert(fin[fin[i].children@[n] as int].move_played == Some(x));
                        }
                    }
                }
                assert forall|nb2: Board|
                    #[trigger] Board::made_move(b, nb2, (fin[child_idx as int].move_played->0) as int) && nb2.wf()
                        implies covers(fin, child_idx as int, nb2) by {
                    assert forall|x: usize| #[trigger] moves_of(fin, child_idx as int, x) <==> (x < 7
                        && nb2.has_room(x as int)) by {
                        lemma_room_cols_contains(nb, 7, x);
                        if x < 7 {
                            assert(nb2.height[x as int] == nb.height[x as int]);
                        }
                    }
                }
            }
        },
    }
}

/// The move of the root child with the most visits (the last one among
/// equals), or `None` if the root has no children.
pub fn most_visited_move(arena: &Vec<Node>) -> (mv: Option<usize>)
    requires
        tree_wf(arena@),
        arena.len() > 0,
    ensures
        arena@[0].children@.len() == 0 ==> mv is None,
        arena@[0].children@.len() > 0 ==> exists|j: int|
            0 <= j < arena@[0].children@.len() && mv == arena@[arena@[0].children@[j] as int].move_played
                && (forall|k: int|
                0 <= k < arena@[0].children@.len() ==> #[trigger] arena@[arena@[0].children@[k] as int].visits
                    <= arena@[arena@[0].children@[j] as int].visits) && (forall|k: int|
                j < k < arena@[0].children@.len() ==> #[trigger] arena@[arena@[0].children@[k] as int].visits
                    < arena@[arena@[0].children@[j] as int].visits),
{
    let children = &arena[0].children;
    if children.len() == 0 {
        return None;
    }
    proof {
        lemma_tree_node(arena@, 0);
    }
    let mut best = children[0];
    let mut bj: usize = 0;
    let mut k = 1usize;
    while k < children.len()
        invariant
            tree_wf(arena@),
            *children == arena@[0].children,
            children@.len() > 0,
            1 <= k <= children@.len(),
            bj < k,
            best == children@[bj as int],
            best < arena@.len(),
            forall|m: int| 0 <= m < children@.len() ==> #[trigger] children@[m] < arena@.len(),
            forall|m: int| 0 <= m < k ==> #[trigger] arena@[children@[m] as int].visits <= arena@[best as int].visits,
            forall|m: int| bj < m < k ==> #[trigger] arena@[children@[m] as int].visits < arena@[best as int].visits,
        decreases children@.len() - k,
    {
        let c = children[k];
        if arena[c].visits >= arena[best].visits {
            best = c;
            bj = k;
        }
        k += 1;
    }
    arena[best].move_played
}

} // verus!
