//! Transposition table.
//!
//! Each 64-bit slot holds two candidate entries for the same bucket:
//! a "big" entry (kept when it represents at least as much search work as
//! whatever's already stored, or is an exact match for the same position)
//! and a "new" entry (always overwritten on a miss, cheap fallback storage).
//!
//! Bit layout per slot (64 bits total):
//!
//!   bits  0..26  new_lock   (26 bits)
//!   bits 26..29  new_score  (3 bits)
//!   bits 29..32  big_score  (3 bits)
//!   bits 32..58  big_lock   (26 bits)
//!   bits 58..64  big_work   (6 bits)

use vstd::prelude::*;
use crate::board::{Board, H1, SIZE1};

verus! {

pub const LOCKSIZE: u32 = 26;

const LOCK_MASK: u64 = 0x3ff_ffff;

/// Width of the new_lock + new_score region.
const NEWSIZE: u32 = 29;

const SCORE_MASK: u64 = 0x7;

const NEW_MASK: u64 = 0x1fff_ffff;

const BIG_MASK: u64 = 0xffff_ffff_e000_0000;

/// Number of opening plies for which column-mirror symmetry is checked
/// when hashing.
pub const SYMMREC: usize = 10;

pub const UNKNOWN: i32 = 0;

pub const LOSS: i32 = 1;

pub const DRAWLOSS: i32 = 2;

pub const DRAW: i32 = 3;

pub const DRAWWIN: i32 = 4;

pub const WIN: i32 = 5;

pub const LOSSWIN: i32 = 6;

pub open spec fn spec_big_work(x: u64) -> u32 {
    (x >> 58u64) as u32
}

pub open spec fn spec_big_lock(x: u64) -> u64 {
    (x >> 32u64) & 0x3ff_ffffu64
}

pub open spec fn spec_big_score(x: u64) -> i32 {
    ((x >> 29u64) & 7u64) as i32
}

pub open spec fn spec_new_lock(x: u64) -> u64 {
    x & 0x3ff_ffffu64
}

pub open spec fn spec_new_score(x: u64) -> i32 {
    ((x >> 26u64) & 7u64) as i32
}

/// The score a slot answers for `lock`: the big entry's if its lock
/// matches, else the new entry's if that matches, else UNKNOWN.
pub open spec fn slot_lookup(he: u64, lock: u64) -> i32 {
    if lock == spec_big_lock(he) {
        spec_big_score(he)
    } else if lock == spec_new_lock(he) {
        spec_new_score(he)
    } else {
        UNKNOWN
    }
}

/// Whether storing (`lock`, `work`) over the slot `he` goes to the big entry.
pub open spec fn goes_big(he: u64, lock: u64, work: u32) -> bool {
    lock == spec_big_lock(he) || work >= spec_big_work(he)
}

/// The slot word after storing `score` for `lock` with `work` into `he`.
pub open spec fn slot_store(he: u64, lock: u64, score: i32, work: u32) -> u64 {
    if goes_big(he, lock, work) {
        ((((((work as u64) << 26u64) | lock) << 3u64) | (score as u64)) << 29u64) | (he
            & 0x1fff_ffffu64)
    } else {
        (he & 0xffff_ffff_e000_0000u64) | ((score as u64) << 26u64) | lock
    }
}

/// Both score fields of the slot hold a real score (at most WIN).
pub open spec fn slot_ok(he: u64) -> bool {
    spec_big_score(he) <= WIN && spec_new_score(he) <= WIN
}

proof fn lemma_fields_big(he: u64, lock: u64, s: u64, work: u64)
    by (bit_vector)
    requires
        lock < 0x400_0000,
        s < 8,
        work < 64,
    ensures
        ((((((work << 26u64) | lock) << 3u64) | s) << 29u64) | (he & 0x1fff_ffffu64)) >> 58u64
            == work,
        ((((((((work << 26u64) | lock) << 3u64) | s) << 29u64) | (he & 0x1fff_ffffu64)) >> 32u64)
            & 0x3ff_ffffu64) == lock,
        ((((((((work << 26u64) | lock) << 3u64) | s) << 29u64) | (he & 0x1fff_ffffu64)) >> 29u64)
            & 7u64) == s,
        (((((((work << 26u64) | lock) << 3u64) | s) << 29u64) | (he & 0x1fff_ffffu64))
            & 0x3ff_ffffu64) == he & 0x3ff_ffffu64,
        ((((((((work << 26u64) | lock) << 3u64) | s) << 29u64) | (he & 0x1fff_ffffu64)) >> 26u64)
            & 7u64) == (he >> 26u64) & 7u64,
{
}

proof fn lemma_fields_new(he: u64, lock: u64, s: u64)
    by (bit_vector)
    requires
        lock < 0x400_0000,
        s < 8,
    ensures
        ((he & 0xffff_ffff_e000_0000u64) | (s << 26u64) | lock) >> 58u64 == he >> 58u64,
        (((he & 0xffff_ffff_e000_0000u64) | (s << 26u64) | lock) >> 32u64) & 0x3ff_ffffu64 == (he
            >> 32u64) & 0x3ff_ffffu64,
        (((he & 0xffff_ffff_e000_0000u64) | (s << 26u64) | lock) >> 29u64) & 7u64 == (he >> 29u64)
            & 7u64,
        ((he & 0xffff_ffff_e000_0000u64) | (s << 26u64) | lock) & 0x3ff_ffffu64 == lock,
        (((he & 0xffff_ffff_e000_0000u64) | (s << 26u64) | lock) >> 26u64) & 7u64 == s,
{
}

pub(crate) proof fn lemma_field_ranges(x: u64)
    by (bit_vector)
    ensures
        x >> 58u64 < 64,
        (x >> 32u64) & 0x3ff_ffffu64 < 0x400_0000,
        (x >> 29u64) & 7u64 < 8,
        x & 0x3ff_ffffu64 < 0x400_0000,
        (x >> 26u64) & 7u64 < 8,
        0u64 >> 58u64 == 0,
        (0u64 >> 32u64) & 0x3ff_ffffu64 == 0,
        (0u64 >> 29u64) & 7u64 == 0,
        0u64 & 0x3ff_ffffu64 == 0,
        (0u64 >> 26u64) & 7u64 == 0,
{
}

/// The slot `e` is `he` after a store of (`lock`, `score`, `work`): the big
/// entry records exactly the store and the new entry is kept when the store
/// goes big; otherwise the new entry records it and the big entry is kept.
pub open spec fn stored_fields(he: u64, e: u64, lock: u64, score: i32, work: u32) -> bool {
    if goes_big(he, lock, work) {
        &&& spec_big_work(e) == work
        &&& spec_big_lock(e) == lock
        &&& spec_big_score(e) == score
        &&& spec_new_lock(e) == spec_new_lock(he)
        &&& spec_new_score(e) == spec_new_score(he)
    } else {
        &&& spec_big_work(e) == spec_big_work(he)
        &&& spec_big_lock(e) == spec_big_lock(he)
        &&& spec_big_score(e) == spec_big_score(he)
        &&& spec_new_lock(e) == lock
        &&& spec_new_score(e) == score
    }
}

/// Replacement policy: for a lock below 2^26, a score in 0..8 and work
/// below 64, a store into the big entry records exactly (work, lock,
/// score) there and leaves the new entry as it was; a store into the new
/// entry records (lock, score) there and leaves the big entry as it was.
pub proof fn lemma_store_fields(he: u64, lock: u64, score: i32, work: u32)
    requires
        lock < 0x400_0000,
        0 <= score < 8,
        work < 64,
    ensures
        stored_fields(he, slot_store(he, lock, score, work), lock, score, work),
{
    lemma_field_ranges(he);
    if goes_big(he, lock, work) {
        lemma_fields_big(he, lock, score as u64, work as u64);
    } else {
        lemma_fields_new(he, lock, score as u64);
    }
}

/// A lookup of the lock just stored answers the score just stored.
pub proof fn lemma_store_then_lookup(he: u64, lock: u64, score: i32, work: u32)
    requires
        lock < 0x400_0000,
        0 <= score < 8,
        work < 64,
    ensures
        slot_lookup(slot_store(he, lock, score, work), lock) == score,
{
    lemma_store_fields(he, lock, score, work);
}

/// The big entry is only displaced by its own lock or by at least as much
/// work: a store with less work for another lock leaves the big entry's
/// answer intact.
pub proof fn lemma_big_entry_kept(he: u64, lock: u64, score: i32, work: u32, other: u64)
    requires
        lock < 0x400_0000,
        0 <= score < 8,
        work < 64,
        lock != spec_big_lock(he),
        work < spec_big_work(he),
        other == spec_big_lock(he),
    ensures
        slot_lookup(slot_store(he, lock, score, work), other) == spec_big_score(he),
{
    lemma_store_fields(he, lock, score, work);
}

/// An empty slot answers UNKNOWN for every lock.
pub proof fn lemma_empty_slot(lock: u64)
    ensures
        slot_lookup(0, lock) == UNKNOWN,
{
    lemma_field_ranges(0);
}

#[inline]
fn big_work(x: u64) -> (r: u32)
    ensures
        r == spec_big_work(x),
        r < 64,
{
    proof {
        lemma_field_ranges(x);
    }
    (x >> (2 * NEWSIZE)) as u32
}

#[inline]
fn big_lock(x: u64) -> (r: u64)
    ensures
        r == spec_big_lock(x),
{
    (x >> (3 + NEWSIZE)) & LOCK_MASK
}

#[inline]
fn big_score(x: u64) -> (r: i32)
    ensures
        r == spec_big_score(x),
        0 <= r < 8,
{
    proof {
        lemma_field_ranges(x);
    }
    ((x >> NEWSIZE) & SCORE_MASK) as i32
}

#[inline]
fn new_lock(x: u64) -> (r: u64)
    ensures
        r == spec_new_lock(x),
{
    x & LOCK_MASK
}

#[inline]
fn new_score(x: u64) -> (r: i32)
    ensures
        r == spec_new_score(x),
        0 <= r < 8,
{
    proof {
        lemma_field_ranges(x);
    }
    ((x >> LOCKSIZE) & SCORE_MASK) as i32
}

/// Reverse the 7-bit column groups of `h` onto `acc`, lowest group first,
/// stopping when no set bit remains.
pub open spec fn mirror_acc(h: u64, acc: u64) -> u64
    decreases h,
{
    if h == 0 {
        acc
    } else {
        mirror_acc(h / 128, (acc << 7u64) | (h % 128))
    }
}

/// The column-mirror of a position code.
pub open spec fn mirror_code(h: u64) -> u64 {
    mirror_acc(h, 0)
}

/// The code under which a position is stored: for the first SYMMREC plies,
/// the smaller of the code and its column-mirror, so that mirror-symmetric
/// positions share an entry; afterwards the code itself.
pub open spec fn canonical_code(code: u64, nplies: int) -> u64 {
    if nplies < SYMMREC && mirror_code(code) < code {
        mirror_code(code)
    } else {
        code
    }
}

/// A code of seven columns, each of whose 7-bit groups is nonzero (every
/// column of a position code carries its marker bit).
pub open spec fn code_shape(x: u64) -> bool {
    &&& x < 0x2000000000000u64
    &&& x % 128 != 0
    &&& (x / 128) % 128 != 0
    &&& (x / 16384) % 128 != 0
    &&& (x / 2097152) % 128 != 0
    &&& (x / 268435456) % 128 != 0
    &&& (x / 34359738368) % 128 != 0
    &&& (x / 4398046511104) % 128 != 0
}

/// The seven column groups of `x` in reverse order.
pub open spec fn mirror7(x: u64) -> u64 {
    ((x % 128) << 42u64) | (((x / 128) % 128) << 35u64) | (((x / 16384) % 128) << 28u64) | (((x
        / 2097152) % 128) << 21u64) | (((x / 268435456) % 128) << 14u64) | (((x / 34359738368)
        % 128) << 7u64) | ((x / 4398046511104) % 128)
}

pub(crate) proof fn lemma_mirror7_facts(x: u64)
    by (bit_vector)
    requires
        x < 0x2000000000000u64,
        x % 128 != 0,
        (x / 128) % 128 != 0,
        (x / 16384) % 128 != 0,
        (x / 2097152) % 128 != 0,
        (x / 268435456) % 128 != 0,
        (x / 34359738368) % 128 != 0,
        (x / 4398046511104) % 128 != 0,
    ensures
        ({
            let a1 = (0u64 << 7u64) | (x % 128);
            let a2 = (a1 << 7u64) | ((x / 128) % 128);
            let a3 = (a2 << 7u64) | ((x / 16384) % 128);
            let a4 = (a3 << 7u64) | ((x / 2097152) % 128);
            let a5 = (a4 << 7u64) | ((x / 268435456) % 128);
            let a6 = (a5 << 7u64) | ((x / 34359738368) % 128);
            (a6 << 7u64) | ((x / 4398046511104) % 128) == mirror7(x)
        }),
        mirror7(x) < 0x2000000000000u64,
        mirror7(x) % 128 != 0,
        (mirror7(x) / 128) % 128 != 0,
        (mirror7(x) / 16384) % 128 != 0,
        (mirror7(x) / 2097152) % 128 != 0,
        (mirror7(x) / 268435456) % 128 != 0,
        (mirror7(x) / 34359738368) % 128 != 0,
        (mirror7(x) / 4398046511104) % 128 != 0,
        mirror7(mirror7(x)) == x,
{
}

pub(crate) proof fn lemma_mirror_unfold(x: u64)
    requires
        code_shape(x),
    ensures
        mirror_code(x) == mirror7(x),
{
    lemma_mirror7_facts(x);
    reveal_with_fuel(mirror_acc, 8);
    assert(x / 128 / 128 == x / 16384);
    assert(x / 16384 / 128 == x / 2097152);
    assert(x / 2097152 / 128 == x / 268435456);
    assert(x / 268435456 / 128 == x / 34359738368);
    assert(x / 34359738368 / 128 == x / 4398046511104);
    assert(x / 4398046511104 / 128 == 0);
}

/// Mirroring the columns of a position code twice gives the code back, and
/// the mirror of a position code is again one.
pub proof fn lemma_mirror_involution(x: u64)
    requires
        code_shape(x),
    ensures
        code_shape(mirror_code(x)),
        mirror_code(mirror_code(x)) == x,
{
    lemma_mirror_unfold(x);
    lemma_mirror7_facts(x);
    lemma_mirror_unfold(mirror7(x));
}

pub(crate) proof fn lemma_code_groups(
    x: u64,
    y: u64,
    k0: u64,
    k1: u64,
    k2: u64,
    k3: u64,
    k4: u64,
    k5: u64,
    k6: u64,
    s: u64,
)
    by (bit_vector)
    requires
        k0 <= 6 && k1 <= 6 && k2 <= 6 && k3 <= 6 && k4 <= 6 && k5 <= 6 && k6 <= 6,
        x & y == 0,
        x | y == crate::board::occ7(k0, k1, k2, k3, k4, k5, k6),
        s == x || s == y,
    ensures
        ({
            let c = (s + x + y + 0x40810204081u64) as u64;
            &&& c < 0x2000000000000u64
            &&& c % 128 != 0
            &&& (c / 128) % 128 != 0
            &&& (c / 16384) % 128 != 0
            &&& (c / 2097152) % 128 != 0
            &&& (c / 268435456) % 128 != 0
            &&& (c / 34359738368) % 128 != 0
            &&& (c / 4398046511104) % 128 != 0
        }),
{
}

/// Every column group of a well-formed board's position code is nonzero:
/// the filled squares of a column plus the marker bit above them.
pub proof fn lemma_position_code_shape(b: Board)
    requires
        b.wf(),
    ensures
        code_shape(b.position_code_spec() as u64),
{
    b.lemma_shape();
    lemma_code_groups(
        b.color[0],
        b.color[1],
        b.stones_in(0) as u64,
        b.stones_in(1) as u64,
        b.stones_in(2) as u64,
        b.stones_in(3) as u64,
        b.stones_in(4) as u64,
        b.stones_in(5) as u64,
        b.stones_in(6) as u64,
        b.color[b.spec_side()],
    );
}

pub(crate) proof fn lemma_mirror_sum(x: u64, y: u64, k0: u64, k1: u64, k2: u64, k3: u64, k4: u64, k5: u64, k6: u64, s: u64)
    by (bit_vector)
    requires
        k0 <= 6 && k1 <= 6 && k2 <= 6 && k3 <= 6 && k4 <= 6 && k5 <= 6 && k6 <= 6,
        x & y == 0,
        x | y == crate::board::occ7(k0, k1, k2, k3, k4, k5, k6),
        s == x || s == y,
    ensures
        mirror7((s + x + y + 0x40810204081u64) as u64) == (mirror7(s) + mirror7(x) + mirror7(y)
            + 0x40810204081u64) as u64,
{
}

/// The board `b` is the column-mirror image of `a`: the same number of
/// moves, and each player's stones reflected left to right.
pub open spec fn mirror_board(a: Board, b: Board) -> bool {
    &&& b.nplies == a.nplies
    &&& b.color[0] == mirror7(a.color[0])
    &&& b.color[1] == mirror7(a.color[1])
}

/// The position code of the mirror image of a board is the column-mirror of
/// its code; so within the first SYMMREC plies a position and its mirror
/// image are stored under the same code, hence the same lock and bucket.
pub proof fn lemma_mirror_board_shares_entry(a: Board, b: Board)
    requires
        a.wf(),
        b.wf(),
        mirror_board(a, b),
    ensures
        b.position_code_spec() == mirror_code(a.position_code_spec() as u64),
        a.nplies < SYMMREC ==> canonical_code(a.position_code_spec() as u64, a.nplies as int)
            == canonical_code(b.position_code_spec() as u64, b.nplies as int),
{
    a.lemma_shape();
    b.lemma_shape();
    lemma_position_code_shape(a);
    lemma_mirror_unfold(a.position_code_spec() as u64);
    lemma_mirror_sum(
        a.color[0],
        a.color[1],
        a.stones_in(0) as u64,
        a.stones_in(1) as u64,
        a.stones_in(2) as u64,
        a.stones_in(3) as u64,
        a.stones_in(4) as u64,
        a.stones_in(5) as u64,
        a.stones_in(6) as u64,
        a.color[a.spec_side()],
    );
    assert(0 <= a.stones_in(0) <= 6 && 0 <= a.stones_in(1) <= 6 && 0 <= a.stones_in(2) <= 6
        && 0 <= a.stones_in(3) <= 6 && 0 <= a.stones_in(4) <= 6 && 0 <= a.stones_in(5) <= 6
        && 0 <= a.stones_in(6) <= 6);
    assert(b.position_code_spec() == mirror_code(a.position_code_spec() as u64));
    if a.nplies < SYMMREC {
        lemma_mirror_shares_entry(a.position_code_spec() as u64, a.nplies as int);
    }
}

/// Within the first SYMMREC plies a position and its column-mirror image
/// are stored under the same code, hence the same lock and bucket.
pub proof fn lemma_mirror_shares_entry(x: u64, nplies: int)
    requires
        code_shape(x),
        nplies < SYMMREC,
    ensures
        canonical_code(x, nplies) == canonical_code(mirror_code(x), nplies),
{
    lemma_mirror_involution(x);
}

/// With at least 2^(SIZE1 - LOCKSIZE) slots, the lock and the bucket index
/// of a code determine the code: two codes below 2^SIZE1 that share both
/// are equal, so an entry found under a key belongs to that very code.
pub proof fn lemma_key_determines_code(c1: u64, c2: u64, size: int)
    requires
        size >= 0x80_0000,
        c1 >> 23u64 == c2 >> 23u64,
        c1 as int % size == c2 as int % size,
    ensures
        c1 == c2,
{
    assert(c1 >> 23u64 == c1 / 0x80_0000 && c2 >> 23u64 == c2 / 0x80_0000) by (bit_vector);
    assert(c1 as int - c2 as int == (c1 % 0x80_0000) as int - (c2 % 0x80_0000) as int);
    let d = c1 as int - c2 as int;
    assert(-size < d < size);
    vstd::arithmetic::div_mod::lemma_fundamental_div_mod(c1 as int, size);
    vstd::arithmetic::div_mod::lemma_fundamental_div_mod(c2 as int, size);
    let k = c1 as int / size - c2 as int / size;
    assert(d == size * k) by (nonlinear_arith)
        requires
            c1 as int == size * (c1 as int / size) + c1 as int % size,
            c2 as int == size * (c2 as int / size) + c2 as int % size,
            c1 as int % size == c2 as int % size,
            d == c1 as int - c2 as int,
            k == c1 as int / size - c2 as int / size,
    ;
    assert(k == 0) by (nonlinear_arith)
        requires
            d == size * k,
            -size < d < size,
            size > 0,
    ;
}

proof fn lemma_group_step(h: u64)
    by (bit_vector)
    ensures
        h >> 7u64 == h / 128,
        h & 127u64 == h % 128,
        (1u64 << 7u64) - 1 == 127,
{
}

proof fn lemma_lock_range(h: u64)
    by (bit_vector)
    requires
        h < 0x2000000000000u64,
    ensures
        h >> 23u64 < 0x400_0000u64,
{
}

/// Reverse the WIDTH columns of a position code (each column is H1 bits wide).
fn mirror_columns(htemp: u64) -> (m: u64)
    ensures
        m == mirror_code(htemp),
{
    let ghost h0 = htemp;
    let mut htemp = htemp;
    let mut mirrored = 0u64;
    proof {
        lemma_group_step(htemp);
    }
    let col1 = (1u64 << H1) - 1;
    while htemp != 0
        invariant
            col1 == 127,
            mirror_acc(htemp, mirrored) == mirror_code(h0),
        decreases htemp,
    {
        proof {
            lemma_group_step(htemp);
        }
        mirrored = (mirrored << H1) | (htemp & col1);
        htemp >>= H1;
    }
    mirrored
}

pub open spec fn ind(b: bool) -> nat {
    if b {
        1
    } else {
        0
    }
}

/// Entries (big or new) among the first `n` slots that hold a nonzero lock
/// and the score `score`.
pub open spec fn count_score(slots: Seq<u64>, n: int, score: int) -> nat
    decreases n,
{
    if n <= 0 {
        0
    } else {
        count_score(slots, n - 1, score) + ind(
            spec_big_lock(slots[n - 1]) != 0 && spec_big_score(slots[n - 1]) == score,
        ) + ind(spec_new_lock(slots[n - 1]) != 0 && spec_new_score(slots[n - 1]) == score)
    }
}

pub struct TransTable {
    /// The slot words, two entries each.
    pub entries: Vec<u64>,
    /// The number of stores made since the table was created or cleared
    /// (wrapping at 2^64), used for "work" reporting.
    pub posed: u64,
}

impl TransTable {
    /// The slot words of the table.
    pub open spec fn slots(&self) -> Seq<u64> {
        self.entries@
    }


    /// Every slot holds only real scores.
    pub open spec fn wf(&self) -> bool {
        forall|i: int| 0 <= i < self.slots().len() ==> slot_ok(#[trigger] self.slots()[i])
    }

    pub fn new(size: usize) -> (t: Self)
        ensures
            t.slots().len() == size,
            forall|i: int| 0 <= i < size ==> #[trigger] t.slots()[i] == 0,
            t.posed == 0,
            t.wf(),
    {
        let t = TransTable { entries: vec![0u64; size], posed: 0 };
        proof {
            lemma_field_ranges(0);
        }
        t
    }

    pub fn clear(&mut self)
        ensures
            final(self).slots().len() == old(self).slots().len(),
            forall|i: int| 0 <= i < final(self).slots().len() ==> #[trigger] final(self).slots()[i] == 0,
            final(self).posed == 0,
            final(self).wf(),
            crate::search::tt_sound(*final(self)),
    {
        let n = self.entries.len();
        let mut i: usize = 0;
        while i < n
            invariant
                n == self.entries.len(),
                n == old(self).entries.len(),
                i <= n,
                forall|j: int| 0 <= j < i ==> #[trigger] self.entries@[j] == 0,
            decreases n - i,
        {
            self.entries[i] = 0;
            i = i + 1;
        }
        self.posed = 0;
        proof {
            lemma_field_ranges(0);
            crate::search::lemma_empty_table_sound(*self);
        }
    }

    pub fn len(&self) -> (n: usize)
        ensures
            n == self.slots().len(),
    {
        self.entries.len()
    }

    pub fn is_empty(&self) -> (r: bool)
        ensures
            r == (self.slots().len() == 0),
    {
        self.entries.len() == 0
    }

    /// Number of stored entries at each score value (indices LOSS..=WIN
    /// are the real scores; index 0 counts entries stored as UNKNOWN).
    pub fn score_counts(&self) -> (counts: [u64; 6])
        requires
            self.wf(),
            self.slots().len() < 0x1000_0000_0000_0000,
        ensures
            forall|sc: int| 0 <= sc < 6 ==> #[trigger] counts[sc] == count_score(
                self.slots(),
                self.slots().len() as int,
                sc,
            ),
    {
        let mut counts = [0u64; 6];
        let n = self.entries.len();
        let mut i = 0usize;
        while i < n
            invariant
                self.wf(),
                n == self.slots().len(),
                n < 0x1000_0000_0000_0000,
                i <= n,
                forall|sc: int| 0 <= sc < 6 ==> #[trigger] counts[sc] == count_score(
                    self.slots(),
                    i as int,
                    sc,
                ),
                forall|sc: int| 0 <= sc < 6 ==> #[trigger] counts[sc] <= 2 * i,
            decreases n - i,
        {
            let he = self.entries[i];
            proof {
                assert(slot_ok(self.slots()[i as int]));
            }
            let bl = big_lock(he);
            if bl != 0 {
                let sc = big_score(he) as usize;
                counts[sc] = counts[sc] + 1;
            }
            let nl = new_lock(he);
            if nl != 0 {
                let sc = new_score(he) as usize;
                counts[sc] = counts[sc] + 1;
            }
            i += 1;
        }
        counts
    }

    /// Look up `lock` at bucket `index`. Returns UNKNOWN if neither the
    /// "big" nor "new" slot at this bucket matches the lock.
    pub fn lookup(&self, index: usize, lock: u64) -> (score: i32)
        requires
            index < self.slots().len(),
        ensures
            score == slot_lookup(self.slots()[index as int], lock),
            self.wf() ==> 0 <= score <= WIN,
    {
        let he = self.entries[index];
        if lock == big_lock(he) {
            big_score(he)
        } else if lock == new_lock(he) {
            new_score(he)
        } else {
            UNKNOWN
        }
    }

    /// Compute (lock, bucket index) for the current board position. For the
    /// first SYMMREC plies, the position is normalized against its
    /// column-mirror image (whichever encodes smaller) so mirror-symmetric
    /// positions share a table entry.
    pub fn hash_key(&self, board: &Board) -> (key: (u64, usize))
        requires
            board.position_code_spec() <= u64::MAX,
            self.slots().len() > 0,
        ensures
            key.0 == canonical_code(board.position_code_spec() as u64, board.nplies as int) >> 23u64,
            key.1 == canonical_code(board.position_code_spec() as u64, board.nplies as int) as int
                % self.slots().len() as int,
            board.wf() ==> key.0 < 0x400_0000,
            key.1 < self.slots().len(),
    {
        let mut htemp = board.position_code();
        if board.nplies < SYMMREC {
            let mirrored = mirror_columns(htemp);
            if mirrored < htemp {
                htemp = mirrored;
            }
        }
        proof {
            if board.wf() {
                lemma_lock_range(htemp);
            }
        }
        let lock = htemp >> (SIZE1 - LOCKSIZE as usize);
        let index = (htemp % self.entries.len() as u64) as usize;
        (lock, index)
    }

    /// Store `score` for `lock` at bucket `index`, having invested `work`
    /// (log2 of positions searched below this node) to obtain it.
    ///
    /// The "big" slot is overwritten when it already holds this same lock, or
    /// when the new work is at least as deep as what's currently recorded
    /// there; otherwise the position is written to the cheaper "new" slot
    /// instead, leaving "big" untouched.
    pub fn store(&mut self, index: usize, lock: u64, score: i32, work: u32)
        requires
            index < old(self).slots().len(),
        ensures
            final(self).slots() == old(self).slots().update(
                index as int,
                slot_store(old(self).slots()[index as int], lock, score, work),
            ),
            final(self).posed == old(self).posed.wrapping_add(1),
            old(self).wf() && lock < 0x400_0000 && 0 <= score <= WIN && work < 64
                ==> final(self).wf(),
            lock < 0x400_0000 && 0 <= score < 8 && work < 64 ==> stored_fields(
                old(self).slots()[index as int],
                final(self).slots()[index as int],
                lock,
                score,
                work,
            ),
    {
        self.posed = self.posed.wrapping_add(1);
        let he = self.entries[index];
        let new_he = if lock == big_lock(he) || work >= big_work(he) {
            let packed_work_lock = ((work as u64) << LOCKSIZE) | lock;
            let packed_with_score = (packed_work_lock << 3) | (score as u64);
            (packed_with_score << NEWSIZE) | (he & NEW_MASK)
        } else {
            (he & BIG_MASK) | ((score as u64) << LOCKSIZE) | lock
        };
        self.entries[index] = new_he;
        proof {
            if lock < 0x400_0000 && 0 <= score < 8 && work < 64 {
                lemma_store_fields(he, lock, score, work);
            }
            if old(self).wf() && lock < 0x400_0000 && 0 <= score <= WIN && work < 64 {
                lemma_store_fields(he, lock, score, work);
                assert forall|i: int| 0 <= i < self.slots().len() implies slot_ok(
                    #[trigger] self.slots()[i],
                ) by {
                    if i != index {
                        assert(slot_ok(old(self).slots()[i]));
                    } else {
                        assert(slot_ok(he));
                    }
                }
            }
        }
    }
}

} // verus!
