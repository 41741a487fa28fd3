//! The board: two disjoint 64-cell sets and a ply counter, with move
//! generation and move application done on whole sets at once.

use vstd::prelude::*;
use vstd::std_specs::bits::u64_trailing_zeros;
use crate::bits::{
    cells, has_bit, lemma_bitwise, lemma_commute, lemma_count_bound, lemma_count_disjoint,
    lemma_count_is_len, lemma_count_single, lemma_member, lemma_one_bit, lemma_remove, lemma_shl, lemma_shr,
    lemma_single, lemma_zero, popcount,
};
use crate::evaluator::{evaluate_board, evaluation, final_value, Weights};
use crate::rules::{
    brackets, cell, empty_at, exchanged, flipped_along, flipped_at, is_direction, legal_at,
    legal_moves, lemma_run_holds_opponent, lemma_run_length, lemma_run_unique, on_board, play,
    run_to_mover, start, within_steps, Position,
};

verus! {

/// A position seen from the side to move. No cell holds stones of both
/// sides, and the ply counter equals the number of stones on the board.
#[derive(Clone, Copy, Debug)]
pub struct Board {
    black: u64,
    white: u64,
    turns: usize,
}

/// The mover's stones at the start of a game: cells 28 and 35.
pub const START_MOVER: u64 = 0x0000_0008_1000_0000;

/// The opponent's stones at the start of a game: cells 27 and 36.
pub const START_OPPONENT: u64 = 0x0000_0010_0800_0000;

/// Adds the cell in row `r` and column `c` to the set `bits`.
pub fn put(bits: u64, r: u8, c: u8) -> (out: u64)
    requires
        8 * r + c < 64,
    ensures
        out == bits | (1u64 << ((8 * r + c) as u64)),
        cells(out) == cells(bits).insert(cell(r as int, c as int)),
{
    let k: u64 = (r as u64) * 8 + (c as u64);
    let out = bits | (1u64 << k);
    proof {
        lemma_bitwise(bits, 1u64 << k);
        lemma_single(k);
        assert(cells(out) =~= cells(bits).insert(cell(r as int, c as int)));
    }
    out
}

impl View for Board {
    type V = Position;

    open spec fn view(&self) -> Position {
        Position {
            mover: cells(self.mover()),
            opponent: cells(self.opponent()),
            ply: self.ply(),
        }
    }
}

impl Board {
    /// The largest score: a certain win.
    pub const MAX_EVAL: i32 = i32::MAX;

    /// The cells of the side to move, as a 64-bit set.
    pub closed spec fn mover(&self) -> u64 {
        self.black
    }

    /// The cells of the other side, as a 64-bit set.
    pub closed spec fn opponent(&self) -> u64 {
        self.white
    }

    /// The ply counter.
    pub closed spec fn ply(&self) -> nat {
        self.turns as nat
    }

    /// What holds of every board: the two sets are disjoint and the ply
    /// counter is the number of stones.
    #[verifier::type_invariant]
    pub open spec fn well_formed(&self) -> bool {
        &&& self.mover() & self.opponent() == 0
        &&& self.ply() == popcount(self.mover()) + popcount(self.opponent())
    }

    /// The pair of sets by which a position is looked up.
    pub open spec fn key(&self) -> (u64, u64) {
        (self.mover(), self.opponent())
    }

    /// The board that holds the two sets, with the ply counter that goes
    /// with them.
    pub closed spec fn of_bits(mover: u64, opponent: u64) -> Board {
        Board { black: mover, white: opponent, turns: (popcount(mover) + popcount(opponent)) as usize }
    }

    /// The same board seen from the other side.
    pub closed spec fn swapped(&self) -> Board {
        Board { black: self.white, white: self.black, turns: self.turns }
    }

    /// The legal moves of the side to move, as a 64-bit set.
    pub open spec fn legal_bits(&self) -> u64 {
        choose|l: u64| cells(l) == legal_moves(self@)
    }

    /// The board after the mover has played on cell `m` and handed the move
    /// to the other side.
    pub open spec fn after(&self, m: int) -> Board {
        choose|b: Board| b.well_formed() && b@ == exchanged(play(self@, m))
    }

    /// A move that the rules allow on this board: a set of one cell, which is
    /// one of the legal cells.
    pub open spec fn allows(&self, mv: u64) -> bool {
        popcount(mv) == 1 && legal_moves(self@).contains(move_cell(mv))
    }

    /// A board is the board of its two sets.
    pub proof fn lemma_of_bits(&self)
        requires
            self.well_formed(),
        ensures
            *self == Board::of_bits(self.mover(), self.opponent()),
            Board::of_bits(self.mover(), self.opponent()).well_formed(),
    {
        lemma_commute(self.black, self.white);
        lemma_stones_bound(self.black, self.white);
    }

    /// Two boards that show the same position are the same board.
    pub proof fn lemma_same_view(&self, other: Board)
        requires
            self@ == other@,
        ensures
            *self == other,
    {
        assert forall|i: int| 0 <= i < 64 implies has_bit(self.black, i) == has_bit(
            other.black,
            i,
        ) by {
            assert(cells(self.black) == cells(other.black));
            assert(cells(self.black).contains(i) == has_bit(self.black, i));
            assert(cells(other.black).contains(i) == has_bit(other.black, i));
        }
        assert forall|i: int| 0 <= i < 64 implies has_bit(self.white, i) == has_bit(
            other.white,
            i,
        ) by {
            assert(cells(self.white) == cells(other.white));
            assert(cells(self.white).contains(i) == has_bit(self.white, i));
            assert(cells(other.white).contains(i) == has_bit(other.white, i));
        }
        crate::bits::lemma_same_cells(self.black, other.black);
        crate::bits::lemma_same_cells(self.white, other.white);
    }

    /// The one-cell set of a legal cell is a move that the rules allow.
    pub proof fn lemma_allows(&self, k: u64)
        requires
            k < 64,
            legal_moves(self@).contains(k as int),
        ensures
            self.allows(1u64 << k),
            move_cell(1u64 << k) == k,
    {
        lemma_count_single(k);
        lemma_one_bit(1u64 << k);
        lemma_single(k);
    }

    /// The standard starting position.
    pub fn new() -> (b: Board)
        ensures
            b@ == start(),
            b.mover() == START_MOVER,
            b.opponent() == START_OPPONENT,
            b == Board::of_bits(START_MOVER, START_OPPONENT),
            b.well_formed(),
    {
        let black = put(put(0, 3, 4), 4, 3);
        let white = put(put(0, 3, 3), 4, 4);
        proof {
            lemma_start_bits(black, white);
        }
        Board { black, white, turns: 4 }
    }

    /// The board with the given sets and ply counter, if they make a board:
    /// the sets are disjoint and the counter is the number of stones.
    pub fn from_parts(mover: u64, opponent: u64, turns: usize) -> (out: Option<Board>)
        ensures
            out is Some <==> mover & opponent == 0 && turns == popcount(mover) + popcount(
                opponent,
            ),
            out matches Some(b) ==> b == Board::of_bits(mover, opponent) && b.mover() == mover
                && b.opponent() == opponent && b.ply() == turns && b.well_formed(),
    {
        proof {
            lemma_count_bound(mover, 64);
            lemma_count_bound(opponent, 64);
        }
        if mover & opponent == 0 && turns == (mover.count_ones() + opponent.count_ones()) as usize {
            Some(Board { black: mover, white: opponent, turns })
        } else {
            None
        }
    }

    /// Resets the board to the standard starting position.
    pub fn clear(&mut self)
        ensures
            final(self)@ == start(),
            *final(self) == Board::of_bits(START_MOVER, START_OPPONENT),
            final(self).well_formed(),
    {
        *self = Board::new();
    }

    /// Hands the move to the other side: the two sets change places.
    pub fn exchange(&mut self)
        ensures
            final(self)@ == exchanged(old(self)@),
            final(self).mover() == old(self).opponent(),
            final(self).opponent() == old(self).mover(),
            final(self).ply() == old(self).ply(),
            final(self).well_formed(),
            *final(self) == old(self).swapped(),
    {
        proof {
            use_type_invariant(&*self);
            lemma_commute(self.white, self.black);
        }
        *self = Board { black: self.white, white: self.black, turns: self.turns };
    }

    /// The value of the position for the side to move, given the legal
    /// moves of both sides.
    pub fn evaluate(&self, black_mvs: u64, white_mvs: u64, weights: &Weights) -> (out: i32)
        requires
            weights.in_range(),
        ensures
            out == evaluation(*weights, *self, black_mvs, white_mvs),
            -Board::MAX_EVAL <= out <= Board::MAX_EVAL,
            self.mover() != 0 && self.opponent() != 0 ==> -Board::MAX_EVAL < out < Board::MAX_EVAL,
    {
        if self.white == 0 {
            Board::MAX_EVAL
        } else if self.black == 0 {
            -Board::MAX_EVAL
        } else {
            evaluate_board(self, black_mvs, white_mvs, weights)
        }
    }

    /// The value of a finished game for the side to move, by the stone
    /// counts alone.
    pub fn evaluate_end(&self) -> (out: i32)
        ensures
            out == final_value(*self),
            out == Board::MAX_EVAL <==> self@.mover.len() > self@.opponent.len(),
            out == -Board::MAX_EVAL <==> self@.mover.len() < self@.opponent.len(),
            out == 0 <==> self@.mover.len() == self@.opponent.len(),
    {
        proof {
            lemma_count_is_len(self.black);
            lemma_count_is_len(self.white);
        }
        if self.black.count_ones() > self.white.count_ones() {
            Board::MAX_EVAL
        } else if self.black.count_ones() < self.white.count_ones() {
            -Board::MAX_EVAL
        } else {
            0
        }
    }

    /// The cells of the side to move.
    #[verifier::when_used_as_spec(mover)]
    pub fn get_black(&self) -> (bits: u64)
        ensures
            bits == self.mover(),
    {
        self.black
    }

    /// The cells of the other side.
    #[verifier::when_used_as_spec(opponent)]
    pub fn get_white(&self) -> (bits: u64)
        ensures
            bits == self.opponent(),
    {
        self.white
    }

    /// The ply counter: four at the start, one more after each stone placed.
    pub fn turns(&self) -> (n: usize)
        ensures
            n == self.ply(),
            n == self@.mover.len() + self@.opponent.len(),
            n <= 64,
    {
        proof {
            use_type_invariant(self);
            lemma_stones_bound(self.black, self.white);
            lemma_count_is_len(self.black);
            lemma_count_is_len(self.white);
        }
        self.turns
    }
}

/// Two disjoint sets hold at most 64 cells between them.
pub proof fn lemma_stones_bound(a: u64, b: u64)
    requires
        a & b == 0,
    ensures
        popcount(a) + popcount(b) == popcount(a | b),
        popcount(a | b) <= 64,
{
    lemma_count_disjoint(a, b, 64);
    lemma_count_bound(a | b, 64);
}

proof fn lemma_start_bits(black: u64, white: u64)
    requires
        black == (0u64 | (1u64 << 28u64)) | (1u64 << 35u64),
        white == (0u64 | (1u64 << 27u64)) | (1u64 << 36u64),
        cells(black) == cells(0u64).insert(28).insert(35),
        cells(white) == cells(0u64).insert(27).insert(36),
    ensures
        black == 0x0000_0008_1000_0000u64,
        white == 0x0000_0010_0800_0000u64,
        black & white == 0,
        popcount(black) + popcount(white) == 4,
        cells(black) == set![28int, 35int],
        cells(white) == set![27int, 36int],
{
    assert({
        &&& (0u64 | (1u64 << 28u64)) | (1u64 << 35u64) == 0x0000_0008_1000_0000u64
        &&& (0u64 | (1u64 << 27u64)) | (1u64 << 36u64) == 0x0000_0010_0800_0000u64
        &&& 0x0000_0008_1000_0000u64 & 0x0000_0010_0800_0000u64 == 0
        &&& (1u64 << 28u64) & (1u64 << 35u64) == 0
        &&& (1u64 << 27u64) & (1u64 << 36u64) == 0
        &&& 0u64 | (1u64 << 28u64) == 1u64 << 28u64
        &&& 0u64 | (1u64 << 27u64) == 1u64 << 27u64
    }) by (bit_vector);
    lemma_single(0);
    assert(cells(0u64) =~= Set::<int>::empty());
    assert(cells(black) =~= set![28int, 35int]);
    assert(cells(white) =~= set![27int, 36int]);
    lemma_count_single(28);
    lemma_count_single(35);
    lemma_count_single(27);
    lemma_count_single(36);
    lemma_count_disjoint(1u64 << 28u64, 1u64 << 35u64, 64);
    lemma_count_disjoint(1u64 << 27u64, 1u64 << 36u64, 64);
}

/// The cells of the board that are not on the rim along the axis of
/// direction `(dr, dc)`: a run of opponent stones can only pass through these.
pub open spec fn mask_fits(mask: u64, dr: int, dc: int) -> bool {
    forall|i: int| #[trigger]
        has_bit(mask, i) == (0 <= i < 64 && (dr != 0 ==> 1 <= i / 8 <= 6) && (dc != 0 ==> 1 <= i % 8
            <= 6))
}

/// Columns 1 to 6: the inner cells for runs along a row.
pub const MASK_H: u64 = 0x7e7e_7e7e_7e7e_7e7e;

/// Rows 1 to 6: the inner cells for runs along a column.
pub const MASK_V: u64 = 0x00ff_ffff_ffff_ff00;

/// Rows and columns 1 to 6: the inner cells for runs along a diagonal.
pub const MASK_D: u64 = 0x007e_7e7e_7e7e_7e00;

proof fn bv_masks(i: u64)
    by (bit_vector)
    requires
        i < 64,
    ensures
        ((0x7e7e_7e7e_7e7e_7e7eu64 >> i) & 1 == 1) == (1 <= i % 8 && i % 8 <= 6),
        ((0x00ff_ffff_ffff_ff00u64 >> i) & 1 == 1) == (1 <= i / 8 && i / 8 <= 6),
        ((0x007e_7e7e_7e7e_7e00u64 >> i) & 1 == 1) == (1 <= i % 8 && i % 8 <= 6 && 1 <= i / 8 && i
            / 8 <= 6),
{
}

proof fn lemma_masks()
    ensures
        mask_fits(MASK_H, 0, 1),
        mask_fits(MASK_V, 1, 0),
        mask_fits(MASK_D, 1, -1),
        mask_fits(MASK_D, 1, 1),
{
    assert forall|i: int| 0 <= i < 64 implies {
        &&& has_bit(MASK_H, i) == (1 <= i % 8 <= 6)
        &&& has_bit(MASK_V, i) == (1 <= i / 8 <= 6)
        &&& has_bit(MASK_D, i) == (1 <= i % 8 <= 6 && 1 <= i / 8 <= 6)
    } by {
        bv_masks(i as u64);
    }
}

/// Starting at cell `i` and stepping by `d`: at most `k + 1` cells of `w` in
/// a row, then a cell of `b`.
spec fn ray(b: u64, w: u64, d: int, i: int, k: nat) -> bool
    decreases k,
{
    has_bit(w, i) && (has_bit(b, i + d) || (k > 0 && ray(b, w, d, i + d, (k - 1) as nat)))
}

/// Starting at cell `i` and stepping by `d`: `n + 1` cells of `w` in a row,
/// then a cell of `b`.
spec fn chain(b: u64, w: u64, d: int, i: int, n: nat) -> bool
    decreases n,
{
    has_bit(w, i) && if n == 0 {
        has_bit(b, i + d)
    } else {
        chain(b, w, d, i + d, (n - 1) as nat)
    }
}

proof fn lemma_ray_grows(b: u64, w: u64, d: int, i: int, k: nat)
    requires
        ray(b, w, d, i, k),
    ensures
        ray(b, w, d, i, k + 1),
    decreases k,
{
    if !has_bit(b, i + d) {
        lemma_ray_grows(b, w, d, i + d, (k - 1) as nat);
    }
}

proof fn lemma_ray_chain(b: u64, w: u64, d: int, i: int, k: nat) -> (n: nat)
    requires
        ray(b, w, d, i, k),
    ensures
        n <= k,
        chain(b, w, d, i, n),
    decreases k,
{
    if has_bit(b, i + d) {
        0
    } else {
        1 + lemma_ray_chain(b, w, d, i + d, (k - 1) as nat)
    }
}

proof fn lemma_chain_ray(b: u64, w: u64, d: int, i: int, n: nat, k: nat)
    requires
        chain(b, w, d, i, n),
        n <= k,
    ensures
        ray(b, w, d, i, k),
    decreases n,
{
    if n > 0 {
        lemma_chain_ray(b, w, d, i + d, (n - 1) as nat, (k - 1) as nat);
    }
}

proof fn lemma_spread(b: u64, w: u64, d: int, t0: u64, t1: u64, k: nat)
    requires
        forall|i: int| #[trigger] has_bit(t0, i) == ray(b, w, d, i, k),
        forall|i: int| #[trigger]
            has_bit(t1, i) == (has_bit(t0, i) || (has_bit(w, i) && has_bit(t0, i + d))),
    ensures
        forall|i: int| #[trigger] has_bit(t1, i) == ray(b, w, d, i, k + 1),
{
    assert forall|i: int| #[trigger] has_bit(t1, i) == ray(b, w, d, i, k + 1) by {
        if ray(b, w, d, i, k) {
            lemma_ray_grows(b, w, d, i, k);
        }
        assert(has_bit(t0, i + d) == ray(b, w, d, i + d, k));
    }
}

/// The cells of `w` from which, stepping up by `s`, a run of at most six
/// cells of `w` reaches a cell of `b`.
fn spread_down(b: u64, w: u64, s: u64) -> (t: u64)
    requires
        0 < s < 64,
    ensures
        forall|i: int| #[trigger] has_bit(t, i) == ray(b, w, s as int, i, 5),
{
    let mut t: u64 = (b >> s) & w;
    proof {
        lemma_shr(b, s);
        lemma_bitwise(b >> s, w);
    }
    let mut k: u8 = 0;
    while k < 5
        invariant
            0 < s < 64,
            k <= 5,
            forall|i: int| #[trigger] has_bit(t, i) == ray(b, w, s as int, i, k as nat),
        decreases 5 - k,
    {
        let grown = t | (w & (t >> s));
        proof {
            lemma_shr(t, s);
            lemma_bitwise(w, t >> s);
            lemma_bitwise(t, w & (t >> s));
            lemma_spread(b, w, s as int, t, grown, k as nat);
        }
        t = grown;
        k += 1;
    }
    t
}

/// The cells of `w` from which, stepping down by `s`, a run of at most six
/// cells of `w` reaches a cell of `b`.
fn spread_up(b: u64, w: u64, s: u64) -> (t: u64)
    requires
        0 < s < 64,
    ensures
        forall|i: int| #[trigger] has_bit(t, i) == ray(b, w, -(s as int), i, 5),
{
    let mut t: u64 = (b << s) & w;
    proof {
        lemma_shl(b, s);
        lemma_bitwise(b << s, w);
    }
    let mut k: u8 = 0;
    while k < 5
        invariant
            0 < s < 64,
            k <= 5,
            forall|i: int| #[trigger] has_bit(t, i) == ray(b, w, -(s as int), i, k as nat),
        decreases 5 - k,
    {
        let grown = t | (w & (t << s));
        proof {
            lemma_shl(t, s);
            lemma_bitwise(w, t << s);
            lemma_bitwise(t, w & (t << s));
            lemma_spread(b, w, -(s as int), t, grown, k as nat);
        }
        t = grown;
        k += 1;
    }
    t
}

/// A masked cell next to a cell of the board lies on the board, and so does
/// the cell after it.
proof fn lemma_interior(mask: u64, r: int, c: int, dr: int, dc: int)
    requires
        on_board(r, c),
        is_direction(dr, dc),
        mask_fits(mask, dr, dc),
    ensures
        has_bit(mask, cell(r + dr, c + dc)) == (on_board(r + dr, c + dc) && on_board(
            r + 2 * dr,
            c + 2 * dc,
        )),
{
    let i1 = cell(r + dr, c + dc);
    if on_board(r + dr, c + dc) {
        assert(i1 / 8 == r + dr && i1 % 8 == c + dc);
    } else if 0 <= i1 < 64 {
        if c + dc == 8 {
            assert(i1 % 8 == 0);
        } else if c + dc == -1 {
            assert(i1 % 8 == 7);
        }
    }
}

proof fn lemma_chain_run(
    b: u64,
    white: u64,
    mask: u64,
    p: Position,
    r: int,
    c: int,
    dr: int,
    dc: int,
    n: nat,
)
    requires
        on_board(r, c),
        is_direction(dr, dc),
        mask_fits(mask, dr, dc),
        p.mover == cells(b),
        p.opponent == cells(white),
    ensures
        chain(b, white & mask, 8 * dr + dc, cell(r + dr, c + dc), n) == run_to_mover(
            p,
            r,
            c,
            dr,
            dc,
            n + 1,
        ),
    decreases n,
{
    lemma_bitwise(white, mask);
    lemma_interior(mask, r, c, dr, dc);
    let d = 8 * dr + dc;
    let i1 = cell(r + dr, c + dc);
    assert(i1 + d == cell(r + 2 * dr, c + 2 * dc));
    assert(run_to_mover(p, r, c, dr, dc, n + 1) == (on_board(r + dr, c + dc)
        && p.opponent.contains(i1) && run_to_mover(p, r + dr, c + dc, dr, dc, n)));
    if n > 0 && on_board(r + dr, c + dc) {
        lemma_chain_run(b, white, mask, p, r + dr, c + dc, dr, dc, (n - 1) as nat);
    }
}

/// What the spreading computes is what the rules call bracketing.
proof fn lemma_ray_brackets(
    b: u64,
    white: u64,
    mask: u64,
    p: Position,
    r: int,
    c: int,
    dr: int,
    dc: int,
)
    requires
        on_board(r, c),
        is_direction(dr, dc),
        mask_fits(mask, dr, dc),
        p.mover == cells(b),
        p.opponent == cells(white),
    ensures
        ray(b, white & mask, 8 * dr + dc, cell(r + dr, c + dc), 5) == brackets(p, r, c, dr, dc),
{
    let d = 8 * dr + dc;
    let i1 = cell(r + dr, c + dc);
    if ray(b, white & mask, d, i1, 5) {
        let n = lemma_ray_chain(b, white & mask, d, i1, 5);
        lemma_chain_run(b, white, mask, p, r, c, dr, dc, n);
        assert(run_to_mover(p, r, c, dr, dc, n + 1));
    }
    if brackets(p, r, c, dr, dc) {
        let n = choose|n: nat| n >= 1 && #[trigger] run_to_mover(p, r, c, dr, dc, n);
        lemma_run_length(p, r, c, dr, dc, n);
        lemma_chain_run(b, white, mask, p, r, c, dr, dc, (n - 1) as nat);
        lemma_chain_ray(b, white & mask, d, i1, (n - 1) as nat, 5);
    }
}

/// Cell `i` is empty and a stone placed there would bracket opponent stones
/// in direction `(dr, dc)`.
pub open spec fn hint_cell(p: Position, i: int, dr: int, dc: int) -> bool {
    0 <= i < 64 && empty_at(p, i / 8, i % 8) && brackets(p, i / 8, i % 8, dr, dc)
}

/// The set `m` holds exactly the cells from which a move captures in
/// direction `(dr, dc)`.
pub open spec fn hint_mask(p: Position, m: u64, dr: int, dc: int) -> bool {
    forall|i: int| #[trigger] has_bit(m, i) == hint_cell(p, i, dr, dc)
}

/// The four pairs of hints of a position: for each axis (along a row, along
/// a column, and the two diagonals), the cells from which a move captures
/// towards higher cells, and those from which it captures towards lower ones.
pub open spec fn hints_of(p: Position, hints: [(u64, u64); 4]) -> bool {
    &&& hint_mask(p, hints[0].0, 0, 1)
    &&& hint_mask(p, hints[0].1, 0, -1)
    &&& hint_mask(p, hints[1].0, 1, 0)
    &&& hint_mask(p, hints[1].1, -1, 0)
    &&& hint_mask(p, hints[2].0, 1, -1)
    &&& hint_mask(p, hints[2].1, -1, 1)
    &&& hint_mask(p, hints[3].0, 1, 1)
    &&& hint_mask(p, hints[3].1, -1, -1)
}

/// The hints of one axis: `shift` is the distance between neighbours along
/// it and `mask` its inner cells.
fn calc_legal(
    white: u64,
    black: u64,
    shift: u64,
    mask: u64,
    blank: u64,
    Ghost(p): Ghost<Position>,
    Ghost(dr): Ghost<int>,
    Ghost(dc): Ghost<int>,
) -> (h: (u64, u64))
    requires
        is_direction(dr, dc),
        shift == 8 * dr + dc,
        0 < shift < 64,
        mask_fits(mask, dr, dc),
        blank == !(black | white),
        p.mover == cells(black),
        p.opponent == cells(white),
    ensures
        hint_mask(p, h.0, dr, dc),
        hint_mask(p, h.1, -dr, -dc),
{
    let w = white & mask;
    let t1 = spread_down(black, w, shift);
    let t2 = spread_up(black, w, shift);
    let h0 = (t1 >> shift) & blank;
    let h1 = (t2 << shift) & blank;
    proof {
        lemma_shr(t1, shift);
        lemma_shl(t2, shift);
        lemma_bitwise(t1 >> shift, blank);
        lemma_bitwise(t2 << shift, blank);
        lemma_bitwise(black, white);
        lemma_bitwise(black | white, 0);
        assert forall|i: int| #[trigger] has_bit(h0, i) == hint_cell(p, i, dr, dc) by {
            if 0 <= i < 64 {
                lemma_ray_brackets(black, white, mask, p, i / 8, i % 8, dr, dc);
                assert(i + shift == cell(i / 8 + dr, i % 8 + dc));
            }
        }
        assert forall|i: int| #[trigger] has_bit(h1, i) == hint_cell(p, i, -dr, -dc) by {
            if 0 <= i < 64 {
                lemma_ray_brackets(black, white, mask, p, i / 8, i % 8, -dr, -dc);
                assert(i - shift == cell(i / 8 - dr, i % 8 - dc));
            }
        }
    }
    (h0, h1)
}

impl Board {
    /// The legal moves of the side to move, with the hints that `next` needs
    /// to apply one of them.
    pub fn legals(&self) -> (out: (u64, [(u64, u64); 4]))
        ensures
            cells(out.0) == legal_moves(self@),
            out.0 == self.legal_bits(),
            hints_of(self@, out.1),
    {
        let blank: u64 = !(self.black | self.white);
        let ghost p = self@;
        proof {
            lemma_masks();
        }
        let h0 = calc_legal(self.white, self.black, 1, MASK_H, blank, Ghost(p), Ghost(0), Ghost(1));
        let h1 = calc_legal(self.white, self.black, 8, MASK_V, blank, Ghost(p), Ghost(1), Ghost(0));
        let h2 = calc_legal(
            self.white,
            self.black,
            7,
            MASK_D,
            blank,
            Ghost(p),
            Ghost(1),
            Ghost(-1),
        );
        let h3 = calc_legal(self.white, self.black, 9, MASK_D, blank, Ghost(p), Ghost(1), Ghost(1));
        let a = h0.0 | h0.1;
        let b = h1.0 | h1.1;
        let c = h2.0 | h2.1;
        let d = h3.0 | h3.1;
        let legals = (a | b) | (c | d);
        let hints = [h0, h1, h2, h3];
        proof {
            lemma_bitwise(h0.0, h0.1);
            lemma_bitwise(h1.0, h1.1);
            lemma_bitwise(h2.0, h2.1);
            lemma_bitwise(h3.0, h3.1);
            lemma_bitwise(a, b);
            lemma_bitwise(c, d);
            lemma_bitwise(a | b, c | d);
            assert forall|i: int| has_bit(legals, i) == (0 <= i < 64 && legal_at(p, i / 8, i % 8)) by {
                if 0 <= i < 64 {
                    assert(cell(i / 8, i % 8) == i);
                    if legal_at(p, i / 8, i % 8) {
                        let (dr, dc) = choose|dr: int, dc: int|
                            is_direction(dr, dc) && #[trigger] brackets(p, i / 8, i % 8, dr, dc);
                        assert(hint_cell(p, i, dr, dc));
                    }
                }
            }
            assert(cells(legals) =~= legal_moves(p));
            let chosen = self.legal_bits();
            assert forall|i: int| 0 <= i < 64 implies has_bit(legals, i) == has_bit(chosen, i) by {
                assert(cells(legals).contains(i) == cells(chosen).contains(i));
            }
            crate::bits::lemma_same_cells(legals, chosen);
        }
        (legals, hints)
    }
}

/// The cell of a one-cell set.
pub open spec fn move_cell(mv: u64) -> int {
    u64_trailing_zeros(mv) as int
}

/// Cell `x` is one of the first `n` cells met from cell `i` in steps of `d`.
spec fn steps(i: int, d: int, n: nat, x: int) -> bool
    decreases n,
{
    n > 0 && (x == i + d || steps(i + d, d, (n - 1) as nat, x))
}

proof fn lemma_steps_on_board(r: int, c: int, dr: int, dc: int, n: nat, x: int)
    ensures
        steps(cell(r, c), 8 * dr + dc, n, x) == within_steps(r, c, dr, dc, n, x),
    decreases n,
{
    if n > 0 {
        lemma_steps_on_board(r + dr, c + dc, dr, dc, (n - 1) as nat, x);
        assert(cell(r, c) + (8 * dr + dc) == cell(r + dr, c + dc));
    }
}

/// The run of cells of `white & mask` that starts above the cell of `mv`, in
/// steps of `s`.
fn walk_up(
    white: u64,
    s: u64,
    mask: u64,
    mv: u64,
    Ghost(b): Ghost<u64>,
    Ghost(m): Ghost<int>,
    Ghost(n): Ghost<nat>,
) -> (rev: u64)
    requires
        0 < s < 64,
        0 <= m < 64,
        mv == 1u64 << (m as u64),
        b & white == 0,
        chain(b, white & mask, s as int, m + s, n),
    ensures
        forall|x: int| #[trigger] has_bit(rev, x) == steps(m, s as int, n + 1, x),
{
    let ghost d = s as int;
    let mut rev: u64 = 0;
    let mut mov: u64 = (mv << s) & mask;
    let ghost mut pos = m + d;
    let ghost mut rem: nat = n + 1;
    proof {
        lemma_single(m as u64);
        lemma_shl(mv, s);
        lemma_bitwise(mv << s, mask);
    }
    while mov != 0 && (mov & white) != 0
        invariant
            0 < s < 64,
            d == s,
            b & white == 0,
            forall|x: int| #[trigger] has_bit(mov, x) == (x == pos && has_bit(mask, x)),
            rem > 0 ==> chain(b, white & mask, d, pos, (rem - 1) as nat),
            rem == 0 ==> has_bit(b, pos),
            forall|x: int|
                (#[trigger] has_bit(rev, x) || steps(pos - d, d, rem, x)) == steps(m, d, n + 1, x),
        decreases rem,
    {
        let taken = rev | mov;
        let ahead = (mov << s) & mask;
        proof {
            lemma_walk_step(b, white, mask, mov, pos, rem);
            lemma_bitwise(rev, mov);
            lemma_shl(mov, s);
            lemma_bitwise(mov << s, mask);
            lemma_bitwise(white, mask);
            assert forall|x: int|
                (#[trigger] has_bit(taken, x) || steps(pos, d, (rem - 1) as nat, x)) == steps(
                    m,
                    d,
                    n + 1,
                    x,
                ) by {
                assert((has_bit(rev, x) || steps(pos - d, d, rem, x)) == steps(m, d, n + 1, x));
            }
            pos = pos + d;
            rem = (rem - 1) as nat;
        }
        rev = taken;
        mov = ahead;
    }
    proof {
        if rem > 0 {
            lemma_walk_step(b, white, mask, mov, pos, 0);
        }
    }
    rev
}

/// The run of cells of `white & mask` that starts below the cell of `mv`, in
/// steps of `s`.
fn walk_down(
    white: u64,
    s: u64,
    mask: u64,
    mv: u64,
    Ghost(b): Ghost<u64>,
    Ghost(m): Ghost<int>,
    Ghost(n): Ghost<nat>,
) -> (rev: u64)
    requires
        0 < s < 64,
        0 <= m < 64,
        mv == 1u64 << (m as u64),
        b & white == 0,
        chain(b, white & mask, -(s as int), m - s, n),
    ensures
        forall|x: int| #[trigger] has_bit(rev, x) == steps(m, -(s as int), n + 1, x),
{
    let ghost d = -(s as int);
    let mut rev: u64 = 0;
    let mut mov: u64 = (mv >> s) & mask;
    let ghost mut pos = m + d;
    let ghost mut rem: nat = n + 1;
    proof {
        lemma_single(m as u64);
        lemma_shr(mv, s);
        lemma_bitwise(mv >> s, mask);
    }
    while mov != 0 && (mov & white) != 0
        invariant
            0 < s < 64,
            d == -(s as int),
            b & white == 0,
            forall|x: int| #[trigger] has_bit(mov, x) == (x == pos && has_bit(mask, x)),
            rem > 0 ==> chain(b, white & mask, d, pos, (rem - 1) as nat),
            rem == 0 ==> has_bit(b, pos),
            forall|x: int|
                (#[trigger] has_bit(rev, x) || steps(pos - d, d, rem, x)) == steps(m, d, n + 1, x),
        decreases rem,
    {
        let taken = rev | mov;
        let ahead = (mov >> s) & mask;
        proof {
            lemma_walk_step(b, white, mask, mov, pos, rem);
            lemma_bitwise(rev, mov);
            lemma_shr(mov, s);
            lemma_bitwise(mov >> s, mask);
            lemma_bitwise(white, mask);
            assert forall|x: int|
                (#[trigger] has_bit(taken, x) || steps(pos, d, (rem - 1) as nat, x)) == steps(
                    m,
                    d,
                    n + 1,
                    x,
                ) by {
                assert((has_bit(rev, x) || steps(pos - d, d, rem, x)) == steps(m, d, n + 1, x));
            }
            pos = pos + d;
            rem = (rem - 1) as nat;
        }
        rev = taken;
        mov = ahead;
    }
    proof {
        if rem > 0 {
            lemma_walk_step(b, white, mask, mov, pos, 0);
        }
    }
    rev
}

/// The walk goes on exactly while the cell it looks at is a masked opponent
/// cell, and such a cell is no mover cell.
proof fn lemma_walk_step(b: u64, white: u64, mask: u64, mov: u64, pos: int, rem: nat)
    requires
        b & white == 0,
        forall|x: int| #[trigger] has_bit(mov, x) == (x == pos && has_bit(mask, x)),
    ensures
        (mov != 0 && (mov & white) != 0) == has_bit(white & mask, pos),
        has_bit(white, pos) ==> !has_bit(b, pos),
{
    lemma_zero(mov);
    lemma_zero(mov & white);
    lemma_zero(b & white);
    lemma_bitwise(mov, white);
    lemma_bitwise(white, mask);
    lemma_bitwise(b, white);
    if has_bit(white & mask, pos) {
        assert(has_bit(mov, pos));
        assert(has_bit(mov & white, pos));
    }
    assert(!has_bit(b & white, pos));
}

/// Where a run of `n` opponent stones leads to a mover stone, the cells that
/// the walk collects are the cells turned over in that direction.
proof fn lemma_walk_flips(p: Position, m: int, dr: int, dc: int, n: nat, rev: u64)
    requires
        0 <= m < 64,
        p.mover.disjoint(p.opponent),
        n >= 1,
        run_to_mover(p, m / 8, m % 8, dr, dc, n),
        forall|x: int| #[trigger] has_bit(rev, x) == steps(m, 8 * dr + dc, n, x),
    ensures
        forall|x: int| #[trigger] has_bit(rev, x) == flipped_along(p, m / 8, m % 8, dr, dc, x),
{
    let r = m / 8;
    let c = m % 8;
    assert(cell(r, c) == m);
    assert forall|x: int| #[trigger] has_bit(rev, x) == flipped_along(p, r, c, dr, dc, x) by {
        lemma_steps_on_board(r, c, dr, dc, n, x);
        if flipped_along(p, r, c, dr, dc, x) {
            let k = choose|k: nat|
                k >= 1 && #[trigger] run_to_mover(p, r, c, dr, dc, k) && within_steps(
                    r,
                    c,
                    dr,
                    dc,
                    k,
                    x,
                );
            lemma_run_unique(p, r, c, dr, dc, n, k);
        }
    }
}

/// The stones turned over along one axis by a move to the cell of `mv`.
fn calc_rev(
    white: u64,
    shift: u64,
    mask: u64,
    mv: u64,
    hint: (u64, u64),
    Ghost(p): Ghost<Position>,
    Ghost(b): Ghost<u64>,
    Ghost(dr): Ghost<int>,
    Ghost(dc): Ghost<int>,
) -> (rev: u64)
    requires
        is_direction(dr, dc),
        shift == 8 * dr + dc,
        0 < shift < 64,
        mask_fits(mask, dr, dc),
        p.mover == cells(b),
        p.opponent == cells(white),
        b & white == 0,
        popcount(mv) == 1,
        empty_at(p, move_cell(mv) / 8, move_cell(mv) % 8),
        hint_mask(p, hint.0, dr, dc),
        hint_mask(p, hint.1, -dr, -dc),
    ensures
        forall|x: int| #[trigger]
            has_bit(rev, x) == (flipped_along(p, move_cell(mv) / 8, move_cell(mv) % 8, dr, dc, x)
                || flipped_along(p, move_cell(mv) / 8, move_cell(mv) % 8, -dr, -dc, x)),
{
    let ghost m = move_cell(mv);
    let ghost r = m / 8;
    let ghost c = m % 8;
    proof {
        lemma_one_bit(mv);
        lemma_member(hint.0, m as u64);
        lemma_member(hint.1, m as u64);
        lemma_zero(b & white);
        lemma_bitwise(b, white);
        assert(p.mover.disjoint(p.opponent)) by {
            assert forall|x: int| !(p.mover.contains(x) && p.opponent.contains(x)) by {
                assert(!has_bit(b & white, x));
            }
        }
        assert(cell(r, c) == m);
    }
    let mut rev0: u64 = 0;
    if (hint.0 & mv) == mv {
        let ghost n = choose|n: nat| n >= 1 && #[trigger] run_to_mover(p, r, c, dr, dc, n);
        proof {
            lemma_chain_run(b, white, mask, p, r, c, dr, dc, (n - 1) as nat);
        }
        rev0 = walk_up(white, shift, mask, mv, Ghost(b), Ghost(m), Ghost((n - 1) as nat));
        proof {
            lemma_walk_flips(p, m, dr, dc, n, rev0);
        }
    } else {
        proof {
            lemma_zero(rev0);
            assert(!hint_cell(p, m, dr, dc));
            assert(!brackets(p, r, c, dr, dc));
        }
    }
    let mut rev1: u64 = 0;
    if (hint.1 & mv) == mv {
        let ghost n = choose|n: nat| n >= 1 && #[trigger] run_to_mover(p, r, c, -dr, -dc, n);
        proof {
            lemma_chain_run(b, white, mask, p, r, c, -dr, -dc, (n - 1) as nat);
        }
        rev1 = walk_down(white, shift, mask, mv, Ghost(b), Ghost(m), Ghost((n - 1) as nat));
        proof {
            lemma_walk_flips(p, m, -dr, -dc, n, rev1);
        }
    } else {
        proof {
            lemma_zero(rev1);
            assert(!hint_cell(p, m, -dr, -dc));
            assert(!brackets(p, r, c, -dr, -dc));
        }
    }
    proof {
        lemma_bitwise(rev0, rev1);
    }
    rev0 | rev1
}

impl Board {
    /// Places a stone of the side to move on the cell of `mv` and turns over
    /// the stones that it brackets. `hints` are those that `legals` returned
    /// for this position. The side that moved stays the mover until
    /// `exchange` is called.
    pub fn next(&mut self, mv: u64, hints: [(u64, u64); 4])
        requires
            old(self).allows(mv),
            hints_of(old(self)@, hints),
        ensures
            final(self)@ == play(old(self)@, move_cell(mv)),
            final(self).well_formed(),
            final(self)@.mover.len() + final(self)@.opponent.len() == old(self)@.mover.len() + old(
                self,
            )@.opponent.len() + 1,
            final(self).mover() & mv == mv,
    {
        proof {
            lemma_count_is_len(self.black);
            lemma_count_is_len(self.white);
        }
        let ghost p = self@;
        let ghost m = move_cell(mv);
        let black = self.black;
        let white = self.white;
        proof {
            use_type_invariant(&*self);
            lemma_masks();
            lemma_one_bit(mv);
        }
        let r0 = calc_rev(white, 1, MASK_H, mv, hints[0], Ghost(p), Ghost(black), Ghost(0), Ghost(1));
        let r1 = calc_rev(white, 8, MASK_V, mv, hints[1], Ghost(p), Ghost(black), Ghost(1), Ghost(0));
        let r2 = calc_rev(
            white,
            7,
            MASK_D,
            mv,
            hints[2],
            Ghost(p),
            Ghost(black),
            Ghost(1),
            Ghost(-1),
        );
        let r3 = calc_rev(white, 9, MASK_D, mv, hints[3], Ghost(p), Ghost(black), Ghost(1), Ghost(1));
        let rev = (r0 | r1) | (r2 | r3);
        let placed = black | mv;
        let new_black = placed | rev;
        let new_white = white ^ rev;
        proof {
            lemma_bitwise(r0, r1);
            lemma_bitwise(r2, r3);
            lemma_bitwise(r0 | r1, r2 | r3);
            lemma_bitwise(black, mv);
            lemma_bitwise(placed, rev);
            lemma_bitwise(white, rev);
            lemma_bitwise(black, white);
            lemma_bitwise(new_black, new_white);
            lemma_bitwise(new_black, mv);
            lemma_single(m as u64);
            lemma_zero(black & white);
            assert(cell(m / 8, m % 8) == m);
            assert forall|x: int| has_bit(rev, x) == flipped_at(p, m / 8, m % 8, x) by {
                if flipped_at(p, m / 8, m % 8, x) {
                    let (dr, dc) = choose|dr: int, dc: int|
                        is_direction(dr, dc) && #[trigger] flipped_along(
                            p,
                            m / 8,
                            m % 8,
                            dr,
                            dc,
                            x,
                        );
                }
            }
            assert forall|x: int| has_bit(rev, x) implies has_bit(white, x) && x != m by {
                let (dr, dc) = choose|dr: int, dc: int|
                    is_direction(dr, dc) && #[trigger] flipped_along(p, m / 8, m % 8, dr, dc, x);
                let n = choose|n: nat|
                    n >= 1 && #[trigger] run_to_mover(p, m / 8, m % 8, dr, dc, n) && within_steps(
                        m / 8,
                        m % 8,
                        dr,
                        dc,
                        n,
                        x,
                    );
                lemma_run_holds_opponent(p, m / 8, m % 8, dr, dc, n, x);
            }
            assert forall|x: int| !has_bit(black & mv, x) by {
                assert(!has_bit(black & white, x));
            }
            lemma_zero(black & mv);
            assert forall|x: int| !has_bit(placed & rev, x) by {
                assert(!has_bit(black & white, x));
                lemma_bitwise(placed, rev);
            }
            lemma_zero(placed & rev);
            assert forall|x: int| !has_bit(new_black & new_white, x) by {
                assert(!has_bit(black & white, x));
            }
            lemma_zero(new_black & new_white);
            lemma_count_disjoint(black, mv, 64);
            lemma_count_disjoint(placed, rev, 64);
            lemma_remove(white, rev);
            lemma_stones_bound(new_black, new_white);
            crate::bits::lemma_same_cells(new_black & mv, mv);
        }
        *self = Board { black: new_black, white: new_white, turns: self.turns + 1 };
        proof {
            lemma_count_is_len(new_black);
            lemma_count_is_len(new_white);
            assert(self@.mover =~= play(p, m).mover);
            assert(self@.opponent =~= play(p, m).opponent);
        }
    }
}

impl Board {
    /// Plays the move `mv` if the rules allow it, and says whether they do.
    /// A move that they do not allow leaves the board as it is.
    pub fn try_next(&mut self, mv: u64) -> (played: bool)
        ensures
            played == old(self).allows(mv),
            played ==> final(self)@ == play(old(self)@, move_cell(mv)),
            !played ==> *final(self) == *old(self),
            final(self).well_formed(),
    {
        proof {
            use_type_invariant(&*self);
        }
        if mv.count_ones() != 1 {
            return false;
        }
        let (legals, hints) = self.legals();
        proof {
            lemma_one_bit(mv);
            lemma_member(legals, move_cell(mv) as u64);
            assert(cells(legals).contains(move_cell(mv)) == has_bit(legals, move_cell(mv)));
        }
        if legals & mv != mv {
            return false;
        }
        self.next(mv, hints);
        true
    }
}

} // verus!
