//! Static evaluation: a weighted sum of position, mobility and corner
//! control, with weights that depend on the phase of the game.

use vstd::prelude::*;
use crate::bitboard::Board;
use crate::bits::{has_bit, lemma_bitwise, lemma_count_bound, popcount};

verus! {

/// The four corners of the board.
pub const CORNERS: u64 = 0x8100_0000_0000_0081;

/// The largest magnitude of a cell value, of the value of a move and of the
/// value of a corner.
pub const MAX_UNIT: i32 = 1000;

/// The largest magnitude of a phase weight.
pub const MAX_WEIGHT: i32 = 100;

/// How much each of the three terms counts in one phase of the game.
#[derive(Clone, Copy, Debug)]
pub struct PhaseWeights {
    /// The weight of the positional term.
    pub positional: i32,
    /// The weight of the mobility term.
    pub mobility: i32,
    /// The weight of the corner term.
    pub corner: i32,
}

/// The tunable parameters of the evaluation.
#[derive(Clone, Copy, Debug)]
pub struct Weights {
    /// The value of a stone on each cell.
    pub position_values: [i32; 64],
    /// The value of one legal move.
    pub mobility_unit: i32,
    /// The value of one corner.
    pub corner_unit: i32,
    /// The opening lasts while the ply counter is below this.
    pub opening_until: usize,
    /// The middle game lasts while the ply counter is below this.
    pub middle_until: usize,
    /// The weights of the opening.
    pub opening: PhaseWeights,
    /// The weights of the middle game.
    pub middle: PhaseWeights,
    /// The weights of the endgame.
    pub endgame: PhaseWeights,
}

impl PhaseWeights {
    /// No weight is larger in magnitude than `MAX_WEIGHT`.
    pub open spec fn in_range(self) -> bool {
        &&& -MAX_WEIGHT <= self.positional <= MAX_WEIGHT
        &&& -MAX_WEIGHT <= self.mobility <= MAX_WEIGHT
        &&& -MAX_WEIGHT <= self.corner <= MAX_WEIGHT
    }

    /// Whether the weights are in range.
    pub fn is_in_range(&self) -> (yes: bool)
        ensures
            yes == self.in_range(),
    {
        -MAX_WEIGHT <= self.positional && self.positional <= MAX_WEIGHT && -MAX_WEIGHT
            <= self.mobility && self.mobility <= MAX_WEIGHT && -MAX_WEIGHT <= self.corner
            && self.corner <= MAX_WEIGHT
    }
}

/// The value of a stone on each cell in the standard weights: corners are
/// worth most, the cells next to them least.
pub open spec fn standard_values() -> Seq<int> {
    seq![
        120int, -20, 20, 5, 5, 20, -20, 120,
        -20, -40, -5, -5, -5, -5, -40, -20,
        20, -5, 15, 3, 3, 15, -5, 20,
        5, -5, 3, 3, 3, 3, -5, 5,
        5, -5, 3, 3, 3, 3, -5, 5,
        20, -5, 15, 3, 3, 15, -5, 20,
        -20, -40, -5, -5, -5, -5, -40, -20,
        120, -20, 20, 5, 5, 20, -20, 120,
    ]
}

impl Weights {
    /// The parameters are small enough for every score to stay strictly
    /// between the two certain results.
    pub open spec fn in_range(self) -> bool {
        &&& forall|i: int|
            0 <= i < 64 ==> -MAX_UNIT <= #[trigger] self.position_values[i] <= MAX_UNIT
        &&& -MAX_UNIT <= self.mobility_unit <= MAX_UNIT
        &&& -MAX_UNIT <= self.corner_unit <= MAX_UNIT
        &&& self.opening.in_range()
        &&& self.middle.in_range()
        &&& self.endgame.in_range()
    }

    /// Whether the parameters are in range.
    pub fn is_in_range(&self) -> (yes: bool)
        ensures
            yes == self.in_range(),
    {
        let mut i: usize = 0;
        while i < 64
            invariant
                i <= 64,
                forall|k: int|
                    0 <= k < i ==> -MAX_UNIT <= #[trigger] self.position_values[k] <= MAX_UNIT,
            decreases 64 - i,
        {
            let v = self.position_values[i];
            if v < -MAX_UNIT || v > MAX_UNIT {
                return false;
            }
            i += 1;
        }
        -MAX_UNIT <= self.mobility_unit && self.mobility_unit <= MAX_UNIT && -MAX_UNIT
            <= self.corner_unit && self.corner_unit <= MAX_UNIT && self.opening.is_in_range()
            && self.middle.is_in_range() && self.endgame.is_in_range()
    }

    /// The weights of the phase that a ply counter falls in.
    pub open spec fn phase(self, ply: nat) -> PhaseWeights {
        if ply < self.opening_until {
            self.opening
        } else if ply < self.middle_until {
            self.middle
        } else {
            self.endgame
        }
    }

    /// The standard weights.
    pub fn standard() -> (w: Weights)
        ensures
            w.in_range(),
            forall|i: int| 0 <= i < 64 ==> w.position_values[i] == standard_values()[i],
            w.mobility_unit == 10,
            w.corner_unit == 200,
            w.opening_until == 20,
            w.middle_until == 48,
            w.opening == (PhaseWeights { positional: 2, mobility: 3, corner: 5 }),
            w.middle == (PhaseWeights { positional: 2, mobility: 2, corner: 5 }),
            w.endgame == (PhaseWeights { positional: 1, mobility: 1, corner: 10 }),
    {
        let position_values: [i32; 64] = [
            120, -20, 20, 5, 5, 20, -20, 120,
            -20, -40, -5, -5, -5, -5, -40, -20,
            20, -5, 15, 3, 3, 15, -5, 20,
            5, -5, 3, 3, 3, 3, -5, 5,
            5, -5, 3, 3, 3, 3, -5, 5,
            20, -5, 15, 3, 3, 15, -5, 20,
            -20, -40, -5, -5, -5, -5, -40, -20,
            120, -20, 20, 5, 5, 20, -20, 120,
        ];
        Weights {
            position_values,
            mobility_unit: 10,
            corner_unit: 200,
            opening_until: 20,
            middle_until: 48,
            opening: PhaseWeights { positional: 2, mobility: 3, corner: 5 },
            middle: PhaseWeights { positional: 2, mobility: 2, corner: 5 },
            endgame: PhaseWeights { positional: 1, mobility: 1, corner: 10 },
        }
    }
}

/// The values of the cells `0..k` that hold a stone of `mine`, less the
/// values of those that hold a stone of `theirs`.
pub open spec fn positional_below(values: Seq<i32>, mine: u64, theirs: u64, k: nat) -> int
    decreases k,
{
    if k == 0 {
        0
    } else {
        positional_below(values, mine, theirs, (k - 1) as nat) + if has_bit(mine, k - 1) {
            values[k - 1] as int
        } else if has_bit(theirs, k - 1) {
            -values[k - 1]
        } else {
            0
        }
    }
}

/// The positional term: cell values of the mover's stones less those of the
/// opponent's.
pub open spec fn positional(values: Seq<i32>, mine: u64, theirs: u64) -> int {
    positional_below(values, mine, theirs, 64)
}

/// The mobility term: the mover's legal moves less the opponent's, each
/// worth `unit`.
pub open spec fn mobility(my_moves: u64, their_moves: u64, unit: int) -> int {
    (popcount(my_moves) - popcount(their_moves)) * unit
}

/// The corner term: the mover's corners less the opponent's, each worth
/// `unit`.
pub open spec fn corner_control(mine: u64, theirs: u64, unit: int) -> int {
    (popcount(mine & CORNERS) - popcount(theirs & CORNERS)) * unit
}

/// The score of a position in which both sides have stones.
pub open spec fn score(w: Weights, board: Board, my_moves: u64, their_moves: u64) -> int {
    let ph = w.phase(board.ply());
    ph.positional * positional(w.position_values@, board.mover(), board.opponent()) + ph.mobility
        * mobility(my_moves, their_moves, w.mobility_unit as int) + ph.corner * corner_control(
        board.mover(),
        board.opponent(),
        w.corner_unit as int,
    )
}

/// The positional term.
pub fn evaluate_positions(my_stones: u64, opp_stones: u64, values: &[i32; 64]) -> (out: i32)
    requires
        forall|i: int| 0 <= i < 64 ==> -MAX_UNIT <= #[trigger] values[i] <= MAX_UNIT,
    ensures
        out == positional(values@, my_stones, opp_stones),
        -64 * MAX_UNIT <= out <= 64 * MAX_UNIT,
{
    let mut total: i32 = 0;
    let mut i: usize = 0;
    while i < 64
        invariant
            i <= 64,
            forall|i: int| 0 <= i < 64 ==> -MAX_UNIT <= #[trigger] values[i] <= MAX_UNIT,
            total == positional_below(values@, my_stones, opp_stones, i as nat),
            -1000 * i <= total <= 1000 * i,
        decreases 64 - i,
    {
        let pos: u64 = 1u64 << (i as u64);
        proof {
            crate::bits::lemma_member(my_stones, i as u64);
            crate::bits::lemma_member(opp_stones, i as u64);
            assert(-MAX_UNIT <= values[i as int] <= MAX_UNIT);
        }
        if (my_stones & pos) != 0 {
            total = total + values[i];
        } else if (opp_stones & pos) != 0 {
            total = total - values[i];
        }
        i += 1;
    }
    total
}

/// The mobility term.
pub fn evaluate_mobility(my_moves: u64, opp_moves: u64, unit: i32) -> (out: i32)
    requires
        -MAX_UNIT <= unit <= MAX_UNIT,
    ensures
        out == mobility(my_moves, opp_moves, unit as int),
        -64 * MAX_UNIT <= out <= 64 * MAX_UNIT,
{
    let mine: i32 = my_moves.count_ones() as i32;
    let theirs: i32 = opp_moves.count_ones() as i32;
    proof {
        lemma_count_bound(my_moves, 64);
        lemma_count_bound(opp_moves, 64);
        lemma_product_bound(mine - theirs, unit as int, 64, MAX_UNIT as int);
    }
    (mine - theirs) * unit
}

/// The corner term.
pub fn evaluate_confirmed_stones(my_stones: u64, opp_stones: u64, unit: i32) -> (out: i32)
    requires
        -MAX_UNIT <= unit <= MAX_UNIT,
    ensures
        out == corner_control(my_stones, opp_stones, unit as int),
        -4 * MAX_UNIT <= out <= 4 * MAX_UNIT,
{
    let mine: i32 = (my_stones & CORNERS).count_ones() as i32;
    let theirs: i32 = (opp_stones & CORNERS).count_ones() as i32;
    proof {
        lemma_corner_count(my_stones);
        lemma_corner_count(opp_stones);
        lemma_product_bound(mine - theirs, unit as int, 4, MAX_UNIT as int);
    }
    (mine - theirs) * unit
}

/// A set holds at most four corners.
proof fn lemma_corner_count(x: u64)
    ensures
        popcount(x & CORNERS) <= 4,
{
    lemma_bitwise(x, CORNERS);
    lemma_corners();
    lemma_few(x & CORNERS, 64);
}

proof fn lemma_corners()
    ensures
        forall|i: int| has_bit(CORNERS, i) == (i == 0 || i == 7 || i == 56 || i == 63),
{
    assert forall|i: int| has_bit(CORNERS, i) == (i == 0 || i == 7 || i == 56 || i == 63) by {
        if 0 <= i < 64 {
            bv_corners(i as u64);
        }
    }
}

proof fn bv_corners(i: u64)
    by (bit_vector)
    requires
        i < 64,
    ensures
        ((0x8100_0000_0000_0081u64 >> i) & 1 == 1) == (i == 0 || i == 7 || i == 56 || i == 63),
{
}

proof fn lemma_few(x: u64, k: nat)
    requires
        forall|i: int| has_bit(x, i) ==> (i == 0 || i == 7 || i == 56 || i == 63),
    ensures
        crate::bits::count_below(x, k) <= (if k > 0 { 1nat } else { 0 }) + (if k > 7 { 1nat } else { 0 }) + (if k > 56 { 1nat } else { 0 }) + (if k > 63 { 1nat } else { 0 }),
    decreases k,
{
    if k > 0 {
        lemma_few(x, (k - 1) as nat);
    }
}

/// The value of a position for the side to move: a certain win where the
/// opponent has no stone left, a certain loss where the mover has none, and
/// the weighted score otherwise.
pub open spec fn evaluation(w: Weights, board: Board, my_moves: u64, their_moves: u64) -> int {
    if board.opponent() == 0 {
        Board::MAX_EVAL as int
    } else if board.mover() == 0 {
        -Board::MAX_EVAL
    } else {
        score(w, board, my_moves, their_moves)
    }
}

/// The value of a finished game for the side to move: a certain win with
/// more stones than the opponent, a certain loss with fewer, zero with as
/// many.
pub open spec fn final_value(board: Board) -> int {
    if board@.mover.len() > board@.opponent.len() {
        Board::MAX_EVAL as int
    } else if board@.mover.len() < board@.opponent.len() {
        -Board::MAX_EVAL
    } else {
        0
    }
}

proof fn lemma_positional_bound(values: Seq<i32>, mine: u64, theirs: u64, k: nat)
    requires
        values.len() == 64,
        k <= 64,
        forall|i: int| 0 <= i < 64 ==> -MAX_UNIT <= #[trigger] values[i] <= MAX_UNIT,
    ensures
        -1000 * k <= positional_below(values, mine, theirs, k) <= 1000 * k,
    decreases k,
{
    if k > 0 {
        lemma_positional_bound(values, mine, theirs, (k - 1) as nat);
    }
}

/// With parameters in range, every score lies strictly between the two
/// certain results, and so every value lies between them.
pub proof fn lemma_score_bounds(w: Weights, board: Board, my_moves: u64, their_moves: u64)
    requires
        w.in_range(),
    ensures
        -Board::MAX_EVAL < score(w, board, my_moves, their_moves) < Board::MAX_EVAL,
        -Board::MAX_EVAL <= evaluation(w, board, my_moves, their_moves) <= Board::MAX_EVAL,
        -Board::MAX_EVAL <= final_value(board) <= Board::MAX_EVAL,
{
    let ph = w.phase(board.ply());
    let p = positional(w.position_values@, board.mover(), board.opponent());
    let m = mobility(my_moves, their_moves, w.mobility_unit as int);
    let c = corner_control(board.mover(), board.opponent(), w.corner_unit as int);
    lemma_positional_bound(w.position_values@, board.mover(), board.opponent(), 64);
    lemma_count_bound(my_moves, 64);
    lemma_count_bound(their_moves, 64);
    lemma_corner_count(board.mover());
    lemma_corner_count(board.opponent());
    lemma_product_bound(
        popcount(my_moves) - popcount(their_moves),
        w.mobility_unit as int,
        64,
        MAX_UNIT as int,
    );
    lemma_product_bound(
        popcount(board.mover() & CORNERS) - popcount(board.opponent() & CORNERS),
        w.corner_unit as int,
        4,
        MAX_UNIT as int,
    );
    lemma_product_bound(ph.positional as int, p, MAX_WEIGHT as int, 64 * MAX_UNIT);
    lemma_product_bound(ph.mobility as int, m, MAX_WEIGHT as int, 64 * MAX_UNIT);
    lemma_product_bound(ph.corner as int, c, MAX_WEIGHT as int, 4 * MAX_UNIT);
}

proof fn lemma_product_bound(a: int, b: int, ma: int, mb: int)
    requires
        -ma <= a <= ma,
        -mb <= b <= mb,
    ensures
        -ma * mb <= a * b <= ma * mb,
{
    assert(-ma * mb <= a * b <= ma * mb) by (nonlinear_arith)
        requires
            -ma <= a <= ma,
            -mb <= b <= mb,
    ;
}

/// The score of a position in which both sides have stones: the three
/// terms, each weighted for the phase that the ply counter falls in.
pub fn evaluate_board(board: &Board, black_moves: u64, white_moves: u64, weights: &Weights) -> (out:
    i32)
    requires
        weights.in_range(),
    ensures
        out == score(*weights, *board, black_moves, white_moves),
        -Board::MAX_EVAL < out < Board::MAX_EVAL,
{
    let my_stones = board.get_black();
    let opp_stones = board.get_white();
    let position_score = evaluate_positions(my_stones, opp_stones, &weights.position_values);
    let mobility_score = evaluate_mobility(black_moves, white_moves, weights.mobility_unit);
    let confirmed_score = evaluate_confirmed_stones(my_stones, opp_stones, weights.corner_unit);
    let turn = board.turns();
    let ph = if turn < weights.opening_until {
        weights.opening
    } else if turn < weights.middle_until {
        weights.middle
    } else {
        weights.endgame
    };
    proof {
        lemma_product_bound(ph.positional as int, position_score as int, MAX_WEIGHT as int, 64 * MAX_UNIT);
        lemma_product_bound(ph.mobility as int, mobility_score as int, MAX_WEIGHT as int, 64 * MAX_UNIT);
        lemma_product_bound(ph.corner as int, confirmed_score as int, MAX_WEIGHT as int, 4 * MAX_UNIT);
    }
    ph.positional * position_score + ph.mobility * mobility_score + ph.corner * confirmed_score
}

} // verus!
