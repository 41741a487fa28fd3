//! The value of a position by depth-limited negamax: what the search is
//! held to.

use vstd::prelude::*;
use crate::bitboard::Board;
use crate::bits::has_bit;
use crate::evaluator::{evaluation, final_value, lemma_score_bounds, Weights};

verus! {

/// The value of `board` for the side to move, looking `depth` plies ahead.
/// `pass` says that the other side has just passed. With no legal move the
/// game is over after a pass, and else the move goes to the other side. With
/// a legal move the value at depth zero is the static evaluation, and
/// deeper the value of the best move.
pub open spec fn value(w: Weights, board: Board, depth: nat, pass: bool) -> int
    decreases depth, (if pass { 1int } else { 2int }), 0int,
{
    if board.legal_bits() == 0 {
        if pass {
            final_value(board)
        } else {
            -value(w, board.swapped(), depth, true)
        }
    } else if depth == 0 {
        evaluation(w, board, board.legal_bits(), board.swapped().legal_bits())
    } else {
        best_below(w, board, depth, 64)
    }
}

/// The best of the values of the legal moves to the cells below `k`, and the
/// certain loss if there is none.
pub open spec fn best_below(w: Weights, board: Board, depth: nat, k: nat) -> int
    decreases depth, 0int, k + 1,
{
    if k == 0 {
        -Board::MAX_EVAL
    } else {
        let rest = best_below(w, board, depth, (k - 1) as nat);
        if has_bit(board.legal_bits(), k - 1) && move_value(w, board, depth, k - 1) > rest {
            move_value(w, board, depth, k - 1)
        } else {
            rest
        }
    }
}

/// The value of the move to cell `m` for the side that makes it, looking
/// `depth` plies ahead, the move included: what the position after the move
/// is worth to the other side, negated. Zero at depth zero, where no move is
/// looked at.
pub open spec fn move_value(w: Weights, board: Board, depth: nat, m: int) -> int
    decreases depth, 0int, 0int,
{
    if depth == 0 {
        0
    } else {
        -value(w, board.after(m), (depth - 1) as nat, false)
    }
}

/// With a legal move, the value does not depend on whether the other side
/// has passed.
pub proof fn lemma_value_with_moves(w: Weights, board: Board, depth: nat, pass: bool)
    requires
        board.legal_bits() != 0,
    ensures
        value(w, board, depth, pass) == value(w, board, depth, false),
{
}

/// Every value lies between the certain loss and the certain win.
pub proof fn lemma_value_bounds(w: Weights, board: Board, depth: nat, pass: bool)
    requires
        w.in_range(),
    ensures
        -Board::MAX_EVAL <= value(w, board, depth, pass) <= Board::MAX_EVAL,
    decreases depth, (if pass { 1int } else { 2int }), 0int,
{
    lemma_score_bounds(w, board, board.legal_bits(), board.swapped().legal_bits());
    if board.legal_bits() == 0 {
        if !pass {
            lemma_value_bounds(w, board.swapped(), depth, true);
        }
    } else if depth > 0 {
        lemma_best_bounds(w, board, depth, 64);
    }
}

/// The best of the move values lies between the certain loss and the
/// certain win.
pub proof fn lemma_best_bounds(w: Weights, board: Board, depth: nat, k: nat)
    requires
        w.in_range(),
        depth > 0,
    ensures
        -Board::MAX_EVAL <= best_below(w, board, depth, k) <= Board::MAX_EVAL,
    decreases depth, 0int, k + 1,
{
    if k > 0 {
        lemma_best_bounds(w, board, depth, (k - 1) as nat);
        lemma_move_bounds(w, board, depth, k - 1);
    }
}

/// The value of a move lies between the certain loss and the certain win.
pub proof fn lemma_move_bounds(w: Weights, board: Board, depth: nat, m: int)
    requires
        w.in_range(),
    ensures
        -Board::MAX_EVAL <= move_value(w, board, depth, m) <= Board::MAX_EVAL,
    decreases depth, 0int, 0int,
{
    if depth > 0 {
        lemma_value_bounds(w, board.after(m), (depth - 1) as nat, false);
    }
}

/// No legal move to a cell below `k` is worth more than the best of them.
pub proof fn lemma_best_is_above(w: Weights, board: Board, depth: nat, k: nat, m: int)
    requires
        0 <= m < k,
        has_bit(board.legal_bits(), m),
    ensures
        move_value(w, board, depth, m) <= best_below(w, board, depth, k),
    decreases k,
{
    if m < k - 1 {
        lemma_best_is_above(w, board, depth, (k - 1) as nat, m);
    }
}

/// The best of the move values is no more than a bound on all of them.
pub proof fn lemma_best_is_below(w: Weights, board: Board, depth: nat, k: nat, bound: int)
    requires
        -Board::MAX_EVAL <= bound,
        forall|m: int|
            0 <= m < k && has_bit(board.legal_bits(), m) ==> #[trigger] move_value(
                w,
                board,
                depth,
                m,
            ) <= bound,
    ensures
        best_below(w, board, depth, k) <= bound,
    decreases k,
{
    if k > 0 {
        lemma_best_is_below(w, board, depth, (k - 1) as nat, bound);
        if has_bit(board.legal_bits(), k - 1) {
            assert(move_value(w, board, depth, k - 1) <= bound);
        }
    }
}

} // verus!
