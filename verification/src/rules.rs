//! The rules of Reversi on an abstract 8×8 board.
//!
//! A cell is a pair of a row and a column, both in `0..8`, and its index is
//! `8 * row + column`. A position is seen from the side that is to move.

use vstd::prelude::*;

verus! {

/// A position: the cells of the side to move, the cells of the other side,
/// and the number of plies played.
pub struct Position {
    pub mover: Set<int>,
    pub opponent: Set<int>,
    pub ply: nat,
}

/// Row `r` and column `c` name a cell of the board.
pub open spec fn on_board(r: int, c: int) -> bool {
    0 <= r < 8 && 0 <= c < 8
}

/// The index of the cell in row `r` and column `c`.
pub open spec fn cell(r: int, c: int) -> int {
    8 * r + c
}

/// One of the eight directions in which a line of stones can run.
pub open spec fn is_direction(dr: int, dc: int) -> bool {
    -1 <= dr <= 1 && -1 <= dc <= 1 && !(dr == 0 && dc == 0)
}

/// The cell at `(r, c)` holds no stone.
pub open spec fn empty_at(p: Position, r: int, c: int) -> bool {
    !p.mover.contains(cell(r, c)) && !p.opponent.contains(cell(r, c))
}

/// Walking from `(r, c)` in direction `(dr, dc)`, the next `n` cells hold
/// opponent stones and the cell after them holds a mover stone.
pub open spec fn run_to_mover(p: Position, r: int, c: int, dr: int, dc: int, n: nat) -> bool
    decreases n,
{
    let r1 = r + dr;
    let c1 = c + dc;
    on_board(r1, c1) && if n == 0 {
        p.mover.contains(cell(r1, c1))
    } else {
        p.opponent.contains(cell(r1, c1)) && run_to_mover(p, r1, c1, dr, dc, (n - 1) as nat)
    }
}

/// A stone placed at `(r, c)` would bracket a run of at least one opponent
/// stone in direction `(dr, dc)`.
pub open spec fn brackets(p: Position, r: int, c: int, dr: int, dc: int) -> bool {
    exists|n: nat| n >= 1 && #[trigger] run_to_mover(p, r, c, dr, dc, n)
}

/// The mover may place a stone at `(r, c)`: the cell is empty and the stone
/// would bracket opponent stones in some direction.
pub open spec fn legal_at(p: Position, r: int, c: int) -> bool {
    on_board(r, c) && empty_at(p, r, c) && exists|dr: int, dc: int|
        is_direction(dr, dc) && #[trigger] brackets(p, r, c, dr, dc)
}

/// The cells where the mover may place a stone.
pub open spec fn legal_moves(p: Position) -> Set<int> {
    Set::new(|i: int| 0 <= i < 64 && legal_at(p, i / 8, i % 8))
}

/// Cell `x` is one of the first `n` cells met walking from `(r, c)` in
/// direction `(dr, dc)`.
pub open spec fn within_steps(r: int, c: int, dr: int, dc: int, n: nat, x: int) -> bool
    decreases n,
{
    n > 0 && (x == cell(r + dr, c + dc) || within_steps(
        r + dr,
        c + dc,
        dr,
        dc,
        (n - 1) as nat,
        x,
    ))
}

/// Cell `x` lies on the run of opponent stones between `(r, c)` and a mover
/// stone in direction `(dr, dc)`.
pub open spec fn flipped_along(p: Position, r: int, c: int, dr: int, dc: int, x: int) -> bool {
    exists|n: nat|
        n >= 1 && #[trigger] run_to_mover(p, r, c, dr, dc, n) && within_steps(r, c, dr, dc, n, x)
}

/// Cell `x` lies on a run of opponent stones between `(r, c)` and a mover
/// stone, in some direction.
pub open spec fn flipped_at(p: Position, r: int, c: int, x: int) -> bool {
    exists|dr: int, dc: int| is_direction(dr, dc) && #[trigger] flipped_along(p, r, c, dr, dc, x)
}

/// The stones that a move to cell `m` turns over.
pub open spec fn flips(p: Position, m: int) -> Set<int> {
    Set::new(|x: int| flipped_at(p, m / 8, m % 8, x))
}

/// The position after the mover has placed a stone on cell `m`, still seen
/// from the side that moved.
pub open spec fn play(p: Position, m: int) -> Position {
    Position {
        mover: p.mover.union(flips(p, m)).insert(m),
        opponent: p.opponent.difference(flips(p, m)),
        ply: p.ply + 1,
    }
}

/// The same position seen from the other side.
pub open spec fn exchanged(p: Position) -> Position {
    Position { mover: p.opponent, opponent: p.mover, ply: p.ply }
}

/// The standard starting position.
pub open spec fn start() -> Position {
    Position { mover: set![28int, 35int], opponent: set![27int, 36int], ply: 4 }
}

/// A run that starts on the board ends on it, so it holds at most six stones.
pub proof fn lemma_run_length(p: Position, r: int, c: int, dr: int, dc: int, n: nat)
    requires
        on_board(r, c),
        is_direction(dr, dc),
        run_to_mover(p, r, c, dr, dc, n),
    ensures
        n <= 6,
        dr == 1 ==> r + n + 1 <= 7,
        dr == -1 ==> r - n - 1 >= 0,
        dc == 1 ==> c + n + 1 <= 7,
        dc == -1 ==> c - n - 1 >= 0,
    decreases n,
{
    if n > 0 {
        lemma_run_length(p, r + dr, c + dc, dr, dc, (n - 1) as nat);
    }
}

/// Where no cell holds stones of both sides, the run in a direction has one
/// length only.
pub proof fn lemma_run_unique(p: Position, r: int, c: int, dr: int, dc: int, n: nat, k: nat)
    requires
        p.mover.disjoint(p.opponent),
        run_to_mover(p, r, c, dr, dc, n),
        run_to_mover(p, r, c, dr, dc, k),
    ensures
        n == k,
    decreases n,
{
    if n > 0 && k > 0 {
        lemma_run_unique(p, r + dr, c + dc, dr, dc, (n - 1) as nat, (k - 1) as nat);
    }
}

/// A run of opponent stones holds opponent stones only.
pub proof fn lemma_run_holds_opponent(
    p: Position,
    r: int,
    c: int,
    dr: int,
    dc: int,
    n: nat,
    x: int,
)
    requires
        run_to_mover(p, r, c, dr, dc, n),
        within_steps(r, c, dr, dc, n, x),
    ensures
        p.opponent.contains(x),
    decreases n,
{
    if x != cell(r + dr, c + dc) {
        lemma_run_holds_opponent(p, r + dr, c + dc, dr, dc, (n - 1) as nat, x);
    }
}

} // verus!
