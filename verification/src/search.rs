//! The searcher: the opening book first, then alpha-beta search over the
//! legal moves in a random order, with the transposition table.

use rand::rngs::StdRng;
use rand::Rng;
use vstd::prelude::*;
use crate::bitboard::{hints_of, move_cell, Board};
use crate::bits::{
    cells, count_below, has_bit, lemma_count_single, lemma_count_zero, lemma_one_bit, lemma_single,
    lemma_zero,
};
use crate::book::Book;
use crate::evaluator::{evaluation, final_value, Weights};
use crate::minimax::{
    best_below, lemma_best_is_above, lemma_best_is_below, lemma_move_bounds, move_value, value,
};
use crate::rules::legal_moves;
use crate::transposition::{NodeType, TableEntry, TranspositionTable};

verus! {

/// The random number generator `rand::rngs::StdRng`, carried through the
/// search as it is: nothing is known of its state.
#[verifier::external_type_specification]
#[verifier::external_body]
pub struct ExStdRng(rand::rngs::StdRng);

/// `Rng::gen::<usize>` on a `StdRng`: the next number that the generator
/// gives. Nothing is claimed of the number.
#[verifier::external_body]
fn draw(rng: &mut StdRng) -> (out: usize) {
    rng.gen::<usize>()
}

/// Above this ply counter the search goes to the end of the game.
pub const EXHAUSTIVE_AFTER: usize = 46;

/// A depth that no game exceeds.
pub const EXHAUSTIVE_DEPTH: usize = 64;

/// The depth to search to below a position with ply counter `ply`: to the
/// end of the game late in the game, and before that the budget less two
/// plies for each level of time pressure.
pub open spec fn depth_for(ply: nat, depth_budget: nat, time_level: nat) -> int {
    if ply > EXHAUSTIVE_AFTER {
        EXHAUSTIVE_DEPTH as int
    } else {
        depth_budget - 2 * time_level
    }
}

/// The depth to search to below a position with ply counter `turns`.
pub fn search_depth(turns: usize, depth: usize, time_level: usize) -> (out: usize)
    requires
        2 * time_level <= depth,
    ensures
        out == depth_for(turns as nat, depth as nat, time_level as nat),
{
    if turns > EXHAUSTIVE_AFTER {
        EXHAUSTIVE_DEPTH
    } else {
        depth - time_level * 2
    }
}

/// What a table entry lets the search do at a node.
#[derive(Clone, Copy, PartialEq, Eq, Structural, Debug)]
pub enum Cut {
    /// The node is settled with this score.
    Return(i32),
    /// The node is searched, with this lower bound of the window.
    Search(i32),
}

/// What the entry found for a node lets the search do. An entry of a
/// shallower search is of no use. An exact score settles the node. A lower
/// bound settles it where it reaches `beta`, and else may raise `alpha`. An
/// upper bound settles it where it does not exceed `alpha`.
pub open spec fn cut_of(found: Option<TableEntry>, depth: usize, alpha: i32, beta: i32) -> Cut {
    match found {
        Some(entry) => if entry.depth >= depth {
            match entry.node_type {
                NodeType::Exact => Cut::Return(entry.score),
                NodeType::LowerBound => if entry.score >= beta {
                    Cut::Return(beta)
                } else if entry.score > alpha {
                    Cut::Search(entry.score)
                } else {
                    Cut::Search(alpha)
                },
                NodeType::UpperBound => if entry.score <= alpha {
                    Cut::Return(alpha)
                } else {
                    Cut::Search(alpha)
                },
            }
        } else {
            Cut::Search(alpha)
        },
        None => Cut::Search(alpha),
    }
}

/// What the entry found for a node lets the search do.
pub fn table_cut(found: Option<TableEntry>, depth: usize, alpha: i32, beta: i32) -> (cut: Cut)
    ensures
        cut == cut_of(found, depth, alpha, beta),
{
    match found {
        Some(entry) => {
            if entry.depth >= depth {
                match entry.node_type {
                    NodeType::Exact => Cut::Return(entry.score),
                    NodeType::LowerBound => {
                        if entry.score >= beta {
                            Cut::Return(beta)
                        } else if entry.score > alpha {
                            Cut::Search(entry.score)
                        } else {
                            Cut::Search(alpha)
                        }
                    },
                    NodeType::UpperBound => {
                        if entry.score <= alpha {
                            Cut::Return(alpha)
                        } else {
                            Cut::Search(alpha)
                        }
                    },
                }
            } else {
                Cut::Search(alpha)
            }
        },
        None => Cut::Search(alpha),
    }
}

/// What the best score found at a node says of its value: an upper bound
/// where it did not exceed the lower end of the window, a lower bound where
/// it reached the upper end, and the value itself in between.
pub open spec fn kind_of(best: i32, alpha: i32, beta: i32) -> NodeType {
    if best <= alpha {
        NodeType::UpperBound
    } else if best >= beta {
        NodeType::LowerBound
    } else {
        NodeType::Exact
    }
}

/// What the best score found at a node says of its value.
pub fn node_kind(best: i32, alpha: i32, beta: i32) -> (kind: NodeType)
    ensures
        kind == kind_of(best, alpha, beta),
{
    if best <= alpha {
        NodeType::UpperBound
    } else if best >= beta {
        NodeType::LowerBound
    } else {
        NodeType::Exact
    }
}

/// The one-cell sets of the cells of `legal` below `k`, lowest cell first.
pub open spec fn moves_below(legal: u64, k: nat) -> Seq<u64>
    decreases k,
{
    if k == 0 {
        Seq::empty()
    } else if has_bit(legal, k - 1) {
        moves_below(legal, (k - 1) as nat).push(1u64 << ((k - 1) as u64))
    } else {
        moves_below(legal, (k - 1) as nat)
    }
}

/// There are as many moves as cells, and each is the one-cell set of a cell
/// of `legal`.
pub proof fn lemma_moves_below(legal: u64, k: nat)
    requires
        k <= 64,
    ensures
        moves_below(legal, k).len() == count_below(legal, k),
        forall|j: int|
            0 <= j < moves_below(legal, k).len() ==> {
                let mv = #[trigger] moves_below(legal, k)[j];
                &&& crate::bits::popcount(mv) == 1
                &&& 0 <= move_cell(mv) < k
                &&& has_bit(legal, move_cell(mv))
            },
        forall|m: int|
            0 <= m < k && has_bit(legal, m) ==> moves_below(legal, k).contains(
                #[trigger] (1u64 << (m as u64)),
            ),
    decreases k,
{
    if k > 0 {
        lemma_moves_below(legal, (k - 1) as nat);
        if has_bit(legal, k - 1) {
            let mv = 1u64 << ((k - 1) as u64);
            lemma_count_single((k - 1) as u64);
            lemma_one_bit(mv);
            lemma_single((k - 1) as u64);
        }
        let before = moves_below(legal, (k - 1) as nat);
        let now = moves_below(legal, k);
        assert forall|m: int| 0 <= m < k && has_bit(legal, m) implies now.contains(
            #[trigger] (1u64 << (m as u64)),
        ) by {
            if m < k - 1 {
                let j = choose|j: int| 0 <= j < before.len() && before[j] == 1u64 << (m as u64);
                assert(now[j] == 1u64 << (m as u64));
            } else {
                assert(now[now.len() - 1] == 1u64 << (m as u64));
            }
        }
    }
}

/// The legal moves one by one, lowest cell first.
pub fn candidate_moves(legal: u64) -> (mvs: Vec<u64>)
    ensures
        mvs@ == moves_below(legal, 64),
{
    let mut mvs: Vec<u64> = Vec::new();
    let mut i: u64 = 0;
    while i < 64
        invariant
            i <= 64,
            mvs@ == moves_below(legal, i as nat),
        decreases 64 - i,
    {
        let mv = 1u64 << i;
        proof {
            crate::bits::lemma_member(legal, i);
        }
        if legal & mv == mv {
            mvs.push(mv);
        }
        i += 1;
    }
    mvs
}

/// The sequence with the items at `i` and `j` in each other's place.
pub open spec fn exchanged_at(s: Seq<u64>, i: int, j: int) -> Seq<u64> {
    s.update(i, s[j]).update(j, s[i])
}

/// One step of the shuffle: the item at `i` changes places with one of the
/// items from `i` on, picked by the number drawn.
pub fn swap_pick(mvs: &mut Vec<u64>, i: usize, drawn: usize)
    requires
        i < old(mvs)@.len(),
    ensures
        final(mvs)@ == exchanged_at(
            old(mvs)@,
            i as int,
            i + drawn % ((old(mvs)@.len() - i) as usize),
        ),
        final(mvs)@.to_multiset() == old(mvs)@.to_multiset(),
{
    let n = mvs.len();
    let j = i + drawn % (n - i);
    let a = mvs[i];
    let b = mvs[j];
    proof {
        vstd::seq_lib::to_multiset_update(mvs@, i as int, b);
        vstd::seq_lib::to_multiset_update(mvs@.update(i as int, b), j as int, a);
        vstd::seq_lib::to_multiset_contains(mvs@, a);
        vstd::seq_lib::to_multiset_contains(mvs@, b);
        assert(mvs@.contains(a));
        assert(mvs@.contains(b));
        assert(mvs@.to_multiset().insert(b).remove(a).insert(a).remove(b) =~= mvs@.to_multiset());
    }
    mvs.set(i, b);
    mvs.set(j, a);
}

/// Puts the moves in a random order.
fn shuffle(mvs: &mut Vec<u64>, rng: &mut StdRng)
    ensures
        final(mvs)@.to_multiset() == old(mvs)@.to_multiset(),
        final(mvs)@.len() == old(mvs)@.len(),
{
    let n = mvs.len();
    let mut i: usize = 0;
    while n - i > 1
        invariant
            i <= n,
            mvs@.len() == n,
            mvs@.to_multiset() == old(mvs)@.to_multiset(),
        decreases n - i,
    {
        let drawn = draw(rng);
        swap_pick(mvs, i, drawn);
        i += 1;
    }
}

/// Every score of the table can be negated.
pub open spec fn bounded(table: Map<(u64, u64), TableEntry>) -> bool {
    forall|key: (u64, u64)| #[trigger]
        table.contains_key(key) ==> -Board::MAX_EVAL <= table[key].score <= Board::MAX_EVAL
}

/// The table `after` holds an entry wherever `before` does, and none of a
/// shallower search.
pub open spec fn grown(
    before: Map<(u64, u64), TableEntry>,
    after: Map<(u64, u64), TableEntry>,
) -> bool {
    forall|key: (u64, u64)| #[trigger]
        before.contains_key(key) ==> after.contains_key(key) && after[key].depth
            >= before[key].depth
}

/// The table entry for a board, if there is one.
pub open spec fn entry_for(table: Map<(u64, u64), TableEntry>, board: Board) -> Option<
    TableEntry,
> {
    if table.contains_key(board.key()) {
        Some(table[board.key()])
    } else {
        None
    }
}

/// The value of a node that is settled without looking at its children: by
/// the table; or, with no legal move after a pass, as a finished game; or,
/// with a legal move at depth zero, by the static evaluation.
pub open spec fn settled(
    board: Board,
    alpha: i32,
    beta: i32,
    depth: usize,
    pass: bool,
    weights: Weights,
    table: Map<(u64, u64), TableEntry>,
) -> Option<int> {
    match cut_of(entry_for(table, board), depth, alpha, beta) {
        Cut::Return(score) => Some(score as int),
        Cut::Search(_) => if board.legal_bits() == 0 {
            if pass {
                Some(final_value(board))
            } else {
                None
            }
        } else if depth == 0 {
            Some(evaluation(weights, board, board.legal_bits(), board.swapped().legal_bits()))
        } else {
            None
        },
    }
}

/// The candidate moves of a board with legal moves: each is a move that the
/// board allows, and there is at least one.
proof fn lemma_candidates(board: Board, legal: u64)
    requires
        legal == board.legal_bits(),
        cells(legal) == legal_moves(board@),
        legal != 0,
    ensures
        moves_below(legal, 64).len() > 0,
        forall|j: int|
            0 <= j < moves_below(legal, 64).len() ==> board.allows(
                #[trigger] moves_below(legal, 64)[j],
            ),
        forall|m: int|
            legal_moves(board@).contains(m) ==> moves_below(legal, 64).contains(
                #[trigger] (1u64 << (m as u64)),
            ),
{
    lemma_moves_below(legal, 64);
    assert forall|m: int| legal_moves(board@).contains(m) implies moves_below(legal, 64).contains(
        #[trigger] (1u64 << (m as u64)),
    ) by {
        assert(cells(legal).contains(m));
    }
    lemma_count_zero(legal);
    assert forall|j: int| 0 <= j < moves_below(legal, 64).len() implies board.allows(
        #[trigger] moves_below(legal, 64)[j],
    ) by {
        let mv = moves_below(legal, 64)[j];
        assert(cells(legal).contains(move_cell(mv)));
    }
}

/// A reordering of moves that the board allows holds such moves only.
proof fn lemma_reordered(board: Board, before: Seq<u64>, after: Seq<u64>)
    requires
        before.to_multiset() == after.to_multiset(),
        forall|j: int| 0 <= j < before.len() ==> board.allows(#[trigger] before[j]),
    ensures
        forall|j: int| 0 <= j < after.len() ==> board.allows(#[trigger] after[j]),
        forall|mv: u64| before.contains(mv) ==> #[trigger] after.contains(mv),
{
    assert forall|mv: u64| before.contains(mv) implies #[trigger] after.contains(mv) by {
        vstd::seq_lib::to_multiset_contains(after, mv);
        vstd::seq_lib::to_multiset_contains(before, mv);
    }
    assert forall|j: int| 0 <= j < after.len() implies board.allows(#[trigger] after[j]) by {
        let mv = after[j];
        assert(after.contains(mv));
        vstd::seq_lib::to_multiset_contains(after, mv);
        vstd::seq_lib::to_multiset_contains(before, mv);
        let i = choose|i: int| 0 <= i < before.len() && before[i] == mv;
        assert(board.allows(before[i]));
    }
}

/// The legal moves of a board in a random order.
fn ordered_moves(board: &Board, legal: u64, rng: &mut StdRng) -> (mvs: Vec<u64>)
    requires
        legal == board.legal_bits(),
        cells(legal) == legal_moves(board@),
        legal != 0,
    ensures
        mvs@.len() > 0,
        forall|j: int| 0 <= j < mvs@.len() ==> board.allows(#[trigger] mvs@[j]),
        forall|m: int|
            legal_moves(board@).contains(m) ==> mvs@.contains(#[trigger] (1u64 << (m as u64))),
{
    let mut mvs = candidate_moves(legal);
    let ghost before = mvs@;
    shuffle(&mut mvs, rng);
    proof {
        lemma_candidates(*board, legal);
        lemma_reordered(*board, before, mvs@);
    }
    mvs
}

/// The score of a table entry is true of the value `v`: it is the value,
/// a lower bound of it or an upper bound of it, as its kind says.
pub open spec fn bound_holds(entry: TableEntry, v: int) -> bool {
    match entry.node_type {
        NodeType::Exact => v == entry.score,
        NodeType::LowerBound => v >= entry.score,
        NodeType::UpperBound => v <= entry.score,
    }
}

/// The table goes with a search whose depth and ply counter add up to
/// `budget` at every node: no entry is of a deeper search than the search
/// makes at the entry's position, and each entry of that very depth is for a
/// position with a legal move and is true of the position's value.
pub open spec fn coherent(w: Weights, table: Map<(u64, u64), TableEntry>, budget: int) -> bool {
    forall|key: (u64, u64)| #[trigger]
        table.contains_key(key) ==> {
            let board = Board::of_bits(key.0, key.1);
            &&& table[key].depth + board.ply() <= budget
            &&& table[key].depth + board.ply() == budget ==> board.legal_bits() != 0
                && bound_holds(table[key], value(w, board, table[key].depth as nat, false))
        }
}

/// What the result `out` of a search within the window from `alpha` to
/// `beta` tells of the value `v`: at or below `alpha` it is an upper bound,
/// at or above `beta` a lower bound, and in between the value itself.
pub open spec fn tells(out: int, v: int, alpha: int, beta: int) -> bool {
    &&& out <= alpha ==> v <= out
    &&& out >= beta ==> v >= out
    &&& alpha < out < beta ==> v == out
}

/// No legal move on `board` is worth more than the move `mv`, looking
/// `depth` plies ahead, the move included.
pub open spec fn is_best(w: Weights, board: Board, depth: nat, mv: u64) -> bool {
    forall|m: int|
        legal_moves(board@).contains(m) ==> #[trigger] move_value(w, board, depth, m)
            <= move_value(w, board, depth, move_cell(mv))
}

/// An empty table goes with every search.
pub proof fn lemma_empty_coherent(w: Weights, budget: int)
    ensures
        coherent(w, Map::<(u64, u64), TableEntry>::empty(), budget),
{
}

/// A table that goes with a search goes with every search of a larger
/// budget: to that search its entries are too shallow to be used.
pub proof fn lemma_coherent_later(
    w: Weights,
    table: Map<(u64, u64), TableEntry>,
    budget: int,
    later: int,
)
    requires
        coherent(w, table, budget),
        budget < later,
    ensures
        coherent(w, table, later),
{
}

/// What a coherent table lets the search do at a node is sound: a score
/// that settles the node tells of the node's value what a search would, and
/// a raised lower end of the window is a lower bound of the value.
pub proof fn lemma_cut(
    w: Weights,
    board: Board,
    table: Map<(u64, u64), TableEntry>,
    alpha: i32,
    beta: i32,
    depth: usize,
    pass: bool,
)
    requires
        alpha < beta,
        board.well_formed(),
        coherent(w, table, depth + board.ply()),
    ensures
        match cut_of(entry_for(table, board), depth, alpha, beta) {
            Cut::Return(score) => tells(
                score as int,
                value(w, board, depth as nat, pass),
                alpha as int,
                beta as int,
            ),
            Cut::Search(raised) => alpha <= raised < beta && (raised > alpha ==> value(
                w,
                board,
                depth as nat,
                pass,
            ) >= raised),
        },
{
    board.lemma_of_bits();
    if table.contains_key(board.key()) {
        let entry = table[board.key()];
        if entry.depth >= depth {
            assert(entry.depth == depth);
            assert(board.legal_bits() != 0);
        }
    }
}

/// The entry made of a result that tells of a value is true of the value.
pub proof fn lemma_kind(best: i32, alpha: i32, beta: i32, depth: usize, v: int)
    requires
        alpha < beta,
        tells(best as int, v, alpha as int, beta as int),
    ensures
        bound_holds(TableEntry { score: best, depth, node_type: kind_of(best, alpha, beta) }, v),
{
}

/// Keeping a true result of the search at a node keeps the table coherent.
proof fn lemma_store(
    w: Weights,
    board: Board,
    before: Map<(u64, u64), TableEntry>,
    after: Map<(u64, u64), TableEntry>,
    entry: TableEntry,
)
    requires
        board.well_formed(),
        board.legal_bits() != 0,
        coherent(w, before, entry.depth + board.ply()),
        bound_holds(entry, value(w, board, entry.depth as nat, false)),
        after == before || after == before.insert(board.key(), entry),
    ensures
        coherent(w, after, entry.depth + board.ply()),
{
    board.lemma_of_bits();
    assert forall|key: (u64, u64)| #[trigger] after.contains_key(key) implies {
        let b = Board::of_bits(key.0, key.1);
        &&& after[key].depth + b.ply() <= entry.depth + board.ply()
        &&& after[key].depth + b.ply() == entry.depth + board.ply() ==> b.legal_bits() != 0
            && bound_holds(after[key], value(w, b, after[key].depth as nat, false))
    } by {
        if key != board.key() || after == before {
            assert(before.contains_key(key));
        }
    }
}

/// The value of the move `mv` on `board`, looking `depth` plies ahead.
pub open spec fn mval(w: Weights, board: Board, depth: nat, mv: u64) -> int {
    move_value(w, board, depth, move_cell(mv))
}

/// What holds when the first `i` moves have been searched from a window
/// that began at `a0`: the lower end of the window has followed the best
/// score; while no score has reached `beta`, no move searched is worth more
/// than the best score, and a best score above `a0` is the value of a move;
/// and a score that reached `beta` is a lower bound of the value of a move.
spec fn scanned(
    w: Weights,
    board: Board,
    depth: nat,
    mvs: Seq<u64>,
    i: int,
    a0: int,
    beta: int,
    best: int,
    cur: int,
    cut: bool,
) -> bool {
    &&& cur == if best > a0 {
        best
    } else {
        a0
    }
    &&& !cut ==> cur < beta
    &&& !cut ==> forall|j: int| 0 <= j < i ==> mval(w, board, depth, #[trigger] mvs[j]) <= best
    &&& !cut && best > a0 ==> exists|j: int|
        0 <= j < i && mval(w, board, depth, #[trigger] mvs[j]) == best
    &&& cut ==> best >= beta && exists|j: int|
        0 <= j < i && mval(w, board, depth, #[trigger] mvs[j]) >= best
}

proof fn lemma_scan_step(
    w: Weights,
    board: Board,
    depth: nat,
    mvs: Seq<u64>,
    i: int,
    a0: int,
    beta: int,
    best: int,
    cur: int,
    score: int,
)
    requires
        0 <= i < mvs.len(),
        scanned(w, board, depth, mvs, i, a0, beta, best, cur, false),
        tells(score, mval(w, board, depth, mvs[i]), cur, beta),
    ensures
        ({
            let best1 = if score > best {
                score
            } else {
                best
            };
            let cur1 = if best1 > cur {
                best1
            } else {
                cur
            };
            scanned(w, board, depth, mvs, i + 1, a0, beta, best1, cur1, cur1 >= beta)
        }),
{
    let best1 = if score > best {
        score
    } else {
        best
    };
    let cur1 = if best1 > cur {
        best1
    } else {
        cur
    };
    let here = mval(w, board, depth, mvs[i]);
    if cur1 >= beta {
        assert(here >= best1);
    } else {
        assert forall|j: int| 0 <= j < i + 1 implies mval(w, board, depth, #[trigger] mvs[j])
            <= best1 by {
            if j < i {
                assert(mval(w, board, depth, mvs[j]) <= best);
            }
        }
        if best1 > a0 {
            if score > cur {
                assert(here == best1);
            } else {
                let j = choose|j: int| 0 <= j < i && mval(w, board, depth, #[trigger] mvs[j]) == best;
                assert(mval(w, board, depth, mvs[j]) == best1);
            }
        }
    }
}

/// When the scan of the moves is over, the best score tells of the value of
/// the node what a search tells, and the entry made of it is true of the
/// value.
proof fn lemma_scan_done(
    w: Weights,
    board: Board,
    depth: usize,
    mvs: Seq<u64>,
    i: int,
    alpha: i32,
    a0: int,
    beta: i32,
    best: i32,
    cur: int,
    cut: bool,
)
    requires
        depth > 0,
        board.legal_bits() != 0,
        cells(board.legal_bits()) == legal_moves(board@),
        forall|j: int| 0 <= j < mvs.len() ==> board.allows(#[trigger] mvs[j]),
        forall|m: int|
            legal_moves(board@).contains(m) ==> mvs.contains(#[trigger] (1u64 << (m as u64))),
        0 <= i <= mvs.len(),
        cut || i == mvs.len(),
        alpha <= a0 < beta,
        a0 > alpha ==> value(w, board, depth as nat, false) >= a0,
        -Board::MAX_EVAL <= best,
        scanned(w, board, depth as nat, mvs, i, a0, beta as int, best as int, cur, cut),
    ensures
        tells(best as int, value(w, board, depth as nat, false), alpha as int, beta as int),
        bound_holds(
            TableEntry { score: best, depth, node_type: kind_of(best, alpha, beta) },
            value(w, board, depth as nat, false),
        ),
{
    let d = depth as nat;
    let v = value(w, board, d, false);
    assert(v == best_below(w, board, d, 64));
    if cut {
        let j = choose|j: int| 0 <= j < i && mval(w, board, d, #[trigger] mvs[j]) >= best;
        assert(board.allows(mvs[j]));
        assert(cells(board.legal_bits()).contains(move_cell(mvs[j])));
        lemma_best_is_above(w, board, d, 64, move_cell(mvs[j]));
    } else {
        assert forall|m: int| 0 <= m < 64 && has_bit(board.legal_bits(), m) implies #[trigger] move_value(
            w,
            board,
            d,
            m,
        ) <= best by {
            assert(cells(board.legal_bits()).contains(m));
            let mv = 1u64 << (m as u64);
            assert(mvs.contains(mv));
            let j = choose|j: int| 0 <= j < mvs.len() && mvs[j] == mv;
            board.lemma_allows(m as u64);
            assert(mval(w, board, d, mvs[j]) <= best);
        }
        lemma_best_is_below(w, board, d, 64, best as int);
        if best > a0 {
            let j = choose|j: int| 0 <= j < i && mval(w, board, d, #[trigger] mvs[j]) == best;
            assert(board.allows(mvs[j]));
            assert(cells(board.legal_bits()).contains(move_cell(mvs[j])));
            lemma_best_is_above(w, board, d, 64, move_cell(mvs[j]));
        }
    }
}

/// The value of `board` for the side to move, searched `depth` plies deep
/// within the window from `alpha` to `beta`. `pass` says that the other side
/// has just passed. Results are looked up in `table` and kept there.
///
/// Whatever order the moves are searched in, the result tells of the
/// negamax value of the board what a search within the window is to tell,
/// as long as the table goes with the search.
pub fn alpha_beta(
    board: &Board,
    alpha: i32,
    beta: i32,
    depth: usize,
    pass: bool,
    weights: &Weights,
    table: &mut TranspositionTable,
    rng: &mut StdRng,
) -> (out: i32)
    requires
        -Board::MAX_EVAL <= alpha,
        -Board::MAX_EVAL <= beta,
        weights.in_range(),
        bounded(old(table)@),
    ensures
        -Board::MAX_EVAL <= out <= Board::MAX_EVAL,
        bounded(final(table)@),
        grown(old(table)@, final(table)@),
        settled(*board, alpha, beta, depth, pass, *weights, old(table)@) matches Some(settled_at)
            ==> out == settled_at && final(table)@ == old(table)@,
        alpha < beta && coherent(*weights, old(table)@, depth + board.ply()) ==> tells(
            out as int,
            value(*weights, *board, depth as nat, pass),
            alpha as int,
            beta as int,
        ) && coherent(*weights, final(table)@, depth + board.ply()),
    decreases depth, (if pass { 0int } else { 1int }),
{
    let ghost w = *weights;
    let ghost premise = alpha < beta && coherent(w, table@, depth + board.ply());
    let ghost budget = depth + board.ply();
    let ghost v = value(w, *board, depth as nat, pass);
    let key = (board.get_black(), board.get_white());
    let at_table = table_cut(table.probe(key), depth, alpha, beta);
    proof {
        use_type_invariant(board);
        if premise {
            lemma_cut(w, *board, table@, alpha, beta, depth, pass);
        }
    }
    let mut current_alpha = match at_table {
        Cut::Return(score) => {
            return score;
        },
        Cut::Search(raised) => raised,
    };
    let ghost a0 = current_alpha as int;
    let (black_mvs, hints) = board.legals();
    if black_mvs == 0 {
        if pass {
            return board.evaluate_end();
        }
        let mut new_board = *board;
        new_board.exchange();
        let below = alpha_beta(&new_board, -beta, -alpha, depth, true, weights, table, rng);
        return -below;
    }
    if depth == 0 {
        let mut new_board = *board;
        new_board.exchange();
        let (white_mvs, _) = new_board.legals();
        return board.evaluate(black_mvs, white_mvs, weights);
    }
    let mvs = ordered_moves(board, black_mvs, rng);
    let mut best_score: i32 = -Board::MAX_EVAL;
    let mut i: usize = 0;
    let mut cut = false;
    while i < mvs.len() && !cut
        invariant
            i <= mvs@.len(),
            depth > 0,
            board.well_formed(),
            budget == depth + board.ply(),
            -Board::MAX_EVAL <= beta,
            -Board::MAX_EVAL <= current_alpha <= Board::MAX_EVAL,
            -Board::MAX_EVAL <= best_score <= Board::MAX_EVAL,
            weights.in_range(),
            w == *weights,
            hints_of(board@, hints),
            forall|j: int| 0 <= j < mvs@.len() ==> board.allows(#[trigger] mvs@[j]),
            bounded(table@),
            grown(old(table)@, table@),
            premise ==> coherent(w, table@, budget),
            premise ==> scanned(
                w,
                *board,
                depth as nat,
                mvs@,
                i as int,
                a0,
                beta as int,
                best_score as int,
                current_alpha as int,
                cut,
            ),
        decreases mvs@.len() - i, (if cut { 0int } else { 1int }),
    {
        let mov = mvs[i];
        let mut new_board = *board;
        new_board.next(mov, hints);
        new_board.exchange();
        proof {
            new_board.lemma_same_view(board.after(move_cell(mov)));
        }
        let below = alpha_beta(
            &new_board,
            -beta,
            -current_alpha,
            depth - 1,
            false,
            weights,
            table,
            rng,
        );
        let score = -below;
        proof {
            if premise {
                lemma_scan_step(
                    w,
                    *board,
                    depth as nat,
                    mvs@,
                    i as int,
                    a0,
                    beta as int,
                    best_score as int,
                    current_alpha as int,
                    score as int,
                );
            }
        }
        if score > best_score {
            best_score = score;
        }
        if best_score > current_alpha {
            current_alpha = best_score;
        }
        if current_alpha >= beta {
            cut = true;
        }
        i += 1;
    }
    let entry = TableEntry { score: best_score, depth, node_type: node_kind(best_score, alpha, beta) };
    let ghost before = table@;
    proof {
        if premise {
            lemma_scan_done(
                w,
                *board,
                depth,
                mvs@,
                i as int,
                alpha,
                a0,
                beta,
                best_score,
                current_alpha as int,
                cut,
            );
        }
    }
    table.store(key, entry);
    proof {
        if premise {
            lemma_store(w, *board, before, table@, entry);
        }
    }
    best_score
}

/// The move to play on `board`: the move of the opening book where it has
/// one; a pass, written as the empty set, where no move is legal; and else
/// the legal move that scores best in an alpha-beta search, the first of
/// them in the random order of the search. The hints that go with the board
/// come with the move.
///
/// The positions after the legal moves are searched to the depth that
/// `depth_for` gives for them. As long as the table goes with that search,
/// no legal move is worth more than the move returned, whatever order the
/// moves were searched in.
pub fn search(
    board: &Board,
    depth: usize,
    time_level: usize,
    book: &Book,
    weights: &Weights,
    table: &mut TranspositionTable,
    rng: &mut StdRng,
) -> (out: (u64, [(u64, u64); 4]))
    requires
        2 * time_level <= depth,
        weights.in_range(),
        bounded(old(table)@),
    ensures
        hints_of(board@, out.1),
        book@.contains_key(board.key()) ==> out.0 == book@[board.key()] && final(table)@ == old(
            table,
        )@,
        board.legal_bits() == 0 ==> out.0 == 0 && final(table)@ == old(table)@,
        board.legal_bits() != 0 ==> board.allows(out.0),
        bounded(final(table)@),
        grown(old(table)@, final(table)@),
        ({
            let below = depth_for(board.ply() + 1, depth as nat, time_level as nat);
            !book@.contains_key(board.key()) && board.legal_bits() != 0 && coherent(
                *weights,
                old(table)@,
                below + board.ply() + 1,
            ) ==> is_best(*weights, *board, (below + 1) as nat, out.0) && coherent(
                *weights,
                final(table)@,
                below + board.ply() + 1,
            )
        }),
{
    if let Some(book_move) = book.get(board) {
        let (legals, hints) = board.legals();
        proof {
            lemma_zero(legals);
            assert(cells(legals).contains(move_cell(book_move)));
        }
        return (book_move, hints);
    }
    let (legals, hints) = board.legals();
    if legals == 0 {
        return (0, hints);
    }
    let ghost w = *weights;
    let ghost below = depth_for(board.ply() + 1, depth as nat, time_level as nat);
    let ghost budget = below + board.ply() + 1;
    let ghost premise = coherent(w, table@, budget);
    let ghost whole = (below + 1) as nat;
    let mvs = ordered_moves(board, legals, rng);
    let mut sel_mov = mvs[0];
    let mut alpha: i32 = -Board::MAX_EVAL;
    let beta: i32 = Board::MAX_EVAL;
    let mut i: usize = 0;
    let mut cut = false;
    proof {
        use_type_invariant(board);
        lemma_move_bounds(w, *board, whole, move_cell(sel_mov));
    }
    while i < mvs.len() && !cut
        invariant
            i <= mvs@.len(),
            2 * time_level <= depth,
            below == depth_for(board.ply() + 1, depth as nat, time_level as nat),
            budget == below + board.ply() + 1,
            whole == below + 1,
            board.well_formed(),
            beta == Board::MAX_EVAL,
            -Board::MAX_EVAL <= alpha <= Board::MAX_EVAL,
            cut == (alpha >= beta),
            weights.in_range(),
            w == *weights,
            hints_of(board@, hints),
            forall|j: int| 0 <= j < mvs@.len() ==> board.allows(#[trigger] mvs@[j]),
            board.allows(sel_mov),
            bounded(table@),
            grown(old(table)@, table@),
            premise ==> coherent(w, table@, budget),
            premise ==> forall|j: int|
                0 <= j < i ==> mval(w, *board, whole, #[trigger] mvs@[j]) <= alpha,
            premise ==> mval(w, *board, whole, sel_mov) >= alpha,
        decreases mvs@.len() - i, (if cut { 0int } else { 1int }),
    {
        let mov = mvs[i];
        let mut new_board = *board;
        new_board.next(mov, hints);
        new_board.exchange();
        let below_depth = search_depth(new_board.turns(), depth, time_level);
        proof {
            new_board.lemma_same_view(board.after(move_cell(mov)));
            lemma_move_bounds(w, *board, whole, move_cell(mov));
        }
        let score = -alpha_beta(&new_board, -beta, -alpha, below_depth, false, weights, table, rng);
        proof {
            if premise {
                assert(tells(score as int, mval(w, *board, whole, mov), alpha as int, beta as int));
            }
        }
        if alpha < score {
            alpha = score;
            sel_mov = mov;
        }
        if alpha >= beta {
            cut = true;
        }
        i += 1;
    }
    proof {
        if premise {
            assert forall|m: int| legal_moves(board@).contains(m) implies #[trigger] move_value(
                w,
                *board,
                whole,
                m,
            ) <= move_value(w, *board, whole, move_cell(sel_mov)) by {
                let mv = 1u64 << (m as u64);
                assert(mvs@.contains(mv));
                let j = choose|j: int| 0 <= j < mvs@.len() && mvs@[j] == mv;
                board.lemma_allows(m as u64);
                lemma_move_bounds(w, *board, whole, m);
                if j < i {
                    assert(mval(w, *board, whole, mvs@[j]) <= alpha);
                }
            }
        }
    }
    (sel_mov, hints)
}

} // verus!
