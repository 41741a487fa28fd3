//! The searcher with what it keeps from search to search: the opening
//! book, the weights of the evaluation and the transposition table.

use rand::rngs::StdRng;
use vstd::prelude::*;
use crate::bitboard::{hints_of, Board};
use crate::book::Book;
use crate::evaluator::Weights;
use crate::search::{
    bounded, coherent, depth_for, is_best, lemma_coherent_later, lemma_empty_coherent, search,
    search_depth,
};
use crate::transposition::{TableEntry, TranspositionTable};

verus! {

/// A searcher. It keeps its table fit for the search at hand: a table whose
/// entries come from a search that looked further ahead than the next one
/// is to look is emptied before that search.
pub struct Searcher {
    book: Book,
    weights: Weights,
    table: TranspositionTable,
    budget: usize,
}

impl Searcher {
    #[verifier::type_invariant]
    spec fn fit(&self) -> bool {
        &&& self.weights.in_range()
        &&& bounded(self.table@)
        &&& coherent(self.weights, self.table@, self.budget as int)
    }

    /// The opening book of the searcher.
    pub closed spec fn book(&self) -> Book {
        self.book
    }

    /// The weights of the searcher.
    pub closed spec fn weights(&self) -> Weights {
        self.weights
    }

    /// What the table of the searcher holds.
    pub closed spec fn table(&self) -> Map<(u64, u64), TableEntry> {
        self.table@
    }

    /// A searcher with an empty table, if the weights are in range.
    pub fn new(book: Book, weights: Weights) -> (out: Option<Searcher>)
        ensures
            out is Some == weights.in_range(),
            out matches Some(s) ==> s.book() == book && s.weights() == weights,
    {
        if weights.is_in_range() {
            proof {
                lemma_empty_coherent(weights, 0);
            }
            Some(Searcher { book, weights, table: TranspositionTable::new(), budget: 0 })
        } else {
            None
        }
    }

    /// Empties the table, as is due between two games.
    pub fn reset(&mut self)
        ensures
            final(self).table() == Map::<(u64, u64), TableEntry>::empty(),
            final(self).book() == old(self).book(),
            final(self).weights() == old(self).weights(),
    {
        proof {
            use_type_invariant(&*self);
            lemma_empty_coherent(self.weights, self.budget as int);
        }
        self.table = TranspositionTable::new();
    }

    /// The move to play on `board`, with the hints that go with the board:
    /// the move of the opening book where it has one, and a pass, written as
    /// the empty set, where no move is legal. Else the move is a legal move,
    /// and no legal move is worth more, looking as far ahead as `depth_for`
    /// says for the positions after the moves, and one ply more for the move
    /// itself.
    pub fn search(
        &mut self,
        board: &Board,
        depth: usize,
        time_level: usize,
        rng: &mut StdRng,
    ) -> (out: (u64, [(u64, u64); 4]))
        requires
            2 * time_level <= depth,
            depth + 66 <= usize::MAX,
        ensures
            final(self).book() == old(self).book(),
            final(self).weights() == old(self).weights(),
            hints_of(board@, out.1),
            old(self).book()@.contains_key(board.key()) ==> out.0 == old(self).book()@[board.key()],
            board.legal_bits() == 0 ==> out.0 == 0,
            board.legal_bits() != 0 ==> board.allows(out.0),
            !old(self).book()@.contains_key(board.key()) && board.legal_bits() != 0 ==> is_best(
                old(self).weights(),
                *board,
                (depth_for(board.ply() + 1, depth as nat, time_level as nat) + 1) as nat,
                out.0,
            ),
    {
        proof {
            use_type_invariant(&*self);
        }
        let below = search_depth(board.turns() + 1, depth, time_level);
        let budget = below + board.turns() + 1;
        proof {
            lemma_empty_coherent(self.weights, budget as int);
        }
        if budget < self.budget {
            self.table = TranspositionTable::new();
        } else if budget > self.budget {
            proof {
                lemma_coherent_later(self.weights, self.table@, self.budget as int, budget as int);
            }
        }
        self.budget = budget;
        let mut table = TranspositionTable::new();
        core::mem::swap(&mut self.table, &mut table);
        let out = search(board, depth, time_level, &self.book, &self.weights, &mut table, rng);
        core::mem::swap(&mut self.table, &mut table);
        out
    }
}

} // verus!
