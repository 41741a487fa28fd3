//! The transposition table: search results kept by position, where a result
//! of a deeper search is never given up for one of a shallower search.

use std::collections::HashMap;
use vstd::prelude::*;
use crate::key::{lemma_unpacked_empty, lemma_unpacked_insert, pack, unpacked};

verus! {

/// What a stored score says about the true value of a position.
#[derive(Clone, Copy, PartialEq, Eq, Structural, Debug)]
pub enum NodeType {
    /// The score is the value.
    Exact,
    /// The value is at least the score.
    LowerBound,
    /// The value is at most the score.
    UpperBound,
}

/// The result of one search of a position.
#[derive(Clone, Copy, Debug)]
pub struct TableEntry {
    pub score: i32,
    pub depth: usize,
    pub node_type: NodeType,
}

/// A table from positions, given as the pair of the mover's and the
/// opponent's cells, to search results.
pub struct TranspositionTable {
    map: HashMap<u128, TableEntry>,
}

impl View for TranspositionTable {
    type V = Map<(u64, u64), TableEntry>;

    closed spec fn view(&self) -> Map<(u64, u64), TableEntry> {
        unpacked(self.map@)
    }
}

impl TranspositionTable {
    /// An empty table.
    pub fn new() -> (table: Self)
        ensures
            table@ == Map::<(u64, u64), TableEntry>::empty(),
    {
        proof {
            lemma_unpacked_empty::<TableEntry>();
        }
        TranspositionTable { map: HashMap::new() }
    }

    /// Stores `entry` under `key`, unless the table holds a result of a
    /// deeper search for that key: then the table stays as it is.
    pub fn store(&mut self, key: (u64, u64), entry: TableEntry)
        ensures
            final(self)@ == if old(self)@.contains_key(key) && old(self)@[key].depth > entry.depth {
                old(self)@
            } else {
                old(self)@.insert(key, entry)
            },
            old(self)@.contains_key(key) && entry.depth < old(self)@[key].depth ==> final(self)@
                == old(self)@,
    {
        let packed_key = pack(key);
        if let Some(existing_entry) = self.map.get(&packed_key) {
            if existing_entry.depth > entry.depth {
                return ;
            }
        }
        proof {
            lemma_unpacked_insert(self.map@, key, entry);
        }
        self.map.insert(packed_key, entry);
    }

    /// The result stored under `key`, if there is one.
    pub fn probe(&self, key: (u64, u64)) -> (found: Option<TableEntry>)
        ensures
            found == if self@.contains_key(key) {
                Some(self@[key])
            } else {
                None
            },
    {
        let packed_key = pack(key);
        match self.map.get(&packed_key) {
            Some(entry) => Some(*entry),
            None => None,
        }
    }

    /// Empties the table.
    pub fn clear(&mut self)
        ensures
            final(self)@ == Map::<(u64, u64), TableEntry>::empty(),
    {
        proof {
            lemma_unpacked_empty::<TableEntry>();
        }
        self.map.clear();
    }
}

} // verus!
