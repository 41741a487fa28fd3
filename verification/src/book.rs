//! The opening book: for each position met when replaying a corpus of known
//! games, the move that the first such game played there.

use std::collections::HashMap;
use vstd::prelude::*;
use vstd::string::StringSliceAdditionalSpecFns;
use crate::bitboard::{Board, START_MOVER, START_OPPONENT};
use crate::bits::{cells, has_bit, lemma_count_single, lemma_member, lemma_one_bit, lemma_single};
use crate::key::{lemma_unpacked_empty, lemma_unpacked_insert, pack, unpacked};
use crate::rules::legal_moves;

verus! {

/// The corpus of the standard book: one game per line, each move as a
/// column letter `a`-`h` and a row digit `1`-`8`.
pub const BOOK_DATA: &'static str = "\
f5\n\
f5d6\n\
f5d6c3g5\n\
f5d6c3g5c6c5\n\
f5d6c3g5c6c5c4b6\n\
f5d6c3g5c6c5c4b6f6f4\n\
f5d6c3g5c6c5c4b6f6f4e6d7\n\
f5d6c3g5c6c5c4b6f6f4e6d7c7g6\n\
f5d6c3g5c6c5c4b6f6f4e6d7c7g6d8b5\n\
f5d6c3g5c6c5c4b6f6f4e6d7c7g6d8b5e7b3\n\
f5d6c3g5c6c5c4b6f6f4e6d7c7g6d8b5e7b3a6e3\n\
f5d6c3g5c6c5c4b6f6f4e6d7c7g6d8b5e7b3a6e3a5d3\n\
f5d6c3g5f6d3\n\
f5d6c3g5f6d3e3c2\n\
f5d6c3g5f6d3e3c2c1e6\n\
f5d6c3g5f6d3e3c2c1e6f4f3\n\
f5d6c3g5f6d3e3c2c1e6f4f3f2g4\n\
f5d6c3g5f6d3e3c2c1e6f4f3f2g4g6d2\n\
f5d6c3g5f6d3e3c2c1e6f4f3f2g4g6d2h3h4\n\
f5d6c3g5f6d3e3c2c1e6f4f3f2g4g6d2h3h4h5f7\n\
f5d6c3g5f6d3e3c2c1e6f4f3f2g4g6d2h3h4h5f7e7g3\n\
f5d6c3g5g6d3\n\
f5d6c3g5g6d3c4e3\n\
f5d6c3g5g6d3c4e3f3b4\n\
f5d6c3g5g6d3c4e3f3b4f6e6\n\
f5d6c3g5g6d3c4e3f3b4f6e6f4g4\n\
f5d6c3g5g6d3c4e3f3b4f6e6f4g4h4h5\n\
f5d6c3g5g6d3c4e3f3b4f6e6f4g4h4h5h6g3\n\
f5d6c3g5g6d3c4e3f3b4f6e6f4g4h4h5h6g3h3f7\n\
f5d6c3g5g6d3c4e3f3b4f6e6f4g4h4h5h6g3h3f7f8c2\n\
f5d6c4b3\n\
f5d6c4b3b4f4\n\
f5d6c4b3b4f4f6g5\n\
f5d6c4b3b4f4f6g5f3e7\n\
f5d6c4b3b4f4f6g5f3e7c5e6\n\
f5d6c4b3b4f4f6g5f3e7c5e6c3g4\n\
f5d6c4b3b4f4f6g5f3e7c5e6c3g4c6g3\n\
f5d6c4b3b4f4f6g5f3e7c5e6c3g4c6g3h3e3\n\
f5d6c4b3b4f4f6g5f3e7c5e6c3g4c6g3h3e3f2b6\n\
f5d6c4b3b4f4f6g5f3e7c5e6c3g4c6g3h3e3f2b6h4d3\n\
f5d6c5b4\n\
f5d6c5b4d7e7\n\
f5d6c5b4d7e7c7d8\n\
f5d6c5b4d7e7c7d8c3d3\n\
f5d6c5b4d7e7c7d8c3d3c4b3\n\
f5d6c5b4d7e7c7d8c3d3c4b3d2e2\n\
f5d6c5b4d7e7c7d8c3d3c4b3d2e2c2e3\n\
f5d6c5b4d7e7c7d8c3d3c4b3d2e2c2e3f4f2\n\
f5d6c5b4d7e7c7d8c3d3c4b3d2e2c2e3f4f2c6b5\n\
f5d6c5b4d7e7c7d8c3d3c4b3d2e2c2e3f4f2c6b5f3c8\n\
f5d6c4\n\
f5d6c4b3b4\n\
f5d6c4b3b4f4f6\n\
f5d6c4b3b4f4f6g5f3\n\
f5d6c4b3b4f4f6g5f3e7c5\n\
f5d6c4b3b4f4f6g5f3e7c5e6c3\n\
f5d6c4b3b4f4f6g5f3e7c5e6c3g4c6\n\
f5d6c4b3b4f4f6g5f3e7c5e6c3g4c6g3h3\n\
f5d6c4b3b4f4f6g5f3e7c5e6c3g4c6g3h3e3f2\n\
f5d6c4b3b4f4f6g5f3e7c5e6c3g4c6g3h3e3f2b6h4\n\
f5d6c4b3b4f4f6g5f3e7c5e6c3g4c6g3h3e3f2b6h4d3e2\n\
f5d6c4d3c3\n\
f5d6c4d3c3b3d2\n\
f5d6c4d3c3b3d2e1b5\n\
f5d6c4d3c3b3d2e1b5c5b4\n\
f5d6c4d3c3b3d2e1b5c5b4e3c2\n\
f5d6c4d3c3b3d2e1b5c5b4e3c2a4c6\n\
f5d6c4d3c3b3d2e1b5c5b4e3c2a4c6d1e2\n\
f5d6c4d3c3b3d2e1b5c5b4e3c2a4c6d1e2c7b6\n\
f5d6c4d3c3b3d2e1b5c5b4e3c2a4c6d1e2c7b6f1e6\n\
f5d6c4d3c3b3d2e1b5c5b4e3c2a4c6d1e2c7b6f1e6f3f2\n\
f5d6c4d3c3f4f6\n\
f5d6c4d3c3f4f6f3e6\n\
f5d6c4d3c3f4f6f3e6e7f7\n\
f5d6c4d3c3f4f6f3e6e7f7c5b6\n\
f5d6c4d3c3f4f6f3e6e7f7c5b6g5e3\n\
f5d6c4d3c3f4f6f3e6e7f7c5b6g5e3d7c6\n\
f5d6c4d3c3f4f6f3e6e7f7c5b6g5e3d7c6e2g4\n\
f5d6c4d3c3f4f6f3e6e7f7c5b6g5e3d7c6e2g4h3d2\n\
f5d6c4d3c3f4f6f3e6e7f7c5b6g5e3d7c6e2g4h3d2g3f1\n\
f5d6c4d3c3f4f6g6e3\n\
f5d6c4d3c3f4f6g6e3e2f1\n\
f5d6c4d3c3f4f6g6e3e2f1d1g5\n\
f5d6c4d3c3f4f6g6e3e2f1d1g5c6d8\n\
f5d6c4d3c3f4f6g6e3e2f1d1g5c6d8g4h6\n\
f5d6c4d3c3f4f6b4c2\n\
f5d6c4d3c3f4f6b4c2f3e3\n\
f5d6c4d3c3f4f6b4c2f3e3e2c6\n\
f5d6c4d3c3f4f6b4c2f3e3e2c6f2c5\n\
f5d6c4d3c3f4f6b4c2f3e3e2c6f2c5e6d2\n\
f5d6c4d3c3f4f6b4c2f3e3e2c6f2c5e6d2g4d7\n\
f5d6c4d3c3f4f6b4c2f3e3e2c6f2c5e6d2g4d7b3g5\n\
f5d6c4d3c3f4f6b4c2f3e3e2c6f2c5e6d2g4d7b3g5c8h4\n\
f5d6c4d3c3f4f6g5e3\n\
f5d6c4d3c3f4f6g5e3f3g6\n\
f5d6c4d3c3f4f6g5e3f3g6e2h5\n\
f5d6c4d3c3f4f6g5e3f3g6e2h5c5g4\n\
f5d6c4d3c3f4f6g5e3f3g6e2h5c5g4g3f2\n\
f5d6c4d3c3b5b4\n\
f5d6c4d3c3b5b4f4c5\n\
f5d6c4d3c3b5b4f4c5a4b3\n\
f5d6c4d3c3b5b4f4c5a4b3d2a6\n\
f5d6c4d3c3b5b4f4c5a4b3d2a6a3e3\n\
f5d6c4d3c3b5b4f4c5a4b3d2a6a3e3f3g4\n\
f5d6c4d3c3b5b4f4c5a4b3d2a6a3e3f3g4e6f6\n\
f5d6c4d3c3b5b4f4c5a4b3d2a6a3e3f3g4e6f6g3e2\n\
f5d6c4d3c3b5b4f4c5a4b3d2a6a3e3f3g4e6f6g3e2c2f2\n\
f5d6c4g5f6\n\
f5d6c4g5f6f4f3\n\
f5d6c4g5f6f4f3d3c3\n\
f5d6c4g5f6f4f3d3c3g6e3\n\
f5d6c4g5f6f4f3d3c3g6e3e6h5\n\
f5d6c4g5f6f4f3d3c3g6e3e6h5d2e2\n\
f5d6c4g5f6f4f3d3c3g6e3e6h5d2e2c2c6\n\
f5d6c4g5f6f4f3d3c3g6e3e6h5d2e2c2c6c5b6\n\
f5d6c4g5f6f4f3d3c3g6e3e6h5d2e2c2c6c5b6b4b3\n\
f5d6c4g5f6f4f3d3c3g6e3e6h5d2e2c2c6c5b6b4b3c7a4\n\
f5f6e6\n\
f5f6e6f4g6\n\
f5f6e6f4g6c5f3\n\
f5f6e6f4g6c5f3g4e3\n\
f5f6e6f4g6c5f3g4e3d6g5\n\
f5f6e6f4g6c5f3g4e3d6g5g3c3\n\
f5f6e6f4g6c5f3g4e3d6g5g3c3h5c4\n\
f5f6e6f4g6c5f3g4e3d6g5g3c3h5c4d7h6\n\
f5f6e6f4g6c5f3g4e3d6g5g3c3h5c4d7h6h7h3\n\
f5f6e6f4g6c5f3g4e3d6g5g3c3h5c4d7h6h7h3f7e7\n\
f5f6e6f4g6c5f3g4e3d6g5g3c3h5c4d7h6h7h3f7e7f8h4\n\
f5f6e6f4g6c5f3g5d6\n\
f5f6e6f4g6c5f3g5d6e3h4\n\
f5f6e6f4g6c5f3g5d6e3h4g3g4\n\
f5f6e6f4g6c5f3g5d6e3h4g3g4h6e2\n\
f5f6e6f4g6c5f3g5d6e3h4g3g4h6e2d3h5\n\
f5f6e6f4g6c5f3g5d6e3h4g3g4h6e2d3h5h3c6\n\
f5f6e6f4g6c5f3g5d6e3h4g3g4h6e2d3h5h3c6e7f2\n\
f5f6e6f4g6c5f3g5d6e3h4g3g4h6e2d3h5h3c6e7f2c4d2\n\
f5f6e6f4g6d6g4\n\
f5f6e6f4g6d6g4g5h4\n\
f5f6e6f4g6d6g4g5h4e7f3\n\
f5f6e6f4g6d6g4g5h4e7f3h6f7\n\
f5f6e6f4g6d6g4g5h4e7f3h6f7e8f8\n\
f5f6e6f4g6d6g4g5h4e7f3h6f7e8f8g8d3\n\
f5f6e6f4g6d6g4g5h4e7f3h6f7e8f8g8d3h5h7\n\
f5f6e6f4g6d6g4g5h4e7f3h6f7e8f8g8d3h5h7e3c5\n\
f5f6e6f4g6d6g4g5h4e7f3h6f7e8f8g8d3h5h7e3c5c4g3\n\
f5f6e6d6f7\n\
f5f6e6d6f7e3c6\n\
f5f6e6d6f7e3c6e7f4\n\
f5f6e6d6f7e3c6e7f4c5d8\n\
f5f6e6d6f7e3c6e7f4c5d8c7d7\n\
f5f6e6d6f7e3c6e7f4c5d8c7d7f8b5\n\
f5f6e6d6f7e3c6e7f4c5d8c7d7f8b5c4e8\n\
f5f6e6d6f7e3c6e7f4c5d8c7d7f8b5c4e8c8f3\n\
f5f6e6d6f7e3c6e7f4c5d8c7d7f8b5c4e8c8f3g5b6\n\
f5f6e6d6f7e3c6e7f4c5d8c7d7f8b5c4e8c8f3g5b6d3b4\n\
f5f6e6d6f7f4d7\n\
f5f6e6d6f7f4d7e7d8\n\
f5f6e6d6f7f4d7e7d8g5c6\n\
f5f6e6d6f7f4d7e7d8g5c6f8g6\n\
f5f6e6d6f7f4d7e7d8g5c6f8g6h5h6\n\
f5f6e6d6f7f4d7e7d8g5c6f8g6h5h6h7c4\n\
f5f6e6d6f7f4d7e7d8g5c6f8g6h5h6h7c4e8g8\n\
f5f6e6d6f7f4d7e7d8g5c6f8g6h5h6h7c4e8g8c5e3\n\
f5f6e6d6f7f4d7e7d8g5c6f8g6h5h6h7c4e8g8c5e3d3c7\n\
";

/// The cell that a token of two bytes names, if they are a column letter
/// `a`-`h` and a row digit `1`-`8`.
pub open spec fn token_cell(a: u8, b: u8) -> Option<int> {
    if 97 <= a <= 104 && 49 <= b <= 56 {
        Some(8 * (b - 49) + (a - 97))
    } else {
        None
    }
}

/// The one-cell set that the first two bytes of `s` name, zero if they
/// name none.
pub open spec fn token_bit(s: Seq<u8>) -> u64 {
    if s.len() >= 2 && token_cell(s[0], s[1]) is Some {
        1u64 << (token_cell(s[0], s[1])->0 as u64)
    } else {
        0
    }
}

/// A blank, a tab or a carriage return.
pub open spec fn is_blank(b: u8) -> bool {
    b == 32 || b == 9 || b == 13
}

/// Where the line that holds byte `from` ends: at the next line feed, or at
/// the end of the data.
pub open spec fn line_end(data: Seq<u8>, from: int) -> int
    decreases data.len() - from,
{
    if from >= data.len() {
        data.len() as int
    } else if data[from] == 10 {
        from
    } else {
        line_end(data, from + 1)
    }
}

/// The first byte in `from..to` that is not blank, or `to`.
pub open spec fn skip_blank(data: Seq<u8>, from: int, to: int) -> int
    decreases to - from,
{
    if from >= to {
        to
    } else if is_blank(data[from]) {
        skip_blank(data, from + 1, to)
    } else {
        from
    }
}

/// One past the last byte in `from..to` that is not blank, or `from`.
pub open spec fn skip_blank_back(data: Seq<u8>, from: int, to: int) -> int
    decreases to - from,
{
    if to <= from {
        from
    } else if is_blank(data[to - 1]) {
        skip_blank_back(data, from, to - 1)
    } else {
        to
    }
}

/// What replaying the tokens in `t..hi` from board `b` records: for each
/// token that is a legal move where it stands, the position before it and
/// the move. The first token that is no legal move ends the replay, and a
/// last single byte is left alone.
pub open spec fn line_entries(data: Seq<u8>, t: int, hi: int, b: Board) -> Seq<((u64, u64), u64)>
    decreases hi - t,
{
    if t + 2 > hi {
        Seq::empty()
    } else {
        match token_cell(data[t], data[t + 1]) {
            Some(m) => if legal_moves(b@).contains(m) {
                seq![(b.key(), 1u64 << (m as u64))] + line_entries(data, t + 2, hi, b.after(m))
            } else {
                Seq::empty()
            },
            None => Seq::empty(),
        }
    }
}

/// The board at the start of every game.
pub open spec fn start_board() -> Board {
    Board::of_bits(START_MOVER, START_OPPONENT)
}

/// What the one line that starts at `from` records: nothing if, without the
/// blanks at its two ends, it is empty or starts with `#`.
pub open spec fn entries_of_line(data: Seq<u8>, from: int) -> Seq<((u64, u64), u64)> {
    let end = line_end(data, from);
    let lo = skip_blank(data, from, end);
    let hi = skip_blank_back(data, lo, end);
    if lo < hi && data[lo] != 35 {
        line_entries(data, lo, hi, start_board())
    } else {
        Seq::empty()
    }
}

/// What the lines from byte `from` on record, in the order of the corpus.
pub open spec fn corpus_entries(data: Seq<u8>, from: int) -> Seq<((u64, u64), u64)>
    decreases data.len() + 1 - from,
    via corpus_entries_ends
{
    if from < 0 || from >= data.len() {
        Seq::empty()
    } else {
        entries_of_line(data, from) + corpus_entries(data, line_end(data, from) + 1)
    }
}

#[via_fn]
proof fn corpus_entries_ends(data: Seq<u8>, from: int) {
    if 0 <= from < data.len() {
        lemma_line_end(data, from);
    }
}

/// A line ends at or after each of its bytes, and within the data.
pub proof fn lemma_line_end(data: Seq<u8>, from: int)
    requires
        0 <= from <= data.len(),
    ensures
        from <= line_end(data, from) <= data.len(),
    decreases data.len() - from,
{
    if from < data.len() && data[from] != 10 {
        lemma_line_end(data, from + 1);
    }
}

/// The map after the first `k` entries: an entry is kept only where its
/// position has none yet.
pub open spec fn first_wins(entries: Seq<((u64, u64), u64)>, k: nat) -> Map<(u64, u64), u64>
    decreases k,
{
    if k == 0 {
        Map::empty()
    } else {
        let before = first_wins(entries, (k - 1) as nat);
        let e = entries[k - 1];
        if before.contains_key(e.0) {
            before
        } else {
            before.insert(e.0, e.1)
        }
    }
}

/// The book of a corpus.
pub open spec fn book_of(data: Seq<u8>) -> Map<(u64, u64), u64> {
    first_wins(corpus_entries(data, 0), corpus_entries(data, 0).len())
}

/// Every move of the map is a legal move in the position that it is kept
/// for.
pub open spec fn all_legal(m: Map<(u64, u64), u64>) -> bool {
    forall|key: (u64, u64)| #[trigger]
        m.contains_key(key) ==> Board::of_bits(key.0, key.1).allows(m[key])
}

/// For every position of the entries the map holds the move of the first
/// entry with that position: a later entry for the same position changes
/// nothing.
pub proof fn lemma_first_wins(entries: Seq<((u64, u64), u64)>, k: nat, i: int)
    requires
        0 <= i < k <= entries.len(),
    ensures
        first_wins(entries, k).contains_key(entries[i].0),
        exists|j: int|
            0 <= j <= i && #[trigger] entries[j].0 == entries[i].0 && first_wins(
                entries,
                k,
            )[entries[i].0] == entries[j].1 && forall|h: int|
                0 <= h < j ==> (#[trigger] entries[h]).0 != entries[i].0,
    decreases k,
{
    let key = entries[i].0;
    if i < k - 1 {
        lemma_first_wins(entries, (k - 1) as nat, i);
    } else {
        let before = first_wins(entries, (k - 1) as nat);
        if before.contains_key(key) {
            let h = lemma_key_seen(entries, (k - 1) as nat, key);
            lemma_first_wins(entries, (k - 1) as nat, h);
        } else {
            assert forall|h: int| 0 <= h < i implies (#[trigger] entries[h]).0 != key by {
                if entries[h].0 == key {
                    lemma_first_wins(entries, (k - 1) as nat, h);
                }
            }
            assert(entries[i].0 == key);
        }
    }
}

proof fn lemma_key_seen(entries: Seq<((u64, u64), u64)>, k: nat, key: (u64, u64)) -> (h: int)
    requires
        k <= entries.len(),
        first_wins(entries, k).contains_key(key),
    ensures
        0 <= h < k,
        entries[h].0 == key,
    decreases k,
{
    if first_wins(entries, (k - 1) as nat).contains_key(key) {
        lemma_key_seen(entries, (k - 1) as nat, key)
    } else {
        k - 1
    }
}

/// In the book of a corpus, the position before every replayed move has the
/// move that the first game to reach that position played there.
pub proof fn lemma_book_prefix(data: Seq<u8>, i: int)
    requires
        0 <= i < corpus_entries(data, 0).len(),
    ensures
        book_of(data).contains_key(corpus_entries(data, 0)[i].0),
        exists|j: int|
            0 <= j <= i && #[trigger] corpus_entries(data, 0)[j].0 == corpus_entries(data, 0)[i].0
                && book_of(data)[corpus_entries(data, 0)[i].0] == corpus_entries(data, 0)[j].1
                && forall|h: int|
                0 <= h < j ==> (#[trigger] corpus_entries(data, 0)[h]).0 != corpus_entries(
                    data,
                    0,
                )[i].0,
{
    let entries = corpus_entries(data, 0);
    lemma_first_wins(entries, entries.len(), i);
}

proof fn lemma_first_wins_prefix(a: Seq<((u64, u64), u64)>, b: Seq<((u64, u64), u64)>, k: nat)
    requires
        k <= a.len() <= b.len(),
        forall|i: int| 0 <= i < a.len() ==> a[i] == b[i],
    ensures
        first_wins(a, k) == first_wins(b, k),
    decreases k,
{
    if k > 0 {
        lemma_first_wins_prefix(a, b, (k - 1) as nat);
    }
}

/// The book.
pub struct Book {
    map: HashMap<u128, u64>,
}

impl View for Book {
    type V = Map<(u64, u64), u64>;

    closed spec fn view(&self) -> Map<(u64, u64), u64> {
        unpacked(self.map@)
    }
}

/// The one-cell set that the first two bytes of `s` name, zero if they name
/// none.
pub fn move_str_to_bit(s: &str) -> (bit: u64)
    ensures
        bit == token_bit(s.spec_bytes()),
{
    let bytes = s.as_bytes();
    if bytes.len() < 2 {
        0
    } else {
        token_at(bytes, 0)
    }
}

fn token_at(data: &[u8], t: usize) -> (bit: u64)
    requires
        t + 2 <= data@.len(),
    ensures
        bit == match token_cell(data@[t as int], data@[t + 1]) {
            Some(m) => 1u64 << (m as u64),
            None => 0,
        },
        token_cell(data@[t as int], data@[t + 1]) matches Some(m) ==> 0 <= m < 64,
{
    let a = data[t];
    let b = data[t + 1];
    if 97 <= a && a <= 104 && 49 <= b && b <= 56 {
        let col: u64 = (a - 97) as u64;
        let row: u64 = (b - 49) as u64;
        1u64 << (row * 8 + col)
    } else {
        0
    }
}

fn find_line_end(data: &[u8], from: usize) -> (end: usize)
    requires
        from <= data@.len(),
    ensures
        end == line_end(data@, from as int),
        from <= end <= data@.len(),
{
    let mut e = from;
    while e < data.len() && data[e] != 10
        invariant
            from <= e <= data@.len(),
            line_end(data@, e as int) == line_end(data@, from as int),
        decreases data@.len() - e,
    {
        e += 1;
    }
    e
}

fn trim_front(data: &[u8], from: usize, to: usize) -> (lo: usize)
    requires
        from <= to <= data@.len(),
    ensures
        lo == skip_blank(data@, from as int, to as int),
        from <= lo <= to,
{
    let mut lo = from;
    while lo < to && (data[lo] == 32 || data[lo] == 9 || data[lo] == 13)
        invariant
            from <= lo <= to <= data@.len(),
            skip_blank(data@, lo as int, to as int) == skip_blank(data@, from as int, to as int),
        decreases to - lo,
    {
        lo += 1;
    }
    lo
}

fn trim_back(data: &[u8], from: usize, to: usize) -> (hi: usize)
    requires
        from <= to <= data@.len(),
    ensures
        hi == skip_blank_back(data@, from as int, to as int),
        from <= hi <= to,
{
    let mut hi = to;
    while hi > from && (data[hi - 1] == 32 || data[hi - 1] == 9 || data[hi - 1] == 13)
        invariant
            from <= hi <= to <= data@.len(),
            skip_blank_back(data@, from as int, hi as int) == skip_blank_back(
                data@,
                from as int,
                to as int,
            ),
        decreases hi - from,
    {
        hi -= 1;
    }
    hi
}

/// Replays the tokens in `lo..hi` from the starting position and records in
/// `map` what `line_entries` says, after the entries `done` that it holds.
fn replay_line(
    data: &[u8],
    lo: usize,
    hi: usize,
    map: &mut HashMap<u128, u64>,
    Ghost(done): Ghost<Seq<((u64, u64), u64)>>,
) -> (out: Ghost<Seq<((u64, u64), u64)>>)
    requires
        lo <= hi <= data@.len(),
        unpacked(old(map)@) == first_wins(done, done.len()),
        all_legal(unpacked(old(map)@)),
    ensures
        out@ == done + line_entries(data@, lo as int, hi as int, start_board()),
        unpacked(final(map)@) == first_wins(out@, out@.len()),
        all_legal(unpacked(final(map)@)),
{
    let mut board = Board::new();
    let mut t = lo;
    let mut live = true;
    let ghost mut seen = done;
    let ghost whole = done + line_entries(data@, lo as int, hi as int, start_board());
    while live && hi - t >= 2
        invariant
            lo <= t <= hi <= data@.len(),
            board.well_formed(),
            whole == seen + if live {
                line_entries(data@, t as int, hi as int, board)
            } else {
                Seq::empty()
            },
            unpacked(map@) == first_wins(seen, seen.len()),
            all_legal(unpacked(map@)),
        decreases hi - t, live as int,
    {
        let bit = token_at(data, t);
        let (legals, hints) = board.legals();
        let ghost cell_named = token_cell(data@[t as int], data@[t + 1]);
        proof {
            if cell_named is Some {
                let m = cell_named->0;
                lemma_member(legals, m as u64);
                lemma_count_single(m as u64);
                lemma_one_bit(bit);
                lemma_single(m as u64);
                assert(cells(legals).contains(m) == has_bit(legals, m));
            } else {
                assert(legals & 0 == 0) by (bit_vector);
            }
        }
        if (legals & bit) != 0 {
            let key = (board.get_black(), board.get_white());
            let packed_key = pack(key);
            let ghost before = board;
            let ghost m = cell_named->0;
            proof {
                board.lemma_of_bits();
                lemma_unpacked_insert(map@, key, bit);
                lemma_first_wins_prefix(seen, seen.push((key, bit)), seen.len());
            }
            if map.get(&packed_key).is_none() {
                map.insert(packed_key, bit);
            }
            board.next(bit, hints);
            board.exchange();
            proof {
                board.lemma_same_view(before.after(m));
                assert(seen + line_entries(data@, t as int, hi as int, before) =~= seen.push(
                    (key, bit),
                ) + line_entries(data@, t + 2, hi as int, board));
                seen = seen.push((key, bit));
            }
            t += 2;
        } else {
            live = false;
        }
    }
    proof {
        assert(whole =~= seen);
    }
    Ghost(seen)
}

impl Book {
    #[verifier::type_invariant]
    spec fn moves_are_legal(&self) -> bool {
        all_legal(unpacked(self.map@))
    }

    /// Builds the book of the corpus `book_data`.
    pub fn new(book_data: &str) -> (book: Book)
        ensures
            book@ == book_of(book_data.spec_bytes()),
            all_legal(book@),
    {
        let data = book_data.as_bytes();
        let n = data.len();
        let mut map: HashMap<u128, u64> = HashMap::new();
        let ghost mut done: Seq<((u64, u64), u64)> = Seq::empty();
        let mut pos: usize = 0;
        proof {
            lemma_unpacked_empty::<u64>();
        }
        while pos < n
            invariant
                n == data@.len(),
                pos <= n,
                corpus_entries(data@, 0) == done + corpus_entries(data@, pos as int),
                unpacked(map@) == first_wins(done, done.len()),
                all_legal(unpacked(map@)),
            decreases n - pos,
        {
            let end = find_line_end(data, pos);
            let lo = trim_front(data, pos, end);
            let hi = trim_back(data, lo, end);
            let ghost here = entries_of_line(data@, pos as int);
            let ghost rest = corpus_entries(data@, end + 1);
            proof {
                assert(done + (here + rest) =~= (done + here) + rest);
            }
            if lo < hi && data[lo] != 35 {
                let after = replay_line(data, lo, hi, &mut map, Ghost(done));
                proof {
                    done = after@;
                }
            } else {
                proof {
                    assert(done + here =~= done);
                }
            }
            pos = if end < n {
                end + 1
            } else {
                end
            };
        }
        proof {
            assert(done + corpus_entries(data@, pos as int) =~= done);
        }
        Book { map }
    }

    /// The move that the book holds for the position of `board`, if it
    /// holds one. It is a legal move there.
    pub fn get(&self, board: &Board) -> (found: Option<u64>)
        ensures
            found == if self@.contains_key(board.key()) {
                Some(self@[board.key()])
            } else {
                None
            },
            found matches Some(mv) ==> board.allows(mv),
    {
        let key = (board.get_black(), board.get_white());
        let packed_key = pack(key);
        proof {
            use_type_invariant(self);
            use_type_invariant(board);
            board.lemma_of_bits();
            assert(unpacked(self.map@).contains_key(key) == self.map@.contains_key(packed_key));
        }
        match self.map.get(&packed_key) {
            Some(mv) => Some(*mv),
            None => None,
        }
    }
}

} // verus!
