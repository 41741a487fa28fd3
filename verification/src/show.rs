//! A picture of the board as text.

use vstd::prelude::*;
use vstd::string::StringExecFns;
use crate::bitboard::Board;
use crate::bits::{has_bit, lemma_member};

verus! {

/// The mark of cell `k`: `X` for a stone of the side to move, `O` for a
/// stone of the other side, a blank for an empty cell.
pub open spec fn mark(board: Board, k: int) -> char {
    if has_bit(board.mover(), k) {
        'X'
    } else if has_bit(board.opponent(), k) {
        'O'
    } else {
        ' '
    }
}

/// Line `i` of the picture up to its column `j`: the number of the line, a
/// bar, and the marks of the cells, highest cell first, each followed by a
/// blank.
pub open spec fn row_text(board: Board, i: int, j: nat) -> Seq<char>
    decreases j,
{
    if j == 0 {
        seq![(49 + i) as char, '|']
    } else {
        row_text(board, i, (j - 1) as nat) + seq![mark(board, (7 - i) * 8 + (7 - (j - 1))), ' ']
    }
}

/// The head of the picture and its first `i` lines.
pub open spec fn rows_text(board: Board, i: nat) -> Seq<char>
    decreases i,
{
    if i == 0 {
        " |A B C D E F G H\n"@ + "-+---------------\n"@
    } else {
        rows_text(board, (i - 1) as nat) + row_text(board, i - 1, 8) + seq!['\n']
    }
}

impl Board {
    /// A picture of the board: a head of two lines, and eight lines of
    /// eight cells each, from cell 63 at the top left to cell 0 at the bottom
    /// right.
    pub fn picture(&self) -> (text: String)
        ensures
            text@ == rows_text(*self, 8),
    {
        let mut text = String::from_str(" |A B C D E F G H\n");
        text.append("-+---------------\n");
        let mut i: u8 = 0;
        while i < 8
            invariant
                i <= 8,
                text@ == rows_text(*self, i as nat),
            decreases 8 - i,
        {
            let ghost head = text@;
            text.push((49 + i) as char);
            text.push('|');
            assert(text@ =~= head + row_text(*self, i as int, 0));
            let mut j: u8 = 0;
            while j < 8
                invariant
                    i < 8,
                    j <= 8,
                    text@ == head + row_text(*self, i as int, j as nat),
                decreases 8 - j,
            {
                let k: u64 = ((7 - i) * 8 + (7 - j)) as u64;
                let mask = 1u64 << k;
                proof {
                    lemma_member(self.get_black(), k);
                    lemma_member(self.get_white(), k);
                }
                let c = if self.get_black() & mask != 0 {
                    'X'
                } else if self.get_white() & mask != 0 {
                    'O'
                } else {
                    ' '
                };
                text.push(c);
                text.push(' ');
                assert(text@ =~= head + row_text(*self, i as int, (j + 1) as nat));
                j += 1;
            }
            text.push('\n');
            assert(text@ =~= rows_text(*self, (i + 1) as nat));
            i += 1;
        }
        text
    }
}

} // verus!
