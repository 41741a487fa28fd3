//! The commands of the match protocol and the moves that they carry.
//!
//! The protocol names a cell by a column letter `A`-`H` and a row digit
//! `1`-`8`, and counts both from one. Column `A` and row `1` have the
//! highest cell index: the move `To(i, j)` is cell `8 * (8 - j) + (8 - i)`.

use vstd::prelude::*;
use vstd::string::StringExecFns;
use vstd::std_specs::bits::u64_trailing_zeros;
use crate::bits::{lemma_one_bit, popcount};

verus! {

/// The colour that the arbiter gives a side.
#[derive(Clone, Copy, Debug)]
pub enum Color {
    Empty,
    White,
    Black,
}

/// The result of a game for this side.
#[derive(Clone, Copy, Debug)]
pub enum Res {
    Win,
    Lose,
    Tie,
}

/// A move: a stone on the cell in column `i` and row `j`, or a pass.
#[derive(Clone, Copy, Debug)]
pub enum Move {
    To(i32, i32),
    Pass,
}

/// A command of the protocol.
#[derive(Debug)]
pub enum Cmd {
    Open(String),
    Start(Color, String, i32),
    End(Res, i32, i32, String),
    Bye(Vec<(String, (i32, i32, i32))>),
    Move(Move),
    Ack(i32),
}

/// A command with its texts as sequences of characters.
pub enum CmdView {
    Open(Seq<char>),
    Start(Color, Seq<char>, i32),
    End(Res, i32, i32, Seq<char>),
    Bye(Seq<(Seq<char>, (i32, i32, i32))>),
    Move(Move),
    Ack(i32),
}

/// The score lines of a `Bye` with their names as sequences of characters.
pub open spec fn scores_view(scores: Seq<(String, (i32, i32, i32))>) -> Seq<
    (Seq<char>, (i32, i32, i32)),
> {
    Seq::new(scores.len(), |i: int| (scores[i].0@, scores[i].1))
}

impl View for Cmd {
    type V = CmdView;

    open spec fn view(&self) -> CmdView {
        match self {
            Cmd::Open(name) => CmdView::Open(name@),
            Cmd::Start(color, name, time) => CmdView::Start(*color, name@, *time),
            Cmd::End(res, mine, theirs, reason) => CmdView::End(*res, *mine, *theirs, reason@),
            Cmd::Bye(scores) => CmdView::Bye(scores_view(scores@)),
            Cmd::Move(m) => CmdView::Move(*m),
            Cmd::Ack(time) => CmdView::Ack(*time),
        }
    }
}

impl Move {
    /// The move is a pass or names a cell of the board.
    pub open spec fn on_board(self) -> bool {
        match self {
            Move::To(i, j) => 1 <= i <= 8 && 1 <= j <= 8,
            Move::Pass => true,
        }
    }

    /// The text of the move: `PASS`, or the column letter and the row digit.
    pub open spec fn text(self) -> Seq<char> {
        match self {
            Move::To(i, j) => seq![(i + 64) as char, (j + 48) as char],
            Move::Pass => seq!['P', 'A', 'S', 'S'],
        }
    }

    /// The move as a set: the empty set for a pass, else the one cell.
    pub open spec fn bits(self) -> u64 {
        match self {
            Move::To(i, j) => 1u64 << (((8 - j) * 8 + (8 - i)) as u64),
            Move::Pass => 0,
        }
    }
}

/// `String::push` appends the character to the end of the string.
pub assume_specification[ String::push ](s: &mut String, c: char)
    ensures
        final(s)@ == old(s)@.push(c),
;

/// The text of a move as the protocol writes it.
pub fn move_to_string(m: Move) -> (text: String)
    requires
        m.on_board(),
    ensures
        text@ == m.text(),
{
    match m {
        Move::Pass => {
            proof {
                reveal_strlit("PASS");
            }
            let text = "PASS".to_owned();
            assert(text@ =~= m.text());
            text
        },
        Move::To(i, j) => {
            let ci = ((i + 64) as u8) as char;
            let cj = ((j + 48) as u8) as char;
            let mut text = String::new();
            text.push(ci);
            text.push(cj);
            assert(text@ =~= m.text());
            text
        },
    }
}

/// The line that sends a command to the arbiter, for the two commands that
/// this side sends: a move, on the board or a pass, and the opening with
/// this side's name.
pub open spec fn line_of(cmd: CmdView) -> Option<Seq<char>> {
    match cmd {
        CmdView::Move(m) => if m.on_board() {
            Some("MOVE "@ + m.text() + "\n"@)
        } else {
            None
        },
        CmdView::Open(name) => Some("OPEN "@ + name + "\n"@),
        _ => None,
    }
}

/// The line that sends a command to the arbiter; nothing for a command that
/// this side does not send.
pub fn line_to_send(cmd: &Cmd) -> (line: Option<String>)
    ensures
        match line {
            Some(text) => line_of(cmd@) == Some(text@),
            None => line_of(cmd@) is None,
        },
{
    match cmd {
        Cmd::Move(m) => {
            let on_board = match m {
                Move::To(i, j) => 1 <= *i && *i <= 8 && 1 <= *j && *j <= 8,
                Move::Pass => true,
            };
            if on_board {
                let mut text = String::from_str("MOVE ");
                text.append(move_to_string(*m).as_str());
                text.append("\n");
                Some(text)
            } else {
                None
            }
        },
        Cmd::Open(name) => {
            let mut text = String::from_str("OPEN ");
            text.append(name.as_str());
            text.append("\n");
            Some(text)
        },
        _ => None,
    }
}

/// The move that a set of at most one cell stands for.
pub fn idx_to_move(mv: &u64) -> (m: Move)
    ensures
        m.on_board(),
        *mv == 0 ==> m == Move::Pass,
        *mv != 0 ==> m == Move::To(
            (8 - u64_trailing_zeros(*mv) % 8) as i32,
            (8 - u64_trailing_zeros(*mv) / 8) as i32,
        ),
        *mv == 0 || popcount(*mv) == 1 ==> m.bits() == *mv,
{
    if *mv == 0 {
        Move::Pass
    } else {
        proof {
            vstd::std_specs::bits::axiom_u64_trailing_zeros(*mv);
            if popcount(*mv) == 1 {
                lemma_one_bit(*mv);
            }
        }
        let tz = mv.trailing_zeros();
        Move::To((8 - tz % 8) as i32, (8 - tz / 8) as i32)
    }
}

/// The set that a move stands for.
pub fn move_to_idx(mv: &Move) -> (bits: u64)
    requires
        mv.on_board(),
    ensures
        bits == mv.bits(),
        *mv == Move::Pass ==> bits == 0,
        *mv != Move::Pass ==> popcount(bits) == 1,
{
    match mv {
        Move::Pass => 0,
        Move::To(i, j) => {
            let k: u64 = ((8 - *j) * 8 + (8 - *i)) as u64;
            proof {
                crate::bits::lemma_count_single(k);
            }
            1u64 << k
        },
    }
}

} // verus!
