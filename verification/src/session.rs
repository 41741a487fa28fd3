//! The course of a match session: what each command of the arbiter leads to
//! in each state of the session.

use vstd::prelude::*;
use crate::bitboard::{move_cell, Board};
use crate::cmds::{move_to_idx, Cmd, CmdView, Color, Move};
use crate::rules::{exchanged, play};

verus! {

/// The depth budget of the search in a session.
pub const DEFAULT_DEPTH: usize = 10;

/// Where a session stands.
#[derive(Clone, Copy, PartialEq, Eq, Structural, Debug)]
pub enum State {
    /// Between games: a game start or the final scores come next.
    WaitingStart,
    /// It is this side's turn to search for a move and send it.
    MyMove,
    /// The opponent's move comes next.
    OpMove,
    /// The arbiter's answer to the move sent comes next.
    WaitingAck,
}

/// What a command asks the session to do besides changing its state.
#[derive(Clone, Copy, Debug)]
pub enum Effect {
    Nothing,
    /// The opponent has made this move: play it on the board.
    OpponentMoved(Move),
    /// The game is over: report the result and reset the board.
    GameOver,
    /// This side ran out of time: report it and reset the board.
    TimeUp,
    /// The session is over: report the scores and stop.
    Goodbye,
}

/// The next state of the session, the level of time pressure to search
/// under, and what is to be done.
#[derive(Clone, Copy, Debug)]
pub struct Transition {
    pub state: State,
    pub time_level: usize,
    pub effect: Effect,
}

/// The level of time pressure for the time left, in milliseconds: none
/// above 30 seconds, one above 20 seconds, two below.
pub open spec fn level_for(time: i32) -> usize {
    if time > 30000 {
        0
    } else if time > 20000 {
        1
    } else {
        2
    }
}

/// What a command leads to in a state; nothing where the state does not
/// expect it. Between games a start leads to this side's move for black and
/// to the opponent's for white, and the final scores end the session. A move
/// of the opponent leads to this side's move. The arbiter's answer leads to
/// the opponent's move, or to the end of the game where the time left is
/// negative. The end of a game leads back to waiting for a start, with no
/// time pressure.
pub open spec fn transition(state: State, time_level: usize, cmd: CmdView) -> Option<Transition> {
    match (state, cmd) {
        (State::WaitingStart, CmdView::Bye(_)) => Some(
            Transition { state: State::WaitingStart, time_level, effect: Effect::Goodbye },
        ),
        (State::WaitingStart, CmdView::Start(Color::Black, _, _)) => Some(
            Transition { state: State::MyMove, time_level, effect: Effect::Nothing },
        ),
        (State::WaitingStart, CmdView::Start(Color::White, _, _)) => Some(
            Transition { state: State::OpMove, time_level, effect: Effect::Nothing },
        ),
        (State::OpMove, CmdView::Move(mv)) => Some(
            Transition { state: State::MyMove, time_level, effect: Effect::OpponentMoved(mv) },
        ),
        (State::OpMove, CmdView::End(_, _, _, _)) => Some(
            Transition { state: State::WaitingStart, time_level: 0, effect: Effect::GameOver },
        ),
        (State::WaitingAck, CmdView::Ack(time)) => if time < 0 {
            Some(Transition { state: State::WaitingStart, time_level: 0, effect: Effect::TimeUp })
        } else {
            Some(
                Transition {
                    state: State::OpMove,
                    time_level: level_for(time),
                    effect: Effect::Nothing,
                },
            )
        },
        (State::WaitingAck, CmdView::End(_, _, _, _)) => Some(
            Transition { state: State::WaitingStart, time_level: 0, effect: Effect::GameOver },
        ),
        _ => None,
    }
}

/// What the command `cmd` leads to in `state`; nothing where the state does
/// not expect it.
pub fn step(state: State, time_level: usize, cmd: &Cmd) -> (out: Option<Transition>)
    ensures
        out == transition(state, time_level, cmd@),
        out matches Some(t) ==> t.time_level <= 2 || t.time_level == time_level,
{
    match state {
        State::WaitingStart => match cmd {
            Cmd::Bye(_) => Some(
                Transition { state: State::WaitingStart, time_level, effect: Effect::Goodbye },
            ),
            Cmd::Start(Color::Black, _, _) => Some(
                Transition { state: State::MyMove, time_level, effect: Effect::Nothing },
            ),
            Cmd::Start(Color::White, _, _) => Some(
                Transition { state: State::OpMove, time_level, effect: Effect::Nothing },
            ),
            _ => None,
        },
        State::MyMove => None,
        State::OpMove => match cmd {
            Cmd::Move(mv) => Some(
                Transition { state: State::MyMove, time_level, effect: Effect::OpponentMoved(*mv) },
            ),
            Cmd::End(_, _, _, _) => Some(
                Transition { state: State::WaitingStart, time_level: 0, effect: Effect::GameOver },
            ),
            _ => None,
        },
        State::WaitingAck => match cmd {
            Cmd::Ack(time) => {
                if *time < 0 {
                    Some(
                        Transition {
                            state: State::WaitingStart,
                            time_level: 0,
                            effect: Effect::TimeUp,
                        },
                    )
                } else {
                    let level: usize = if *time > 30000 {
                        0
                    } else if *time > 20000 {
                        1
                    } else {
                        2
                    };
                    Some(Transition { state: State::OpMove, time_level: level, effect: Effect::Nothing })
                }
            },
            Cmd::End(_, _, _, _) => Some(
                Transition { state: State::WaitingStart, time_level: 0, effect: Effect::GameOver },
            ),
            _ => None,
        },
    }
}

/// Plays a move of the side to move on the board and hands the move to the
/// other side: a pass changes nothing but the side to move. Says whether
/// the rules allow the move; one that they do not allow leaves the board as
/// it is.
pub fn make_move(board: &mut Board, mv: u64) -> (played: bool)
    ensures
        played == (mv == 0 || old(board).allows(mv)),
        played && mv == 0 ==> final(board)@ == exchanged(old(board)@),
        played && mv != 0 ==> final(board)@ == exchanged(play(old(board)@, move_cell(mv))),
        !played ==> *final(board) == *old(board),
{
    proof {
        crate::bits::lemma_count_zero(mv);
    }
    if mv == 0 {
        board.exchange();
        true
    } else if board.try_next(mv) {
        board.exchange();
        true
    } else {
        false
    }
}

/// Plays a move that the protocol names, as `make_move` does.
pub fn make_named_move(board: &mut Board, mv: &Move) -> (played: bool)
    requires
        mv.on_board(),
    ensures
        played == (*mv == Move::Pass || old(board).allows(mv.bits())),
        played && *mv == Move::Pass ==> final(board)@ == exchanged(old(board)@),
        played && *mv != Move::Pass ==> final(board)@ == exchanged(
            play(old(board)@, move_cell(mv.bits())),
        ),
        !played ==> *final(board) == *old(board),
{
    let bits = move_to_idx(mv);
    proof {
        crate::bits::lemma_count_zero(bits);
    }
    make_move(board, bits)
}

} // verus!
