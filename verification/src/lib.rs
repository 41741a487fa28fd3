//! A Reversi engine on 64-bit boards.
//!
//! `rules` states the game on an abstract board and `minimax` the value of
//! a position. `bitboard` generates and applies moves on whole sets of
//! cells at once, `evaluator` scores positions, `book` holds the opening
//! book, `transposition` the table of search results, and `search` finds
//! the move to play; `searcher` holds what a search needs from one move to
//! the next. `show` draws the board. `cmds`, `parse` and `session` read the
//! match protocol and follow the course of a session.

pub mod bits;
pub mod rules;
pub mod key;
pub mod bitboard;
pub mod evaluator;
pub mod show;
pub mod transposition;
pub mod book;
pub mod minimax;
pub mod search;
pub mod searcher;
pub mod cmds;
pub mod parse;
pub mod session;
