//! The text of the match protocol: from a line of characters to tokens, and
//! from tokens to a command.

use vstd::prelude::*;
use vstd::string::{StrSliceExecFns, StringExecFns};
use crate::cmds::{scores_view, Cmd, CmdView, Color, Move, Res};

verus! {

/// A token of the protocol: a keyword, a number, a word, the end of a
/// line or the end of the text.
#[derive(PartialEq, Debug)]
pub enum Token {
    NL,
    INT(i32),
    OPEN,
    END,
    MOVE,
    START,
    ACK,
    BYE,
    WIN,
    LOSE,
    TIE,
    WHITE,
    BLACK,
    STR(String),
    EOF,
}

/// A token with its text as a sequence of characters.
pub enum Lexeme {
    NL,
    INT(i32),
    OPEN,
    END,
    MOVE,
    START,
    ACK,
    BYE,
    WIN,
    LOSE,
    TIE,
    WHITE,
    BLACK,
    STR(Seq<char>),
    EOF,
}

impl View for Token {
    type V = Lexeme;

    open spec fn view(&self) -> Lexeme {
        match self {
            Token::NL => Lexeme::NL,
            Token::INT(n) => Lexeme::INT(*n),
            Token::OPEN => Lexeme::OPEN,
            Token::END => Lexeme::END,
            Token::MOVE => Lexeme::MOVE,
            Token::START => Lexeme::START,
            Token::ACK => Lexeme::ACK,
            Token::BYE => Lexeme::BYE,
            Token::WIN => Lexeme::WIN,
            Token::LOSE => Lexeme::LOSE,
            Token::TIE => Lexeme::TIE,
            Token::WHITE => Lexeme::WHITE,
            Token::BLACK => Lexeme::BLACK,
            Token::STR(s) => Lexeme::STR(s@),
            Token::EOF => Lexeme::EOF,
        }
    }
}

/// The tokens one by one as lexemes.
pub open spec fn views(tokens: Seq<Token>) -> Seq<Lexeme> {
    Seq::new(tokens.len(), |i: int| tokens[i]@)
}

/// One of the digits `0` to `9`.
pub open spec fn is_digit(c: char) -> bool {
    '0' <= c && c <= '9'
}

/// A blank, a tab, a line feed or a carriage return.
pub open spec fn is_space(c: char) -> bool {
    c == ' ' || c == '\t' || c == '\n' || c == '\r'
}

/// How many digits stand in a row from index `from` on.
pub open spec fn digit_run(s: Seq<char>, from: int) -> int
    decreases s.len() - from,
{
    if 0 <= from < s.len() && is_digit(s[from]) {
        1 + digit_run(s, from + 1)
    } else {
        0
    }
}

/// How many characters other than blanks and line ends stand in a row from
/// index `from` on.
pub open spec fn word_run(s: Seq<char>, from: int) -> int
    decreases s.len() - from,
{
    if 0 <= from < s.len() && !is_space(s[from]) {
        1 + word_run(s, from + 1)
    } else {
        0
    }
}

/// The number that the `n` digits from index `from` on write.
pub open spec fn decimal(s: Seq<char>, from: int, n: int) -> int
    decreases n,
{
    if n <= 0 {
        0
    } else {
        decimal(s, from, n - 1) * 10 + (s[from + n - 1] as int - 48)
    }
}

/// The number at the start of `s`, with its length: an optional `-` and one
/// or more digits, as many as stand there, if the number fits an `i32`.
pub open spec fn number_at(s: Seq<char>) -> Option<(i32, int)> {
    let sign: int = if s.len() > 0 && s[0] == '-' {
        1
    } else {
        0
    };
    let n = digit_run(s, sign);
    let v = if sign == 1 {
        -decimal(s, sign, n)
    } else {
        decimal(s, sign, n)
    };
    if n > 0 && i32::MIN <= v <= i32::MAX {
        Some((v as i32, sign + n))
    } else {
        None
    }
}

/// The text `s` starts with the text `w`.
pub open spec fn starts(s: Seq<char>, w: Seq<char>) -> bool {
    w.len() <= s.len() && s.subrange(0, w.len() as int) == w
}

/// The keyword at the start of `s`, with its length.
pub open spec fn keyword_at(s: Seq<char>) -> Option<(Lexeme, int)> {
    if starts(s, "OPEN"@) {
        Some((Lexeme::OPEN, 4))
    } else if starts(s, "END"@) {
        Some((Lexeme::END, 3))
    } else if starts(s, "MOVE"@) {
        Some((Lexeme::MOVE, 4))
    } else if starts(s, "START"@) {
        Some((Lexeme::START, 5))
    } else if starts(s, "ACK"@) {
        Some((Lexeme::ACK, 3))
    } else if starts(s, "BYE"@) {
        Some((Lexeme::BYE, 3))
    } else if starts(s, "WIN"@) {
        Some((Lexeme::WIN, 3))
    } else if starts(s, "LOSE"@) {
        Some((Lexeme::LOSE, 4))
    } else if starts(s, "TIE"@) {
        Some((Lexeme::TIE, 3))
    } else if starts(s, "WHITE"@) {
        Some((Lexeme::WHITE, 5))
    } else if starts(s, "BLACK"@) {
        Some((Lexeme::BLACK, 5))
    } else {
        None
    }
}

/// What stands at the start of the text `s`, which is not empty, and how
/// many characters it takes: a number; a blank, which gives no token; a line
/// end; a keyword; a word of characters other than blanks and line ends; or
/// a carriage return, which gives no token.
pub open spec fn first_lexeme(s: Seq<char>) -> (Option<Lexeme>, int) {
    match number_at(s) {
        Some((v, n)) => (Some(Lexeme::INT(v)), n),
        None => if s[0] == ' ' || s[0] == '\t' {
            (None, 1)
        } else if s[0] == '\n' {
            (Some(Lexeme::NL), 1)
        } else {
            match keyword_at(s) {
                Some((keyword, n)) => (Some(keyword), n),
                None => if word_run(s, 0) > 0 {
                    (Some(Lexeme::STR(s.subrange(0, word_run(s, 0)))), word_run(s, 0))
                } else {
                    (None, 1)
                },
            }
        },
    }
}

/// The lexemes of a text, in order.
pub open spec fn lexemes(s: Seq<char>) -> Seq<Lexeme>
    decreases s.len(),
    via lexemes_shrinks
{
    if s.len() == 0 {
        Seq::empty()
    } else {
        let (found, n) = first_lexeme(s);
        let rest = lexemes(s.skip(n));
        match found {
            Some(lexeme) => seq![lexeme] + rest,
            None => rest,
        }
    }
}

#[via_fn]
proof fn lexemes_shrinks(s: Seq<char>) {
    if s.len() > 0 {
        lemma_first_lexeme(s);
    }
}

/// What stands at the start of a text takes at least one character and no
/// more than there are.
pub proof fn lemma_first_lexeme(s: Seq<char>)
    requires
        s.len() > 0,
    ensures
        1 <= first_lexeme(s).1 <= s.len(),
{
    lemma_runs(s, 0);
    lemma_runs(s, 1);
    reveal_strlit("OPEN");
    reveal_strlit("END");
    reveal_strlit("MOVE");
    reveal_strlit("START");
    reveal_strlit("ACK");
    reveal_strlit("BYE");
    reveal_strlit("WIN");
    reveal_strlit("LOSE");
    reveal_strlit("TIE");
    reveal_strlit("WHITE");
    reveal_strlit("BLACK");
}

proof fn lemma_runs(s: Seq<char>, from: int)
    requires
        0 <= from,
    ensures
        0 <= digit_run(s, from),
        from + digit_run(s, from) <= s.len() || digit_run(s, from) == 0,
        0 <= word_run(s, from),
        from + word_run(s, from) <= s.len() || word_run(s, from) == 0,
    decreases s.len() - from,
{
    if from < s.len() {
        lemma_runs(s, from + 1);
    }
}

/// Takes the first `n` characters off the text.
pub fn remove_times(s: &mut String, n: usize)
    requires
        n <= old(s)@.len(),
    ensures
        final(s)@ == old(s)@.skip(n as int),
{
    let len = s.as_str().unicode_len();
    let rest = String::from_str(s.as_str().substring_char(n, len));
    assert(rest@ =~= s@.skip(n as int));
    *s = rest;
}

/// The length of the run of digits from index `from` on, and the number
/// that they write if it is at most `2^31`.
fn scan_digits(s: &str, len: usize, from: usize) -> (out: (usize, Option<i64>))
    requires
        len == s@.len(),
        from <= len,
    ensures
        out.0 == digit_run(s@, from as int),
        from + out.0 <= len,
        match out.1 {
            Some(v) => v == decimal(s@, from as int, out.0 as int) && 0 <= v <= 0x8000_0000,
            None => decimal(s@, from as int, out.0 as int) > 0x8000_0000,
        },
{
    let mut k: usize = from;
    let mut value: Option<i64> = Some(0);
    while k < len && '0' <= s.get_char(k) && s.get_char(k) <= '9'
        invariant
            len == s@.len(),
            from <= k <= len,
            digit_run(s@, from as int) == (k - from) + digit_run(s@, k as int),
            match value {
                Some(v) => v == decimal(s@, from as int, k - from) && 0 <= v <= 0x8000_0000,
                None => decimal(s@, from as int, k - from) > 0x8000_0000,
            },
        decreases len - k,
    {
        let d: i64 = (s.get_char(k) as u8 - 48) as i64;
        value = match value {
            Some(v) => {
                let grown = v * 10 + d;
                if grown > 0x8000_0000 {
                    None
                } else {
                    Some(grown)
                }
            },
            None => None,
        };
        k += 1;
    }
    (k - from, value)
}

/// The length of the word from index 0 on.
fn scan_word(s: &str, len: usize) -> (n: usize)
    requires
        len == s@.len(),
    ensures
        n == word_run(s@, 0),
        n <= len,
{
    let mut k: usize = 0;
    while k < len && !(s.get_char(k) == ' ' || s.get_char(k) == '\t' || s.get_char(k) == '\n'
        || s.get_char(k) == '\r')
        invariant
            len == s@.len(),
            k <= len,
            word_run(s@, 0) == k + word_run(s@, k as int),
        decreases len - k,
    {
        k += 1;
    }
    k
}

/// Whether the text `s` starts with the text `w`.
fn has_prefix(s: &str, len: usize, w: &str) -> (yes: bool)
    requires
        len == s@.len(),
    ensures
        yes == starts(s@, w@),
{
    let n = w.unicode_len();
    if n > len {
        return false;
    }
    let mut k: usize = 0;
    while k < n
        invariant
            n == w@.len(),
            len == s@.len(),
            k <= n <= len,
            forall|i: int| 0 <= i < k ==> s@[i] == w@[i],
        decreases n - k,
    {
        if s.get_char(k) != w.get_char(k) {
            assert(s@.subrange(0, n as int)[k as int] != w@[k as int]);
            return false;
        }
        k += 1;
    }
    assert(s@.subrange(0, n as int) =~= w@);
    true
}

/// The keyword at the start of the text, with its length.
fn scan_keyword(s: &str, len: usize) -> (out: Option<(Token, usize)>)
    requires
        len == s@.len(),
    ensures
        match out {
            Some((token, n)) => keyword_at(s@) == Some((token@, n as int)),
            None => keyword_at(s@) is None,
        },
{
    if has_prefix(s, len, "OPEN") {
        Some((Token::OPEN, 4))
    } else if has_prefix(s, len, "END") {
        Some((Token::END, 3))
    } else if has_prefix(s, len, "MOVE") {
        Some((Token::MOVE, 4))
    } else if has_prefix(s, len, "START") {
        Some((Token::START, 5))
    } else if has_prefix(s, len, "ACK") {
        Some((Token::ACK, 3))
    } else if has_prefix(s, len, "BYE") {
        Some((Token::BYE, 3))
    } else if has_prefix(s, len, "WIN") {
        Some((Token::WIN, 3))
    } else if has_prefix(s, len, "LOSE") {
        Some((Token::LOSE, 4))
    } else if has_prefix(s, len, "TIE") {
        Some((Token::TIE, 3))
    } else if has_prefix(s, len, "WHITE") {
        Some((Token::WHITE, 5))
    } else if has_prefix(s, len, "BLACK") {
        Some((Token::BLACK, 5))
    } else {
        None
    }
}

/// The number at the start of the text, with its length.
fn scan_number(s: &str, len: usize) -> (out: Option<(i32, usize)>)
    requires
        len == s@.len(),
    ensures
        match out {
            Some((v, n)) => number_at(s@) == Some((v, n as int)),
            None => number_at(s@) is None,
        },
{
    let negative = len > 0 && s.get_char(0) == '-';
    let sign: usize = if negative {
        1
    } else {
        0
    };
    let (n, value) = scan_digits(s, len, sign);
    if n == 0 {
        return None;
    }
    match value {
        Some(v) => {
            if negative {
                Some(((-v) as i32, sign + n))
            } else if v <= 0x7fff_ffff {
                Some((v as i32, sign + n))
            } else {
                None
            }
        },
        None => None,
    }
}

/// What stands at the start of the text, which is not empty, and how many
/// characters it takes.
fn first_token(s: &str, len: usize) -> (out: (Option<Token>, usize))
    requires
        len == s@.len(),
        len > 0,
    ensures
        first_lexeme(s@) == (
            match out.0 {
                Some(token) => Some(token@),
                None => None,
            },
            out.1 as int,
        ),
        1 <= out.1 <= len,
{
    proof {
        lemma_first_lexeme(s@);
    }
    if let Some((v, n)) = scan_number(s, len) {
        return (Some(Token::INT(v)), n);
    }
    let c = s.get_char(0);
    if c == ' ' || c == '\t' {
        return (None, 1);
    }
    if c == '\n' {
        return (Some(Token::NL), 1);
    }
    if let Some((token, n)) = scan_keyword(s, len) {
        return (Some(token), n);
    }
    let n = scan_word(s, len);
    if n > 0 {
        let word = String::from_str(s.substring_char(0, n));
        return (Some(Token::STR(word)), n);
    }
    (None, 1)
}

/// Appends to `tokens` the tokens of the text `input`, and after them the
/// end mark. The text is used up.
pub fn tokenize(input: &mut String, tokens: &mut Vec<Token>)
    ensures
        final(input)@.len() == 0,
        views(final(tokens)@) == views(old(tokens)@) + lexemes(old(input)@) + seq![Lexeme::EOF],
{
    let ghost mut made: Seq<Lexeme> = Seq::empty();
    loop
        invariant
            views(tokens@) == views(old(tokens)@) + made,
            lexemes(old(input)@) == made + lexemes(input@),
        ensures
            input@.len() == 0,
        decreases input@.len(),
    {
        let len = input.as_str().unicode_len();
        if len == 0 {
            break ;
        }
        let (found, n) = first_token(input.as_str(), len);
        let ghost before = tokens@;
        let ghost text = input@;
        match found {
            Some(token) => {
                proof {
                    assert(made + (seq![token@] + lexemes(text.skip(n as int))) =~= made.push(
                        token@,
                    ) + lexemes(text.skip(n as int)));
                    assert(views(before.push(token)) =~= views(before).push(token@));
                    made = made.push(token@);
                }
                tokens.push(token);
            },
            None => {},
        }
        remove_times(input, n);
    }
    let ghost before = tokens@;
    tokens.push(Token::EOF);
    proof {
        assert(views(before.push(Token::EOF)) =~= views(before).push(Lexeme::EOF));
        assert(made + lexemes(input@) =~= made);
        assert(views(tokens@) =~= views(old(tokens)@) + lexemes(old(input)@) + seq![Lexeme::EOF]);
    }
}

/// The score lines at the start of `t`, as long as four or more lexemes are
/// left: each is a name and three numbers. Nothing where a line is not of
/// that form.
pub open spec fn scores_of(t: Seq<Lexeme>) -> Option<Seq<(Seq<char>, (i32, i32, i32))>>
    decreases t.len(),
{
    if t.len() < 4 {
        Some(Seq::empty())
    } else {
        match (t[0], t[1], t[2], t[3]) {
            (Lexeme::STR(name), Lexeme::INT(a), Lexeme::INT(b), Lexeme::INT(c)) => match scores_of(
                t.skip(4),
            ) {
                Some(rest) => Some(seq![(name, (a, b, c))] + rest),
                None => None,
            },
            _ => None,
        }
    }
}

/// The lexemes that are left after the score lines.
pub open spec fn after_scores(t: Seq<Lexeme>) -> Seq<Lexeme>
    decreases t.len(),
{
    if t.len() < 4 {
        t
    } else {
        after_scores(t.skip(4))
    }
}

/// The move that a text names: `PASS`, or a column letter `A`-`H` and a
/// row digit `1`-`8`.
pub open spec fn move_of(text: Seq<char>) -> Option<Move> {
    if text == "PASS"@ {
        Some(Move::Pass)
    } else if text.len() == 2 && 'A' <= text[0] && text[0] <= 'H' && '1' <= text[1] && text[1]
        <= '8' {
        Some(Move::To((text[0] as int - 64) as i32, (text[1] as int - 48) as i32))
    } else {
        None
    }
}

/// The command that the lexemes of a line make: nothing where they make
/// none, and no command for a line that is empty.
pub open spec fn command_of(t: Seq<Lexeme>) -> Option<Option<CmdView>> {
    if t.len() == 0 {
        None
    } else {
        match t[0] {
            Lexeme::OPEN => if t.len() > 1 && t[1] is STR {
                Some(Some(CmdView::Open(t[1]->STR_0)))
            } else {
                None
            },
            Lexeme::END => if t.len() > 4 && t[2] is INT && t[3] is INT && t[4] is STR {
                match t[1] {
                    Lexeme::WIN => Some(
                        Some(CmdView::End(Res::Win, t[2]->INT_0, t[3]->INT_0, t[4]->STR_0)),
                    ),
                    Lexeme::LOSE => Some(
                        Some(CmdView::End(Res::Lose, t[2]->INT_0, t[3]->INT_0, t[4]->STR_0)),
                    ),
                    Lexeme::TIE => Some(
                        Some(CmdView::End(Res::Tie, t[2]->INT_0, t[3]->INT_0, t[4]->STR_0)),
                    ),
                    _ => None,
                }
            } else {
                None
            },
            Lexeme::MOVE => if t.len() > 1 && t[1] is STR {
                match move_of(t[1]->STR_0) {
                    Some(m) => Some(Some(CmdView::Move(m))),
                    None => None,
                }
            } else {
                None
            },
            Lexeme::START => if t.len() > 3 && t[2] is STR && t[3] is INT {
                match t[1] {
                    Lexeme::WHITE => Some(
                        Some(CmdView::Start(Color::White, t[2]->STR_0, t[3]->INT_0)),
                    ),
                    Lexeme::BLACK => Some(
                        Some(CmdView::Start(Color::Black, t[2]->STR_0, t[3]->INT_0)),
                    ),
                    _ => None,
                }
            } else {
                None
            },
            Lexeme::ACK => if t.len() > 1 && t[1] is INT {
                Some(Some(CmdView::Ack(t[1]->INT_0)))
            } else {
                None
            },
            Lexeme::BYE => match scores_of(t.skip(1)) {
                Some(scores) => Some(Some(CmdView::Bye(scores))),
                None => None,
            },
            Lexeme::NL => Some(None),
            Lexeme::EOF => Some(None),
            _ => None,
        }
    }
}

/// The lexemes that are left when the command has been read: those after
/// the score lines of a `BYE`, and all of them for any other command.
pub open spec fn left_over(t: Seq<Lexeme>) -> Seq<Lexeme> {
    if t.len() > 0 && t[0] is BYE {
        after_scores(t.skip(1))
    } else {
        t
    }
}

proof fn lemma_views_remove(tokens: Seq<Token>)
    requires
        tokens.len() > 0,
    ensures
        views(tokens.remove(0)) == views(tokens).skip(1),
{
    assert(views(tokens.remove(0)) =~= views(tokens).skip(1));
}

/// Whether score lines stand from index `from` on, as `scores_of` asks.
fn has_scores(tokens: &Vec<Token>, from: usize) -> (yes: bool)
    requires
        from <= tokens@.len(),
    ensures
        yes == scores_of(views(tokens@).skip(from as int)) is Some,
{
    let n = tokens.len();
    let mut k = from;
    while n - k >= 4
        invariant
            n == tokens@.len(),
            from <= k <= n,
            scores_of(views(tokens@).skip(from as int)) is Some == scores_of(
                views(tokens@).skip(k as int),
            ) is Some,
        decreases n - k,
    {
        let ghost t = views(tokens@).skip(k as int);
        proof {
            assert(t.skip(4) =~= views(tokens@).skip(k + 4));
            assert(t[0] == tokens@[k as int]@);
            assert(t[1] == tokens@[k + 1]@);
            assert(t[2] == tokens@[k + 2]@);
            assert(t[3] == tokens@[k + 3]@);
        }
        let well = match (&tokens[k], &tokens[k + 1], &tokens[k + 2], &tokens[k + 3]) {
            (Token::STR(_), Token::INT(_), Token::INT(_), Token::INT(_)) => true,
            _ => false,
        };
        if !well {
            return false;
        }
        k += 4;
    }
    true
}

/// The score lines of a `BYE`, taken off the front of `tokens`.
pub fn render_scores(tokens: &mut Vec<Token>) -> (scores: Vec<(String, (i32, i32, i32))>)
    requires
        scores_of(views(old(tokens)@)) is Some,
    ensures
        Some(scores_view(scores@)) == scores_of(views(old(tokens)@)),
        views(final(tokens)@) == after_scores(views(old(tokens)@)),
{
    let mut score_v: Vec<(String, (i32, i32, i32))> = Vec::new();
    let ghost whole = scores_of(views(tokens@))->0;
    while tokens.len() >= 4
        invariant
            scores_of(views(tokens@)) is Some,
            whole == scores_view(score_v@) + scores_of(views(tokens@))->0,
            after_scores(views(tokens@)) == after_scores(views(old(tokens)@)),
        decreases tokens@.len(),
    {
        let ghost t = views(tokens@);
        let ghost before = score_v@;
        let first = tokens.remove(0);
        let second = tokens.remove(0);
        let third = tokens.remove(0);
        let fourth = tokens.remove(0);
        proof {
            assert(first@ == t[0]);
            assert(second@ == t[1]);
            assert(third@ == t[2]);
            assert(fourth@ == t[3]);
            assert(views(tokens@) =~= t.skip(4));
        }
        match (first, second, third, fourth) {
            (Token::STR(name), Token::INT(a), Token::INT(b), Token::INT(c)) => {
                score_v.push((name, (a, b, c)));
                proof {
                    assert(scores_view(score_v@) =~= scores_view(before).push((name@, (a, b, c))));
                    assert(scores_view(before) + (seq![(name@, (a, b, c))] + scores_of(
                        t.skip(4),
                    )->0) =~= scores_view(score_v@) + scores_of(t.skip(4))->0);
                }
            },
            _ => {
                assert(false);
            },
        }
    }
    proof {
        assert(scores_view(score_v@) + Seq::empty() =~= scores_view(score_v@));
    }
    score_v
}

/// The move that a text names.
fn parse_move(text: &String) -> (m: Option<Move>)
    ensures
        m == move_of(text@),
        m matches Some(found) ==> found.on_board(),
{
    let s = text.as_str();
    let len = s.unicode_len();
    proof {
        reveal_strlit("PASS");
    }
    if len == 4 && s.get_char(0) == 'P' && s.get_char(1) == 'A' && s.get_char(2) == 'S'
        && s.get_char(3) == 'S' {
        assert(s@ =~= "PASS"@);
        return Some(Move::Pass);
    }
    if len == 2 {
        let s0 = s.get_char(0);
        let s1 = s.get_char(1);
        if s0 >= 'A' && s0 <= 'H' && s1 >= '1' && s1 <= '8' {
            return Some(Move::To((s0 as u8 - 64) as i32, (s1 as u8 - 48) as i32));
        }
    }
    None
}

/// Whether the tokens of a line make a command or an empty line.
pub fn is_command(tokens: &Vec<Token>) -> (yes: bool)
    ensures
        yes == command_of(views(tokens@)) is Some,
{
    let n = tokens.len();
    if n == 0 {
        return false;
    }
    let ghost t = views(tokens@);
    proof {
        assert(t[0] == tokens@[0]@);
        if n > 1 {
            assert(t[1] == tokens@[1]@);
        }
        if n > 2 {
            assert(t[2] == tokens@[2]@);
        }
        if n > 3 {
            assert(t[3] == tokens@[3]@);
        }
        if n > 4 {
            assert(t[4] == tokens@[4]@);
        }
    }
    match &tokens[0] {
        Token::OPEN => n > 1 && match &tokens[1] {
            Token::STR(_) => true,
            _ => false,
        },
        Token::END => n > 4 && match (&tokens[1], &tokens[2], &tokens[3], &tokens[4]) {
            (Token::WIN, Token::INT(_), Token::INT(_), Token::STR(_)) => true,
            (Token::LOSE, Token::INT(_), Token::INT(_), Token::STR(_)) => true,
            (Token::TIE, Token::INT(_), Token::INT(_), Token::STR(_)) => true,
            _ => false,
        },
        Token::MOVE => n > 1 && match &tokens[1] {
            Token::STR(text) => parse_move(text).is_some(),
            _ => false,
        },
        Token::START => n > 3 && match (&tokens[1], &tokens[2], &tokens[3]) {
            (Token::WHITE, Token::STR(_), Token::INT(_)) => true,
            (Token::BLACK, Token::STR(_), Token::INT(_)) => true,
            _ => false,
        },
        Token::ACK => n > 1 && match &tokens[1] {
            Token::INT(_) => true,
            _ => false,
        },
        Token::BYE => has_scores(tokens, 1),
        Token::NL => true,
        Token::EOF => true,
        _ => false,
    }
}

/// The command that the tokens of a line make, or none for an empty line.
/// The score lines of a `BYE` are taken off `tokens`, and the `BYE` with
/// them.
pub fn parse(tokens: &mut Vec<Token>) -> (out: Option<Cmd>)
    requires
        command_of(views(old(tokens)@)) is Some,
    ensures
        command_of(views(old(tokens)@)) == Some(
            match out {
                Some(cmd) => Some(cmd@),
                None => None,
            },
        ),
        views(final(tokens)@) == left_over(views(old(tokens)@)),
        out matches Some(Cmd::Move(m)) ==> m.on_board(),
{
    let n = tokens.len();
    let ghost t = views(tokens@);
    proof {
        assert(t[0] == tokens@[0]@);
        if n > 1 {
            assert(t[1] == tokens@[1]@);
        }
        if n > 2 {
            assert(t[2] == tokens@[2]@);
        }
        if n > 3 {
            assert(t[3] == tokens@[3]@);
        }
        if n > 4 {
            assert(t[4] == tokens@[4]@);
        }
    }
    match &tokens[0] {
        Token::OPEN => match &tokens[1] {
            Token::STR(s) => Some(Cmd::Open(s.clone())),
            _ => None,
        },
        Token::END => match (&tokens[1], &tokens[2], &tokens[3], &tokens[4]) {
            (Token::WIN, Token::INT(m), Token::INT(n), Token::STR(s)) => Some(
                Cmd::End(Res::Win, *m, *n, s.clone()),
            ),
            (Token::LOSE, Token::INT(m), Token::INT(n), Token::STR(s)) => Some(
                Cmd::End(Res::Lose, *m, *n, s.clone()),
            ),
            (Token::TIE, Token::INT(m), Token::INT(n), Token::STR(s)) => Some(
                Cmd::End(Res::Tie, *m, *n, s.clone()),
            ),
            _ => None,
        },
        Token::MOVE => match &tokens[1] {
            Token::STR(text) => match parse_move(text) {
                Some(m) => Some(Cmd::Move(m)),
                None => None,
            },
            _ => None,
        },
        Token::START => match (&tokens[1], &tokens[2], &tokens[3]) {
            (Token::WHITE, Token::STR(s), Token::INT(n)) => Some(
                Cmd::Start(Color::White, s.clone(), *n),
            ),
            (Token::BLACK, Token::STR(s), Token::INT(n)) => Some(
                Cmd::Start(Color::Black, s.clone(), *n),
            ),
            _ => None,
        },
        Token::ACK => match &tokens[1] {
            Token::INT(n) => Some(Cmd::Ack(*n)),
            _ => None,
        },
        Token::BYE => {
            proof {
                lemma_views_remove(tokens@);
            }
            tokens.remove(0);
            Some(Cmd::Bye(render_scores(tokens)))
        },
        _ => None,
    }
}

} // verus!
