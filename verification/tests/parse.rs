use reversi::parse::{is_command, parse, remove_times, render_scores, tokenize, Token};

fn lex(text: &str) -> Vec<Token> {
    let mut input = text.to_string();
    let mut tokens = Vec::new();
    tokenize(&mut input, &mut tokens);
    assert!(input.is_empty());
    tokens
}

fn word(text: &str) -> Token {
    Token::STR(text.to_string())
}

fn read(text: &str) -> String {
    let mut tokens = lex(text);
    assert!(is_command(&tokens), "{:?}", tokens);
    format!("{:?}", parse(&mut tokens))
}

#[test]
fn an_empty_text_gives_the_end_mark() {
    assert_eq!(lex(""), vec![Token::EOF]);
    assert_eq!(lex("  \t \r"), vec![Token::EOF]);
}

#[test]
fn tokens_are_appended() {
    let mut input = "ACK 5".to_string();
    let mut tokens = vec![Token::NL, word("x")];
    tokenize(&mut input, &mut tokens);
    assert_eq!(tokens, vec![Token::NL, word("x"), Token::ACK, Token::INT(5), Token::EOF]);
    assert_eq!(input, "");
}

#[test]
fn keywords_numbers_words_and_line_ends() {
    assert_eq!(lex("MOVE D3\n"), vec![Token::MOVE, word("D3"), Token::NL, Token::EOF]);
    assert_eq!(
        lex("START BLACK alice 60000\n"),
        vec![Token::START, Token::BLACK, word("alice"), Token::INT(60000), Token::NL, Token::EOF]
    );
    assert_eq!(
        lex("END WIN 40 24 DOUBLE_PASS\n"),
        vec![Token::END, Token::WIN, Token::INT(40), Token::INT(24), word("DOUBLE_PASS"), Token::NL, Token::EOF]
    );
    assert_eq!(
        lex("OPEN\tLOSE TIE  WHITE\r\nBYE"),
        vec![Token::OPEN, Token::LOSE, Token::TIE, Token::WHITE, Token::NL, Token::BYE, Token::EOF]
    );
}

#[test]
fn numbers_take_a_sign_and_all_their_digits() {
    assert_eq!(lex("-5"), vec![Token::INT(-5), Token::EOF]);
    assert_eq!(lex("007"), vec![Token::INT(7), Token::EOF]);
    assert_eq!(lex("-0"), vec![Token::INT(0), Token::EOF]);
    assert_eq!(lex("12ab"), vec![Token::INT(12), word("ab"), Token::EOF]);
    assert_eq!(lex("1-2"), vec![Token::INT(1), Token::INT(-2), Token::EOF]);
    assert_eq!(lex("2147483647"), vec![Token::INT(i32::MAX), Token::EOF]);
    assert_eq!(lex("-2147483648"), vec![Token::INT(i32::MIN), Token::EOF]);
}

#[test]
fn numbers_that_do_not_fit_are_words() {
    assert_eq!(lex("2147483648"), vec![word("2147483648"), Token::EOF]);
    assert_eq!(lex("-2147483649 1"), vec![word("-2147483649"), Token::INT(1), Token::EOF]);
    assert_eq!(lex("99999999999999999999999x"), vec![word("99999999999999999999999x"), Token::EOF]);
}

#[test]
fn a_lone_sign_is_a_word() {
    assert_eq!(lex("-"), vec![word("-"), Token::EOF]);
    assert_eq!(lex("-a"), vec![word("-a"), Token::EOF]);
    assert_eq!(lex("a-1"), vec![word("a-1"), Token::EOF]);
}

#[test]
fn a_keyword_ends_where_its_letters_end() {
    assert_eq!(lex("OPENER"), vec![Token::OPEN, word("ER"), Token::EOF]);
    assert_eq!(lex("xOPEN"), vec![word("xOPEN"), Token::EOF]);
    assert_eq!(lex("open"), vec![word("open"), Token::EOF]);
    assert_eq!(lex("ACKBYE"), vec![Token::ACK, Token::BYE, Token::EOF]);
}

#[test]
fn words_may_hold_any_characters_but_blanks() {
    assert_eq!(lex("\u{e9}t\u{e9} x"), vec![word("\u{e9}t\u{e9}"), word("x"), Token::EOF]);
}

#[test]
fn remove_times_takes_characters_off_the_front() {
    let mut s = "hello".to_string();
    remove_times(&mut s, 2);
    assert_eq!(s, "llo");
    remove_times(&mut s, 0);
    assert_eq!(s, "llo");
    remove_times(&mut s, 3);
    assert_eq!(s, "");
    let mut t = "\u{e9}a".to_string();
    remove_times(&mut t, 1);
    assert_eq!(t, "a");
}

#[test]
fn commands_are_read_from_lines() {
    assert_eq!(read("OPEN me\n"), "Some(Open(\"me\"))");
    assert_eq!(read("START BLACK you 60000\n"), "Some(Start(Black, \"you\", 60000))");
    assert_eq!(read("START WHITE you 1\n"), "Some(Start(White, \"you\", 1))");
    assert_eq!(read("END WIN 40 24 DOUBLE_PASS\n"), "Some(End(Win, 40, 24, \"DOUBLE_PASS\"))");
    assert_eq!(read("END LOSE 1 2 r\n"), "Some(End(Lose, 1, 2, \"r\"))");
    assert_eq!(read("END TIE 32 32 r\n"), "Some(End(Tie, 32, 32, \"r\"))");
    assert_eq!(read("MOVE D3\n"), "Some(Move(To(4, 3)))");
    assert_eq!(read("MOVE A1\n"), "Some(Move(To(1, 1)))");
    assert_eq!(read("MOVE H8\n"), "Some(Move(To(8, 8)))");
    assert_eq!(read("MOVE PASS\n"), "Some(Move(Pass))");
    assert_eq!(read("ACK 59000\n"), "Some(Ack(59000))");
    assert_eq!(read("ACK -1\n"), "Some(Ack(-1))");
}

#[test]
fn empty_lines_give_no_command() {
    assert_eq!(read("\n"), "None");
    assert_eq!(read(""), "None");
    assert_eq!(read("   "), "None");
}

#[test]
fn bye_carries_the_score_lines() {
    assert_eq!(read("BYE\n"), "Some(Bye([]))");
    assert_eq!(read("BYE a 1 2 3\n"), "Some(Bye([(\"a\", (1, 2, 3))]))");
    assert_eq!(
        read("BYE a 1 2 3 b -4 5 6\n"),
        "Some(Bye([(\"a\", (1, 2, 3)), (\"b\", (-4, 5, 6))]))"
    );
    let mut tokens = lex("BYE a 1 2 3 b 4 5 6\n");
    assert!(matches!(parse(&mut tokens), Some(_)));
    assert_eq!(tokens, vec![Token::NL, Token::EOF]);
}

#[test]
fn render_scores_takes_lines_of_four() {
    let mut tokens = vec![word("a"), Token::INT(1), Token::INT(2), Token::INT(3), Token::NL, Token::EOF];
    assert_eq!(render_scores(&mut tokens), vec![("a".to_string(), (1, 2, 3))]);
    assert_eq!(tokens, vec![Token::NL, Token::EOF]);
    let mut short = vec![word("a"), Token::INT(1), Token::INT(2)];
    assert!(render_scores(&mut short).is_empty());
    assert_eq!(short.len(), 3);
}

#[test]
fn other_commands_leave_the_tokens() {
    let mut tokens = lex("ACK 5\n");
    assert!(matches!(parse(&mut tokens), Some(_)));
    assert_eq!(tokens, vec![Token::ACK, Token::INT(5), Token::NL, Token::EOF]);
}

#[test]
fn what_is_no_command_is_told_apart() {
    for text in [
        "OPEN\n",
        "OPEN 5\n",
        "END WIN 40 24\n",
        "END BLACK 40 24 r\n",
        "END WIN a 24 r\n",
        "MOVE\n",
        "MOVE 5\n",
        "MOVE I1\n",
        "MOVE A9\n",
        "MOVE d3\n",
        "MOVE D33\n",
        "MOVE PASSX\n",
        "START RED you 1\n",
        "START BLACK 1 1\n",
        "START BLACK you\n",
        "ACK\n",
        "ACK now\n",
        "BYE a 1 2\n",
        "BYE 1 2 3 4\n",
        "hello\n",
        "5\n",
        "WIN\n",
        "ACK 2147483648\n",
    ] {
        assert!(!is_command(&lex(text)), "{:?}", text);
    }
    assert!(!is_command(&Vec::new()));
    assert!(is_command(&lex("ACK 1 trailing words\n")));
    assert!(is_command(&lex("BYE a 1 2 3 b\n")));
}

const KEYWORDS: [&str; 11] =
    ["OPEN", "END", "MOVE", "START", "ACK", "BYE", "WIN", "LOSE", "TIE", "WHITE", "BLACK"];

fn keyword(name: &str) -> Token {
    match name {
        "OPEN" => Token::OPEN,
        "END" => Token::END,
        "MOVE" => Token::MOVE,
        "START" => Token::START,
        "ACK" => Token::ACK,
        "BYE" => Token::BYE,
        "WIN" => Token::WIN,
        "LOSE" => Token::LOSE,
        "TIE" => Token::TIE,
        "WHITE" => Token::WHITE,
        _ => Token::BLACK,
    }
}

/// The tokens that the two patterns of the protocol give: a number is an
/// optional `-` and digits, a word is a run of characters other than
/// blanks and line ends. Nothing where a number cannot be read.
fn by_patterns(text: &str) -> Option<Vec<Token>> {
    let number = regex::Regex::new(r"^-?\d+").unwrap();
    let any_word = regex::Regex::new(r"^[^ \t\n\r]+").unwrap();
    let mut rest = text;
    let mut tokens = Vec::new();
    'text: while !rest.is_empty() {
        if let Some(found) = number.find(rest) {
            tokens.push(Token::INT(found.as_str().parse().ok()?));
            rest = &rest[found.end()..];
            continue;
        }
        if rest.starts_with(' ') || rest.starts_with('\t') {
            rest = &rest[1..];
            continue;
        }
        if rest.starts_with('\n') {
            tokens.push(Token::NL);
            rest = &rest[1..];
            continue;
        }
        for name in KEYWORDS {
            if rest.starts_with(name) {
                tokens.push(keyword(name));
                rest = &rest[name.len()..];
                continue 'text;
            }
        }
        if let Some(found) = any_word.find(rest) {
            tokens.push(word(found.as_str()));
            rest = &rest[found.end()..];
        } else {
            rest = &rest[1..];
        }
    }
    tokens.push(Token::EOF);
    Some(tokens)
}

#[test]
fn the_tokens_are_those_of_the_two_patterns() {
    let pieces = [
        "", " ", "\t", "\n", "\r", "-", "0", "7", "12", "-3", "2147483647", "-2147483648", "x", "ab",
        "OPEN", "END", "MOVE", "START", "ACK", "BYE", "WIN", "LOSE", "TIE", "WHITE", "BLACK", "PASS",
        "D3", "open", "OP", "\u{e9}", "_", "A1", "-x", "9z", "2147483648", "\u{663}",
    ];
    let mut seen = 0;
    for a in pieces {
        for b in pieces {
            for c in [" ", "", "\n"] {
                let text = format!("{}{}{}{}", a, c, b, a);
                if let Some(expected) = by_patterns(&text) {
                    assert_eq!(lex(&text), expected, "{:?}", text);
                    seen += 1;
                }
            }
        }
    }
    assert!(seen > 3000);
    assert_eq!(by_patterns("2147483648"), None);
    assert_eq!(by_patterns("\u{663}"), None);
}
