use reversi::bitboard::Board;
use reversi::book::{move_str_to_bit, Book, BOOK_DATA};
use std::collections::HashMap;

fn at(name: &str) -> u64 {
    let b = name.as_bytes();
    1u64 << ((b[1] - b'1') as u64 * 8 + (b[0] - b'a') as u64)
}

fn after(line: &str) -> Board {
    let mut board = Board::new();
    for i in (0..line.len()).step_by(2) {
        assert!(board.try_next(at(&line[i..i + 2])), "{} in {}", &line[i..i + 2], line);
        board.exchange();
    }
    board
}

#[test]
fn tokens_name_cells() {
    assert_eq!(move_str_to_bit("a1"), 1);
    assert_eq!(move_str_to_bit("h1"), 1 << 7);
    assert_eq!(move_str_to_bit("a8"), 1 << 56);
    assert_eq!(move_str_to_bit("h8"), 1 << 63);
    assert_eq!(move_str_to_bit("f5"), 1 << 37);
    assert_eq!(move_str_to_bit("f5d6"), 1 << 37);
}

#[test]
fn tokens_that_name_no_cell_give_zero() {
    assert_eq!(move_str_to_bit(""), 0);
    assert_eq!(move_str_to_bit("f"), 0);
    assert_eq!(move_str_to_bit("i1"), 0);
    assert_eq!(move_str_to_bit("a9"), 0);
    assert_eq!(move_str_to_bit("a0"), 0);
    assert_eq!(move_str_to_bit("F5"), 0);
    assert_eq!(move_str_to_bit("5f"), 0);
    assert_eq!(move_str_to_bit("\u{e9}5"), 0);
}

#[test]
fn the_standard_book_opens_with_f5() {
    let book = Book::new(BOOK_DATA);
    assert_eq!(book.get(&Board::new()), Some(at("f5")));
    assert_eq!(book.get(&after("f5")), Some(at("d6")));
    assert_eq!(book.get(&after("f5d6")), Some(at("c3")));
    assert_eq!(book.get(&after("f5f6")), Some(at("e6")));
    assert_eq!(book.get(&after("d3")), None);
}

#[test]
fn an_empty_corpus_gives_an_empty_book() {
    assert_eq!(Book::new("").get(&Board::new()), None);
    assert_eq!(Book::new("\n\n  \n").get(&Board::new()), None);
    assert_eq!(Book::new("# f5\n").get(&Board::new()), None);
}

#[test]
fn the_first_line_to_reach_a_position_wins() {
    let book = Book::new("f5d6\nf5f6\nd3\nf5f4e3\n");
    assert_eq!(book.get(&Board::new()), Some(at("f5")));
    assert_eq!(book.get(&after("f5")), Some(at("d6")));
    assert_eq!(book.get(&after("f5f4")), Some(at("e3")));
    assert_eq!(book.get(&after("f5d6")), None);
    let other = Book::new("d3\nf5d6\n");
    assert_eq!(other.get(&Board::new()), Some(at("d3")));
    assert_eq!(other.get(&after("f5")), Some(at("d6")));
}

#[test]
fn an_illegal_token_ends_its_line_and_records_nothing() {
    let book = Book::new("f5a1c3\nd3c3\n");
    assert_eq!(book.get(&Board::new()), Some(at("f5")));
    assert_eq!(book.get(&after("f5")), None);
    assert_eq!(book.get(&after("d3")), Some(at("c3")));
    let bad = Book::new("z9f5\nf5xx\n");
    assert_eq!(bad.get(&Board::new()), Some(at("f5")));
    assert_eq!(bad.get(&after("f5")), None);
}

#[test]
fn blanks_comments_and_odd_ends_are_left_out() {
    let book = Book::new("\n  # a comment\n\t f5d6c \r\n#f5f6\n\n");
    assert_eq!(book.get(&Board::new()), Some(at("f5")));
    assert_eq!(book.get(&after("f5")), Some(at("d6")));
    assert_eq!(book.get(&after("f5d6")), None);
    let last = Book::new("f5d6");
    assert_eq!(last.get(&after("f5")), Some(at("d6")));
    let carriage = Book::new("f5\r\nf5d6\r\n");
    assert_eq!(carriage.get(&after("f5")), Some(at("d6")));
}

#[test]
fn every_prefix_of_the_standard_corpus_maps_to_the_first_move_seen() {
    let book = Book::new(BOOK_DATA);
    let mut first: HashMap<(u64, u64), u64> = HashMap::new();
    let mut lines = 0;
    for line in BOOK_DATA.lines() {
        let line = line.trim();
        if line.is_empty() || line.starts_with('#') {
            continue;
        }
        lines += 1;
        let mut board = Board::new();
        for i in (0..line.len() / 2 * 2).step_by(2) {
            let mv = at(&line[i..i + 2]);
            let key = (board.get_black(), board.get_white());
            let claimed = first.get(&key).copied();
            if board.legals().0 & mv == 0 {
                break;
            }
            let expected = *first.entry(key).or_insert(mv);
            assert_eq!(book.get(&board), Some(expected));
            assert!(expected == mv || claimed.is_some());
            assert!(board.try_next(mv));
            board.exchange();
        }
    }
    assert_eq!(lines, 164);
    assert_eq!(first.len(), 281);
}

#[test]
fn every_book_move_is_legal() {
    let book = Book::new(BOOK_DATA);
    for line in BOOK_DATA.lines() {
        let mut board = Board::new();
        for i in (0..line.len() / 2 * 2).step_by(2) {
            if let Some(mv) = book.get(&board) {
                assert_eq!(mv.count_ones(), 1);
                assert_eq!(board.legals().0 & mv, mv);
            }
            if !board.try_next(at(&line[i..i + 2])) {
                break;
            }
            board.exchange();
        }
    }
}
