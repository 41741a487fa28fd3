use rand::rngs::StdRng;
use rand::SeedableRng;
use reversi::bitboard::Board;
use reversi::book::{Book, BOOK_DATA};
use reversi::evaluator::Weights;
use reversi::searcher::Searcher;
use reversi::search::{
    alpha_beta, candidate_moves, node_kind, search, search_depth, swap_pick, table_cut, Cut,
    EXHAUSTIVE_AFTER, EXHAUSTIVE_DEPTH,
};
use reversi::transposition::{NodeType, TableEntry, TranspositionTable};

const MAX: i32 = Board::MAX_EVAL;
const WIPEOUT: &str = "e6f4e3f6g5d6e7f5c5";

fn square(name: &str) -> u64 {
    let b = name.as_bytes();
    1u64 << ((b[1] - b'1') as u64 * 8 + (b[0] - b'a') as u64)
}

fn position(line: &str) -> Board {
    let mut board = Board::new();
    for i in (0..line.len()).step_by(2) {
        assert!(board.try_next(square(&line[i..i + 2])));
        board.exchange();
    }
    board
}

/// Plays the lowest legal move, or passes, until `stones` stones are on the
/// board or the game is over.
fn play_out(stones: usize) -> Board {
    let mut board = Board::new();
    let mut passed = false;
    while board.turns() < stones {
        let legals = board.legals().0;
        if legals == 0 {
            if passed {
                break;
            }
            passed = true;
        } else {
            passed = false;
            assert!(board.try_next(1u64 << legals.trailing_zeros()));
        }
        board.exchange();
    }
    board
}

/// Plain negamax without a window, a table or a move order.
fn negamax(board: &Board, depth: usize, pass: bool, weights: &Weights) -> i32 {
    let (legals, hints) = board.legals();
    if legals == 0 {
        if pass {
            return board.evaluate_end();
        }
        let mut other = *board;
        other.exchange();
        return -negamax(&other, depth, true, weights);
    }
    if depth == 0 {
        let mut other = *board;
        other.exchange();
        return board.evaluate(legals, other.legals().0, weights);
    }
    let mut best = -MAX;
    for m in 0..64 {
        if legals >> m & 1 == 1 {
            let mut next = *board;
            next.next(1u64 << m, hints);
            next.exchange();
            best = best.max(-negamax(&next, depth - 1, false, weights));
        }
    }
    best
}

fn entry(score: i32, depth: usize, node_type: NodeType) -> TableEntry {
    TableEntry { score, depth, node_type }
}

#[test]
fn the_depth_shrinks_with_time_pressure_until_late_in_the_game() {
    assert_eq!((EXHAUSTIVE_AFTER, EXHAUSTIVE_DEPTH), (46, 64));
    assert_eq!(search_depth(5, 10, 0), 10);
    assert_eq!(search_depth(5, 10, 1), 8);
    assert_eq!(search_depth(46, 10, 2), 6);
    assert_eq!(search_depth(46, 4, 2), 0);
    assert_eq!(search_depth(47, 10, 2), 64);
    assert_eq!(search_depth(64, 0, 0), 64);
}

#[test]
fn an_entry_of_a_shallower_search_is_of_no_use() {
    assert_eq!(table_cut(None, 3, -5, 5), Cut::Search(-5));
    assert_eq!(table_cut(Some(entry(100, 2, NodeType::Exact)), 3, -5, 5), Cut::Search(-5));
    assert_eq!(table_cut(Some(entry(100, 2, NodeType::LowerBound)), 3, -5, 5), Cut::Search(-5));
}

#[test]
fn an_exact_entry_settles_the_node() {
    assert_eq!(table_cut(Some(entry(100, 3, NodeType::Exact)), 3, -5, 5), Cut::Return(100));
    assert_eq!(table_cut(Some(entry(-7, 9, NodeType::Exact)), 3, -5, 5), Cut::Return(-7));
}

#[test]
fn a_lower_bound_cuts_at_beta_or_raises_alpha() {
    assert_eq!(table_cut(Some(entry(5, 3, NodeType::LowerBound)), 3, -5, 5), Cut::Return(5));
    assert_eq!(table_cut(Some(entry(9, 3, NodeType::LowerBound)), 3, -5, 5), Cut::Return(5));
    assert_eq!(table_cut(Some(entry(4, 3, NodeType::LowerBound)), 3, -5, 5), Cut::Search(4));
    assert_eq!(table_cut(Some(entry(-5, 3, NodeType::LowerBound)), 3, -5, 5), Cut::Search(-5));
    assert_eq!(table_cut(Some(entry(-9, 3, NodeType::LowerBound)), 3, -5, 5), Cut::Search(-5));
}

#[test]
fn an_upper_bound_cuts_at_alpha() {
    assert_eq!(table_cut(Some(entry(-5, 3, NodeType::UpperBound)), 3, -5, 5), Cut::Return(-5));
    assert_eq!(table_cut(Some(entry(-9, 3, NodeType::UpperBound)), 3, -5, 5), Cut::Return(-5));
    assert_eq!(table_cut(Some(entry(-4, 3, NodeType::UpperBound)), 3, -5, 5), Cut::Search(-5));
}

#[test]
fn the_kind_of_a_score_follows_the_window() {
    assert_eq!(node_kind(-6, -5, 5), NodeType::UpperBound);
    assert_eq!(node_kind(-5, -5, 5), NodeType::UpperBound);
    assert_eq!(node_kind(-4, -5, 5), NodeType::Exact);
    assert_eq!(node_kind(4, -5, 5), NodeType::Exact);
    assert_eq!(node_kind(5, -5, 5), NodeType::LowerBound);
    assert_eq!(node_kind(6, -5, 5), NodeType::LowerBound);
    assert_eq!(node_kind(0, 3, 3), NodeType::UpperBound);
}

#[test]
fn candidates_come_lowest_cell_first() {
    assert!(candidate_moves(0).is_empty());
    assert_eq!(candidate_moves(0b1011), vec![1, 2, 8]);
    assert_eq!(candidate_moves(1 << 63 | 1), vec![1, 1 << 63]);
    assert_eq!(candidate_moves(u64::MAX).len(), 64);
    let start = Board::new().legals().0;
    assert_eq!(candidate_moves(start), vec![square("d3"), square("c4"), square("f5"), square("e6")]);
}

#[test]
fn a_pick_swaps_with_an_item_from_its_place_on() {
    let mut v = vec![10, 20, 30, 40];
    swap_pick(&mut v, 0, 0);
    assert_eq!(v, vec![10, 20, 30, 40]);
    swap_pick(&mut v, 0, 7);
    assert_eq!(v, vec![40, 20, 30, 10]);
    swap_pick(&mut v, 1, 5);
    assert_eq!(v, vec![40, 10, 30, 20]);
    swap_pick(&mut v, 3, usize::MAX);
    assert_eq!(v, vec![40, 10, 30, 20]);
    swap_pick(&mut v, 2, 1);
    assert_eq!(v, vec![40, 10, 20, 30]);
}

#[test]
fn the_book_move_comes_without_a_search() {
    let book = Book::new(BOOK_DATA);
    let weights = Weights::standard();
    let mut table = TranspositionTable::new();
    let mut rng = StdRng::seed_from_u64(1);
    let board = Board::new();
    let (mv, hints) = search(&board, 10, 0, &book, &weights, &mut table, &mut rng);
    assert_eq!(mv, square("f5"));
    assert_eq!(hints, board.legals().1);
    assert!(table.probe((board.get_black(), board.get_white())).is_none());
    let second = position("f5");
    assert_eq!(search(&second, 10, 2, &book, &weights, &mut table, &mut rng).0, square("d6"));
}

#[test]
fn without_a_legal_move_the_search_passes() {
    let book = Book::new("");
    let weights = Weights::standard();
    let mut table = TranspositionTable::new();
    let mut rng = StdRng::seed_from_u64(1);
    let board = position(WIPEOUT);
    let (mv, hints) = search(&board, 10, 0, &book, &weights, &mut table, &mut rng);
    assert_eq!(mv, 0);
    assert_eq!(hints, [(0, 0); 4]);
}

#[test]
fn the_search_returns_a_legal_move_whatever_the_seed() {
    let book = Book::new("");
    let weights = Weights::standard();
    for seed in 0..8 {
        let mut table = TranspositionTable::new();
        let mut rng = StdRng::seed_from_u64(seed);
        for line in ["", "f5", "f5d6c5f4e3c6d3f6e6d7"] {
            let board = position(line);
            let (legals, hints) = board.legals();
            let (mv, got) = search(&board, 4, 1, &book, &weights, &mut table, &mut rng);
            assert_eq!(mv.count_ones(), 1);
            assert_eq!(legals & mv, mv);
            assert_eq!(got, hints);
        }
    }
}

#[test]
fn the_same_seed_gives_the_same_move() {
    let book = Book::new("");
    let weights = Weights::standard();
    let board = position("f5f6e6f4");
    let mut first = Vec::new();
    for _ in 0..3 {
        let mut table = TranspositionTable::new();
        let mut rng = StdRng::seed_from_u64(42);
        first.push(search(&board, 3, 0, &book, &weights, &mut table, &mut rng).0);
    }
    assert_eq!(first[0], first[1]);
    assert_eq!(first[1], first[2]);
}

#[test]
fn the_search_picks_a_move_of_the_best_value() {
    let book = Book::new("");
    let weights = Weights::standard();
    for (line, depth) in [("", 3), ("f5", 2), ("f5d6c5f4e3", 3), ("f5f6e6f4e3", 4)] {
        let board = position(line);
        let (legals, hints) = board.legals();
        let mut values = Vec::new();
        for m in 0..64 {
            if legals >> m & 1 == 1 {
                let mut next = board;
                next.next(1u64 << m, hints);
                next.exchange();
                values.push((1u64 << m, -negamax(&next, depth, false, &weights)));
            }
        }
        let best = values.iter().map(|v| v.1).max();
        for seed in 0..5 {
            let mut table = TranspositionTable::new();
            let mut rng = StdRng::seed_from_u64(seed);
            let (mv, _) = search(&board, depth, 0, &book, &weights, &mut table, &mut rng);
            let value = values.iter().find(|v| v.0 == mv).map(|v| v.1);
            assert_eq!(value, best, "line {:?} seed {}", line, seed);
        }
    }
}

#[test]
fn a_wide_window_gives_the_negamax_value() {
    let weights = Weights::standard();
    for line in ["", "f5", "f5d6", "f5d6c5f4e3c6d3"] {
        let board = position(line);
        for depth in 0..4 {
            for seed in 0..3 {
                let mut table = TranspositionTable::new();
                let mut rng = StdRng::seed_from_u64(seed);
                let got = alpha_beta(&board, -MAX, MAX, depth, false, &weights, &mut table, &mut rng);
                assert_eq!(got, negamax(&board, depth, false, &weights), "{:?} depth {}", line, depth);
            }
        }
    }
}

#[test]
fn a_narrow_window_bounds_the_negamax_value() {
    let weights = Weights::standard();
    let board = position("f5d6c5f4");
    let value = negamax(&board, 3, false, &weights);
    for (alpha, beta) in [(value - 10, value + 10), (value, value + 1), (value + 5, value + 50), (value - 50, value - 5)] {
        let mut table = TranspositionTable::new();
        let mut rng = StdRng::seed_from_u64(9);
        let got = alpha_beta(&board, alpha, beta, 3, false, &weights, &mut table, &mut rng);
        if got <= alpha {
            assert!(value <= got);
        } else if got >= beta {
            assert!(value >= got);
        } else {
            assert_eq!(got, value);
        }
    }
}

#[test]
fn at_depth_zero_the_value_is_the_static_evaluation() {
    let weights = Weights::standard();
    let mut table = TranspositionTable::new();
    let mut rng = StdRng::seed_from_u64(3);
    let board = position("f5d6c5");
    let mut other = board;
    other.exchange();
    let expected = board.evaluate(board.legals().0, other.legals().0, &weights);
    assert_eq!(alpha_beta(&board, -MAX, MAX, 0, false, &weights, &mut table, &mut rng), expected);
    assert_eq!(alpha_beta(&board, 5, 6, 0, true, &weights, &mut table, &mut rng), expected);
    assert!(table.probe((board.get_black(), board.get_white())).is_none());
}

#[test]
fn after_two_passes_the_stones_are_counted() {
    let weights = Weights::standard();
    let mut table = TranspositionTable::new();
    let mut rng = StdRng::seed_from_u64(3);
    let lost = position(WIPEOUT);
    assert_eq!(alpha_beta(&lost, -MAX, MAX, 5, true, &weights, &mut table, &mut rng), -MAX);
    assert_eq!(alpha_beta(&lost, -MAX, MAX, 5, false, &weights, &mut table, &mut rng), -MAX);
    let mut won = lost;
    won.exchange();
    assert_eq!(alpha_beta(&won, -MAX, MAX, 0, false, &weights, &mut table, &mut rng), MAX);
    assert_eq!(alpha_beta(&won, -1, 1, 7, true, &weights, &mut table, &mut rng), MAX);
}

#[test]
fn a_stored_exact_score_is_returned() {
    let weights = Weights::standard();
    let mut table = TranspositionTable::new();
    let mut rng = StdRng::seed_from_u64(3);
    let board = Board::new();
    let key = (board.get_black(), board.get_white());
    table.store(key, entry(1234, 6, NodeType::Exact));
    assert_eq!(alpha_beta(&board, -MAX, MAX, 6, false, &weights, &mut table, &mut rng), 1234);
    assert_eq!(alpha_beta(&board, -MAX, MAX, 2, true, &weights, &mut table, &mut rng), 1234);
    table.store(key, entry(77, 6, NodeType::LowerBound));
    assert_eq!(alpha_beta(&board, -MAX, 50, 3, false, &weights, &mut table, &mut rng), 50);
    table.store(key, entry(-77, 6, NodeType::UpperBound));
    assert_eq!(alpha_beta(&board, -50, 50, 3, false, &weights, &mut table, &mut rng), -50);
}

#[test]
fn a_search_keeps_its_results_in_the_table() {
    let weights = Weights::standard();
    let mut table = TranspositionTable::new();
    let mut rng = StdRng::seed_from_u64(3);
    let board = Board::new();
    let key = (board.get_black(), board.get_white());
    let got = alpha_beta(&board, -MAX, MAX, 3, false, &weights, &mut table, &mut rng);
    let kept = table.probe(key);
    assert!(matches!(kept, Some(TableEntry { depth: 3, node_type: NodeType::Exact, .. })));
    assert_eq!(kept.map(|e| e.score), Some(got));
    table.store(key, entry(0, 9, NodeType::UpperBound));
    let again = alpha_beta(&board, 0, MAX, 9, false, &weights, &mut table, &mut rng);
    assert_eq!(again, 0);
    let shallow = alpha_beta(&board, -MAX, -1, 2, false, &weights, &mut table, &mut rng);
    assert!(-MAX <= shallow && shallow <= MAX);
    assert!(matches!(table.probe(key), Some(TableEntry { depth: 9, .. })));
}

#[test]
fn late_in_the_game_the_search_goes_to_the_end() {
    let book = Book::new("");
    let weights = Weights::standard();
    let board = play_out(57);
    assert!(board.turns() >= 50);
    let (legals, hints) = board.legals();
    if legals != 0 {
        let mut table = TranspositionTable::new();
        let mut rng = StdRng::seed_from_u64(11);
        let (mv, _) = search(&board, 0, 0, &book, &weights, &mut table, &mut rng);
        let mut best = -MAX;
        let mut value_of_mv = None;
        for m in 0..64 {
            if legals >> m & 1 == 1 {
                let mut next = board;
                next.next(1u64 << m, hints);
                next.exchange();
                let v = -negamax(&next, 64, false, &weights);
                best = best.max(v);
                if mv == 1u64 << m {
                    value_of_mv = Some(v);
                }
            }
        }
        assert_eq!(value_of_mv, Some(best));
    }
}

#[test]
fn a_searcher_takes_weights_in_range_only() {
    assert!(Searcher::new(Book::new(""), Weights::standard()).is_some());
    let mut heavy = Weights::standard();
    heavy.corner_unit = 1001;
    assert!(Searcher::new(Book::new(""), heavy).is_none());
    let mut table = Weights::standard();
    table.position_values[63] = -1001;
    assert!(Searcher::new(Book::new(""), table).is_none());
    let mut phase = Weights::standard();
    phase.endgame.mobility = 101;
    assert!(Searcher::new(Book::new(""), phase).is_none());
    let mut edge = Weights::standard();
    edge.position_values = [-1000; 64];
    edge.mobility_unit = 1000;
    edge.opening.positional = -100;
    assert!(edge.is_in_range());
    assert!(Searcher::new(Book::new(""), edge).is_some());
}

#[test]
fn a_searcher_plays_the_book_and_passes_without_a_move() {
    let mut searcher = Searcher::new(Book::new(BOOK_DATA), Weights::standard()).unwrap();
    let mut rng = StdRng::seed_from_u64(5);
    assert_eq!(searcher.search(&Board::new(), 10, 0, &mut rng).0, square("f5"));
    assert_eq!(searcher.search(&position(WIPEOUT), 10, 0, &mut rng), (0, [(0, 0); 4]));
}

#[test]
fn a_searcher_finds_a_best_move_at_every_ply_of_a_game() {
    let weights = Weights::standard();
    let mut searcher = Searcher::new(Book::new(""), weights).unwrap();
    let mut rng = StdRng::seed_from_u64(17);
    let mut board = Board::new();
    let levels = [0usize, 0, 1, 2, 2, 1, 0, 2, 0, 1, 1, 2];
    for (ply, level) in levels.iter().enumerate() {
        let depth = 4;
        let below = depth - 2 * level;
        let (legals, hints) = board.legals();
        let (mv, got) = searcher.search(&board, depth, *level, &mut rng);
        assert_eq!(got, hints);
        if legals == 0 {
            assert_eq!(mv, 0);
            board.exchange();
            continue;
        }
        let mut best = -MAX;
        let mut value_of_mv = None;
        for m in 0..64 {
            if legals >> m & 1 == 1 {
                let mut next = board;
                next.next(1u64 << m, hints);
                next.exchange();
                let v = -negamax(&next, below, false, &weights);
                best = best.max(v);
                if mv == 1u64 << m {
                    value_of_mv = Some(v);
                }
            }
        }
        assert_eq!(value_of_mv, Some(best), "ply {}", ply);
        assert!(board.try_next(mv));
        board.exchange();
        if ply == 6 {
            searcher.reset();
        }
    }
}
