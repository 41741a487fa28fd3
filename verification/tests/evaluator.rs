use reversi::bitboard::Board;
use reversi::evaluator::{
    evaluate_board, evaluate_confirmed_stones, evaluate_mobility, evaluate_positions, PhaseWeights,
    Weights, CORNERS,
};

fn cell(name: &str) -> u64 {
    let b = name.as_bytes();
    1u64 << ((b[1] - b'1') as u64 * 8 + (b[0] - b'a') as u64)
}

fn board_after(line: &str) -> Board {
    let mut board = Board::new();
    for i in (0..line.len()).step_by(2) {
        let (_, hints) = board.legals();
        board.next(cell(&line[i..i + 2]), hints);
        board.exchange();
    }
    board
}

fn slow_positional(values: &[i32; 64], mine: u64, theirs: u64) -> i32 {
    let mut total = 0;
    for i in 0..64 {
        if mine >> i & 1 == 1 {
            total += values[i];
        } else if theirs >> i & 1 == 1 {
            total -= values[i];
        }
    }
    total
}

#[test]
fn standard_weights_hold_the_standard_table() {
    let w = Weights::standard();
    assert_eq!(w.position_values[0], 120);
    assert_eq!(w.position_values[1], -20);
    assert_eq!(w.position_values[9], -40);
    assert_eq!(w.position_values[27], 3);
    assert_eq!(w.position_values[63], 120);
    assert_eq!(w.position_values.iter().sum::<i32>(), 4 * 120 + 8 * -20 + 4 * -40 + 8 * 20 + 8 * 5 + 16 * -5 + 4 * 15 + 12 * 3);
    assert_eq!((w.mobility_unit, w.corner_unit), (10, 200));
    assert_eq!((w.opening_until, w.middle_until), (20, 48));
    assert_eq!((w.opening.positional, w.opening.mobility, w.opening.corner), (2, 3, 5));
    assert_eq!((w.middle.positional, w.middle.mobility, w.middle.corner), (2, 2, 5));
    assert_eq!((w.endgame.positional, w.endgame.mobility, w.endgame.corner), (1, 1, 10));
}

#[test]
fn positions_sum_the_cell_values() {
    let w = Weights::standard();
    assert_eq!(evaluate_positions(0, 0, &w.position_values), 0);
    assert_eq!(evaluate_positions(1, 0, &w.position_values), 120);
    assert_eq!(evaluate_positions(0, 1, &w.position_values), -120);
    assert_eq!(evaluate_positions(0b11, 1 << 9, &w.position_values), 120 - 20 + 40);
    assert_eq!(evaluate_positions(u64::MAX, 0, &w.position_values), 376);
    assert_eq!(evaluate_positions(1, 1, &w.position_values), 120);
    let board = board_after("f5d6c5f4e3c6d3f6e6d7");
    assert_eq!(
        evaluate_positions(board.get_black(), board.get_white(), &w.position_values),
        slow_positional(&w.position_values, board.get_black(), board.get_white())
    );
}

#[test]
fn mobility_counts_the_moves() {
    assert_eq!(evaluate_mobility(0b1111, 0b1, 10), 30);
    assert_eq!(evaluate_mobility(0, 0b111, 10), -30);
    assert_eq!(evaluate_mobility(u64::MAX, 0, 1000), 64_000);
    assert_eq!(evaluate_mobility(0b11, 0b11, 7), 0);
}

#[test]
fn corners_count_the_four_corner_cells() {
    assert_eq!(CORNERS, 1 | 1 << 7 | 1 << 56 | 1 << 63);
    assert_eq!(evaluate_confirmed_stones(1, 0, 200), 200);
    assert_eq!(evaluate_confirmed_stones(1 | 1 << 63, 1 << 7, 200), 200);
    assert_eq!(evaluate_confirmed_stones(0, CORNERS, 200), -800);
    assert_eq!(evaluate_confirmed_stones(1 << 1 | 1 << 8 | 1 << 9, 0, 200), 0);
    assert_eq!(evaluate_confirmed_stones(u64::MAX, 0, -3), -12);
}

#[test]
fn the_phase_follows_the_ply_counter() {
    let w = Weights::standard();
    let opening = board_after("f5d6c5f4e3c6d3f6e6d7g4c4g5c3f7");
    assert_eq!(opening.turns(), 19);
    let middle = board_after("f5d6c5f4e3c6d3f6e6d7g4c4g5c3f7d2");
    assert_eq!(middle.turns(), 20);
    for (board, mob) in [(opening, 3), (middle, 2)] {
        let p = slow_positional(&w.position_values, board.get_black(), board.get_white());
        let c = ((board.get_black() & CORNERS).count_ones() as i32
            - (board.get_white() & CORNERS).count_ones() as i32)
            * 200;
        assert_eq!(evaluate_board(&board, 0b11111, 0b11, &w), 2 * p + mob * 30 + 5 * c);
    }
}

#[test]
fn the_endgame_weights_apply_late() {
    let mut w = Weights::standard();
    w.opening_until = 4;
    w.middle_until = 5;
    let mut board = Board::new();
    assert_eq!(evaluate_board(&board, 0b1, 0, &w), 2 * 0 + 2 * 10 + 5 * 0);
    let (_, hints) = board.legals();
    board.next(cell("f5"), hints);
    assert_eq!(evaluate_board(&board, 0b1, 0, &w), 9 + 10);
}

#[test]
fn the_standard_endgame_counts_corners_tenfold() {
    let w = Weights::standard();
    let mover = 0x0000_ffff_ffff_ff01u64;
    let opponent = 0x8100_0000_0000_0080u64;
    let board = Board::from_parts(mover, opponent, 44).unwrap();
    let p = slow_positional(&w.position_values, mover, opponent);
    assert_eq!(evaluate_board(&board, 0b1, 0b111, &w), 2 * p + 2 * -20 + 5 * -400);
    let late = Board::from_parts(mover | 0x00ff_0000_0000_0000, opponent, 52).unwrap();
    let q = slow_positional(&w.position_values, mover | 0x00ff_0000_0000_0000, opponent);
    assert_eq!(evaluate_board(&late, 0b1, 0b111, &w), q - 20 + 10 * -400);
    let edge = Board::from_parts(mover | 0x000f_0000_0000_0000, opponent, 48).unwrap();
    let r = slow_positional(&w.position_values, mover | 0x000f_0000_0000_0000, opponent);
    assert_eq!(evaluate_board(&edge, 0, 0, &w), r + 10 * -400);
}

#[test]
fn tuned_weights_change_the_score() {
    let mut w = Weights::standard();
    w.opening = PhaseWeights { positional: 0, mobility: -100, corner: 0 };
    w.mobility_unit = 1000;
    let board = Board::new();
    assert_eq!(evaluate_board(&board, u64::MAX, 0, &w), -6_400_000);
    w.position_values = [1000; 64];
    w.opening = PhaseWeights { positional: 100, mobility: 100, corner: 100 };
    w.corner_unit = 1000;
    assert_eq!(evaluate_board(&board, u64::MAX, 0, &w), 6_400_000);
}
