use reversi::bitboard::Board;
use reversi::cmds::{Cmd, Color, Move, Res};
use reversi::session::{make_move, make_named_move, step, Effect, State, Transition, DEFAULT_DEPTH};

fn shown(t: Option<Transition>) -> String {
    match t {
        Some(t) => format!("{:?} {} {:?}", t.state, t.time_level, t.effect),
        None => "-".to_string(),
    }
}

fn all_commands() -> Vec<Cmd> {
    vec![
        Cmd::Open("me".to_string()),
        Cmd::Start(Color::Black, "you".to_string(), 60000),
        Cmd::Start(Color::White, "you".to_string(), 60000),
        Cmd::Start(Color::Empty, "you".to_string(), 60000),
        Cmd::End(Res::Win, 40, 24, "r".to_string()),
        Cmd::Bye(Vec::new()),
        Cmd::Move(Move::To(4, 3)),
        Cmd::Ack(1),
    ]
}

#[test]
fn the_depth_budget_is_ten() {
    assert_eq!(DEFAULT_DEPTH, 10);
}

#[test]
fn between_games_a_start_or_the_scores_are_expected() {
    let got: Vec<String> = all_commands().iter().map(|c| shown(step(State::WaitingStart, 1, c))).collect();
    assert_eq!(
        got,
        vec!["-", "MyMove 1 Nothing", "OpMove 1 Nothing", "-", "-", "WaitingStart 1 Goodbye", "-", "-"]
    );
}

#[test]
fn on_the_opponents_turn_a_move_or_the_end_are_expected() {
    let got: Vec<String> = all_commands().iter().map(|c| shown(step(State::OpMove, 2, c))).collect();
    assert_eq!(
        got,
        vec!["-", "-", "-", "-", "WaitingStart 0 GameOver", "-", "MyMove 2 OpponentMoved(To(4, 3))", "-"]
    );
    assert_eq!(shown(step(State::OpMove, 2, &Cmd::Move(Move::Pass))), "MyMove 2 OpponentMoved(Pass)");
}

#[test]
fn after_a_move_the_answer_or_the_end_are_expected() {
    let got: Vec<String> = all_commands().iter().map(|c| shown(step(State::WaitingAck, 0, c))).collect();
    assert_eq!(got, vec!["-", "-", "-", "-", "WaitingStart 0 GameOver", "-", "-", "OpMove 2 Nothing"]);
}

#[test]
fn on_this_sides_turn_no_command_is_expected() {
    for c in all_commands() {
        assert!(step(State::MyMove, 0, &c).is_none());
    }
}

#[test]
fn the_time_left_sets_the_time_level() {
    for (time, level) in [(60000, 0), (30001, 0), (30000, 1), (20001, 1), (20000, 2), (1, 2), (0, 2)] {
        assert_eq!(
            shown(step(State::WaitingAck, 1, &Cmd::Ack(time))),
            format!("OpMove {} Nothing", level)
        );
    }
    assert_eq!(shown(step(State::WaitingAck, 1, &Cmd::Ack(-1))), "WaitingStart 0 TimeUp");
    assert_eq!(shown(step(State::WaitingAck, 1, &Cmd::Ack(i32::MIN))), "WaitingStart 0 TimeUp");
    assert!(matches!(step(State::WaitingAck, 1, &Cmd::Ack(5)), Some(Transition { effect: Effect::Nothing, .. })));
}

#[test]
fn a_pass_only_hands_the_move_over() {
    let mut board = Board::new();
    let (b, w) = (board.get_black(), board.get_white());
    assert!(make_move(&mut board, 0));
    assert_eq!((board.get_black(), board.get_white(), board.turns()), (w, b, 4));
    assert!(make_named_move(&mut board, &Move::Pass));
    assert_eq!((board.get_black(), board.get_white(), board.turns()), (b, w, 4));
}

#[test]
fn a_legal_move_is_played_and_the_move_handed_over() {
    let mut board = Board::new();
    assert!(make_move(&mut board, 1 << 37));
    assert_eq!(board.get_white(), 1 << 28 | 1 << 35 | 1 << 36 | 1 << 37);
    assert_eq!(board.get_black(), 1 << 27);
    assert_eq!(board.turns(), 5);
    assert!(make_named_move(&mut board, &Move::To(3, 3)));
    assert_eq!(board.turns(), 6);
    assert_eq!(board.get_white(), 1 << 27 | 1 << 36 | 1 << 45);
}

#[test]
fn an_illegal_move_leaves_the_board() {
    let mut board = Board::new();
    let before = (board.get_black(), board.get_white(), board.turns());
    assert!(!make_move(&mut board, 1));
    assert!(!make_move(&mut board, 1 << 37 | 1 << 19));
    assert!(!make_named_move(&mut board, &Move::To(1, 1)));
    assert_eq!((board.get_black(), board.get_white(), board.turns()), before);
}
