use reversi::cmds::{idx_to_move, line_to_send, move_to_idx, move_to_string, Cmd, Color, Move, Res};

#[test]
fn moves_are_written_as_letter_and_digit() {
    assert_eq!(move_to_string(Move::To(1, 1)), "A1");
    assert_eq!(move_to_string(Move::To(8, 8)), "H8");
    assert_eq!(move_to_string(Move::To(4, 3)), "D3");
    assert_eq!(move_to_string(Move::To(8, 1)), "H1");
    assert_eq!(move_to_string(Move::Pass), "PASS");
}

#[test]
fn the_empty_set_is_a_pass() {
    assert!(matches!(idx_to_move(&0), Move::Pass));
    assert_eq!(move_to_idx(&Move::Pass), 0);
}

#[test]
fn cell_zero_is_h8_and_cell_63_is_a1() {
    assert!(matches!(idx_to_move(&1), Move::To(8, 8)));
    assert!(matches!(idx_to_move(&(1 << 63)), Move::To(1, 1)));
    assert!(matches!(idx_to_move(&(1 << 7)), Move::To(1, 8)));
    assert!(matches!(idx_to_move(&(1 << 8)), Move::To(8, 7)));
    assert!(matches!(idx_to_move(&(1 << 37)), Move::To(3, 4)));
    assert_eq!(move_to_idx(&Move::To(8, 8)), 1);
    assert_eq!(move_to_idx(&Move::To(1, 1)), 1 << 63);
    assert_eq!(move_to_idx(&Move::To(3, 4)), 1 << 37);
}

#[test]
fn a_set_of_several_cells_gives_its_lowest() {
    assert!(matches!(idx_to_move(&0b1100), Move::To(6, 8)));
}

#[test]
fn every_cell_goes_round() {
    for k in 0..64 {
        let mv = idx_to_move(&(1u64 << k));
        assert_eq!(move_to_idx(&mv), 1u64 << k);
        match mv {
            Move::To(i, j) => {
                assert!((1..=8).contains(&i) && (1..=8).contains(&j));
                assert_eq!((8 - j) * 8 + (8 - i), k);
            }
            Move::Pass => panic!("cell {} became a pass", k),
        }
    }
}

#[test]
fn commands_carry_their_parts() {
    let cmds = vec![
        Cmd::Open("me".to_string()),
        Cmd::Start(Color::Black, "you".to_string(), 60000),
        Cmd::End(Res::Win, 40, 24, "DOUBLE_PASS".to_string()),
        Cmd::Bye(vec![("me".to_string(), (3, 2, 1))]),
        Cmd::Move(Move::To(4, 3)),
        Cmd::Ack(59000),
    ];
    let shown: Vec<String> = cmds.iter().map(|c| format!("{:?}", c)).collect();
    assert_eq!(shown[0], "Open(\"me\")");
    assert_eq!(shown[1], "Start(Black, \"you\", 60000)");
    assert_eq!(shown[2], "End(Win, 40, 24, \"DOUBLE_PASS\")");
    assert_eq!(shown[3], "Bye([(\"me\", (3, 2, 1))])");
    assert_eq!(shown[4], "Move(To(4, 3))");
    assert_eq!(shown[5], "Ack(59000)");
}

#[test]
fn moves_and_the_opening_are_sent_as_lines() {
    assert_eq!(line_to_send(&Cmd::Move(Move::To(4, 3))), Some("MOVE D3\n".to_string()));
    assert_eq!(line_to_send(&Cmd::Move(Move::Pass)), Some("MOVE PASS\n".to_string()));
    assert_eq!(line_to_send(&Cmd::Open("me".to_string())), Some("OPEN me\n".to_string()));
    assert_eq!(line_to_send(&Cmd::Open(String::new())), Some("OPEN \n".to_string()));
}

#[test]
fn other_commands_are_not_sent() {
    assert_eq!(line_to_send(&Cmd::Ack(1)), None);
    assert_eq!(line_to_send(&Cmd::Bye(Vec::new())), None);
    assert_eq!(line_to_send(&Cmd::Start(Color::Black, "x".to_string(), 1)), None);
    assert_eq!(line_to_send(&Cmd::End(Res::Tie, 1, 1, "x".to_string())), None);
    assert_eq!(line_to_send(&Cmd::Move(Move::To(0, 1))), None);
    assert_eq!(line_to_send(&Cmd::Move(Move::To(1, 9))), None);
}
