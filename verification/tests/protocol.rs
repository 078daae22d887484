use baka::fen::chars_of;
use baka::pos::Position;
use baka::uci::{go_limits, parse_go_options, parse_signed, GoLimits, GoOptions, UCI, START_FEN};

const NONE: GoOptions = GoOptions {
    wtime: None,
    btime: None,
    winc: None,
    binc: None,
    movestogo: None,
    depth: None,
    movetime: None,
};

#[test]
fn limits_of_a_search() {
    assert_eq!(go_limits(0, &NONE), GoLimits { depth: 64, move_time: None });
    let o = GoOptions { wtime: Some(60000), btime: Some(30000), winc: Some(100), ..NONE };
    assert_eq!(go_limits(0, &o).move_time, Some(60000 / 30 + 100 - 50));
    assert_eq!(go_limits(1, &o).move_time, Some(30000 / 30 - 50));
    let o = GoOptions { wtime: Some(60000), movestogo: Some(7), depth: Some(9), ..NONE };
    assert_eq!(go_limits(0, &o), GoLimits { depth: 9, move_time: Some(60000 / 7 - 50) });
    assert_eq!(go_limits(1, &o), GoLimits { depth: 9, move_time: None });
    let o = GoOptions { movetime: Some(1000), wtime: Some(5), movestogo: Some(0), ..NONE };
    assert_eq!(go_limits(0, &o).move_time, Some(950));
    assert_eq!(go_limits(1, &o).move_time, Some(950));
    // a budget below zero wraps to a time that never runs out
    let o = GoOptions { wtime: Some(30), ..NONE };
    assert_eq!(go_limits(0, &o).move_time, Some(u64::MAX - 48));
    // a clock of -1 stands for no clock, and so does a move time of -1
    let o = GoOptions { wtime: Some(-1), ..NONE };
    assert_eq!(go_limits(0, &o).move_time, None);
    let o = GoOptions { movetime: Some(-1), wtime: Some(1000), ..NONE };
    assert_eq!(go_limits(0, &o).move_time, None);
    let o = GoOptions { movetime: Some(-2), ..NONE };
    assert_eq!(go_limits(0, &o).move_time, Some(u64::MAX - 51));
    // the depth is the low byte of the number given
    assert_eq!(go_limits(0, &GoOptions { depth: Some(300), ..NONE }).depth, 44);
    assert_eq!(go_limits(0, &GoOptions { depth: Some(-1), ..NONE }).depth, 255);
    // division rounds towards zero
    let o = GoOptions { wtime: Some(-100), movestogo: Some(30), winc: Some(1000), ..NONE };
    assert_eq!(go_limits(0, &o).move_time, Some(947));
}

#[test]
fn budgets_that_can_be_computed() {
    assert!(NONE.is_computable(0));
    assert!(GoOptions { wtime: Some(60000), ..NONE }.is_computable(0));
    assert!(!GoOptions { wtime: Some(60000), movestogo: Some(0), ..NONE }.is_computable(0));
    assert!(GoOptions { wtime: Some(60000), movestogo: Some(0), ..NONE }.is_computable(1));
    assert!(GoOptions { movetime: Some(5), movestogo: Some(0), ..NONE }.is_computable(0));
    assert!(!GoOptions { wtime: Some(i32::MIN), movestogo: Some(-1), ..NONE }.is_computable(0));
    assert!(!GoOptions { wtime: Some(i32::MAX), movestogo: Some(1), winc: Some(51), ..NONE }.is_computable(0));
    assert!(GoOptions { wtime: Some(i32::MAX), movestogo: Some(1), winc: Some(50), ..NONE }.is_computable(0));
    assert!(!GoOptions { wtime: Some(i32::MIN), movestogo: Some(1), ..NONE }.is_computable(0));
}

#[test]
fn options_of_go() {
    let o = parse_go_options("wtime 1000 btime 2000 winc 10 binc 20 movestogo 5").unwrap();
    assert_eq!((o.wtime, o.btime, o.winc, o.binc), (Some(1000), Some(2000), Some(10), Some(20)));
    assert_eq!((o.movestogo, o.depth, o.movetime), (Some(5), None, None));
    let o = parse_go_options("  depth 6   movetime +250  nodes 5 depth 7").unwrap();
    assert_eq!((o.depth, o.movetime, o.wtime), (Some(7), Some(250), None));
    let o = parse_go_options("").unwrap();
    assert_eq!(o.depth, None);
    assert!(parse_go_options("infinite").is_none());
    assert!(parse_go_options("depth").is_none());
    assert!(parse_go_options("depth x").is_none());
    assert!(parse_go_options("depth 5 wtime").is_none());
    assert!(parse_go_options("wtime 2147483648").is_none());
    assert_eq!(parse_go_options("wtime -2147483648").unwrap().wtime, Some(i32::MIN));
}

#[test]
fn signed_numbers() {
    let s = chars_of("-12 +7 0 - 2147483647 99999999999 1x");
    assert_eq!(parse_signed(&s, 0, 3), Some(-12));
    assert_eq!(parse_signed(&s, 4, 6), Some(7));
    assert_eq!(parse_signed(&s, 7, 8), Some(0));
    assert_eq!(parse_signed(&s, 9, 10), None);
    assert_eq!(parse_signed(&s, 11, 21), Some(i32::MAX));
    assert_eq!(parse_signed(&s, 22, 33), None);
    assert_eq!(parse_signed(&s, 34, 36), None);
    assert_eq!(parse_signed(&s, 0, 0), None);
}

#[test]
fn moves_by_name() {
    let mut u = UCI::new();
    assert!(u.parse_position("startpos"));
    assert_eq!(u.make_move("e2e4").unwrap().to_string(), "e2e4");
    assert_eq!(u.pos.ep, 20);
    let key = u.pos.key;
    assert!(u.make_move("e2e4").is_none());
    assert!(u.make_move("e7e9").is_none());
    assert!(u.make_move("").is_none());
    assert!(u.make_move("e7e5q").is_none());
    assert_eq!(u.pos.key, key);
    assert!(u.make_move("e7e5").is_some());
    assert_eq!(u.pos.hist_ply, 2);
}

#[test]
fn a_move_into_check_is_named_but_not_made() {
    let mut u = UCI::new();
    assert!(u.parse_position("fen 4r1k1/8/8/8/8/8/4N3/4K3 w - - 0 1"));
    assert!(u.make_move("e2c3").is_none());
    assert_eq!(u.pos.hist_ply, 0);
    assert!(u.make_move("e1d1").is_some());
}

#[test]
fn position_command() {
    let mut u = UCI::new();
    assert!(u.parse_position("startpos moves e2e4 e7e5 g1f3"));
    assert_eq!(u.pos.hist_ply, 3);
    assert_eq!(u.pos.turn, 1);
    assert!(u.pos.board[21].is_some());
    assert!(u.parse_position("fen 4k3/8/8/8/8/8/8/4K2R w K - 3 9 moves e1g1"));
    assert_eq!(u.pos.hist_ply, 1);
    assert_eq!(u.pos.fty, 4);
    assert!(u.pos.board[5].is_some() && u.pos.board[6].is_some());
    assert!(u.parse_position("fen 4k3/8/8/8/8/8/8/4K2R w K - moves e1g1 e8e7"));
    assert_eq!(u.pos.hist_ply, 2);
    assert!(u.parse_position("   startpos   "));
    assert_eq!(u.pos.hist_ply, 0);
    let start = Position::from_fen(START_FEN).unwrap();
    assert_eq!(u.pos.board, start.board);
}

#[test]
fn a_bad_position_command_changes_nothing() {
    let mut u = UCI::new();
    assert!(u.parse_position("startpos moves e2e4"));
    let (board, key, ply) = (u.pos.board, u.pos.key, u.pos.hist_ply);
    assert!(!u.parse_position("fen nonsense"));
    assert!(!u.parse_position("fen 4k3/8/8/8/8/8/8/8 w - - 0 1"));
    assert!(!u.parse_position("somewhere"));
    assert!(!u.parse_position(""));
    assert_eq!((u.pos.board, u.pos.key, u.pos.hist_ply), (board, key, ply));
    // a move that cannot be made ends the play where it stands
    assert!(!u.parse_position("startpos moves e2e4 e2e4 e7e5"));
    assert_eq!(u.pos.hist_ply, 1);
}
