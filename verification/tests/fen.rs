use baka::defs::{BLACK, NS, WHITE};
use baka::fen::{chars_of, parse, parse_number, parse_placement};
use baka::piece::{CastlingPerm, Piece};
use baka::pos::Position;
use baka::uci::START_FEN;

#[test]
fn fields_are_read() {
    let p = Position::from_fen("4k3/8/8/8/8/8/8/4K2R b K - 37 60").unwrap();
    assert_eq!(p.turn, BLACK);
    assert_eq!(p.fty, 37);
    assert_eq!(p.ep, NS);
    assert!(p.cas.king(WHITE) && !p.cas.queen(WHITE) && !p.cas.any(BLACK));
    let p = Position::from_fen("4k3/8/8/3pP3/8/8/8/4K3 w - d6").unwrap();
    assert_eq!(p.ep, 43);
    assert_eq!(p.fty, 0);
    let p = Position::from_fen("  4k3/8/8/8/8/8/8/4K3   w   -   -  ").unwrap();
    assert_eq!(p.turn, WHITE);
}

#[test]
fn malformed_text_is_refused() {
    let bad = [
        "",
        "rnbqkbnr/pppppppp/8/8/8/8/PPPPPPPP/RNBQKBNR",
        "rnbqkbnr/pppppppp/8/8/8/8/PPPPPPPP/RNBQKBNR w KQkq",
        "rnbqkbnr/pppppppp/8/8/8/8/PPPPPPPP/RNBQKBNR x KQkq - 0 1",
        "rnbqkbnr/pppppppp/8/8/8/8/PPPPPPPP/RNBQKBNR w KQxq - 0 1",
        "rnbqkbnr/pppppppp/8/8/8/8/PPPPPPPP/RNBQKBNR w KQkq e9 0 1",
        "rnbqkbnr/pppppppp/8/8/8/8/PPPPPPPP/RNBQKBNR w KQkq i3 0 1",
        "rnbqkbnr/pppppppp/8/8/8/8/PPPPPPPP/RNBQKBNR w KQkq - x 1",
        "rnbqkbnr/pppppppp/8/8/8/8/PPPPPPPP/RNBQKBNR w KQkq - 99999 1",
        "rnbqkbnr/pppppppp/9/8/8/8/PPPPPPPP/RNBQKBNR w KQkq - 0 1",
        "rnbqkbnr/pppppppp/8/8/8/8/PPPPPPPP w KQkq - 0 1",
        "rnbqkbnr/pppppppp/8/8/8/8/PPPPPPPP/RNBQKBNR/8 w KQkq - 0 1",
        "rnbqkbnr/ppppppppp/8/8/8/8/PPPPPPPP/RNBQKBNR w KQkq - 0 1",
        "rnbqkbnr/ppppppp/8/8/8/8/PPPPPPPP/RNBQKBNR w KQkq - 0 1",
        "rnbqkbnr//pppppppp/8/8/8/8/PPPPPPPP/RNBQKBNR w KQkq - 0 1",
        "rnbqkbnr/pppppppp/8/8/8/8/PPPPPPPP/RNBQKBNR/ w KQkq - 0 1",
        "rnbqkbnr/pppppppp/0/8/8/8/PPPPPPPP/RNBQKBNR w KQkq - 0 1",
        "rnbqkxnr/pppppppp/8/8/8/8/PPPPPPPP/RNBQKBNR w KQkq - 0 1",
    ];
    for fen in bad {
        assert!(Position::from_fen(fen).is_none(), "{:?}", fen);
    }
}

#[test]
fn positions_without_one_king_a_side_are_refused() {
    let bad = [
        // no white king
        "4k3/8/8/8/8/8/8/8 w - - 0 1",
        // no black king
        "8/8/8/8/8/8/8/4K3 w - - 0 1",
        // two black kings
        "4k2k/8/8/8/8/8/8/4K3 w - - 0 1",
    ];
    for fen in bad {
        assert!(Position::from_fen(fen).is_none(), "{:?}", fen);
    }
}

#[test]
fn rights_squares_and_checks_are_taken_as_written() {
    // a right to castle without the rook
    let p = Position::from_fen("4k3/8/8/8/8/8/8/4K2R w KQ - 0 1").unwrap();
    assert!(p.cas.king(WHITE) && p.cas.queen(WHITE));
    // a right to castle with the king away from home
    let p = Position::from_fen("4k3/8/8/8/8/8/8/3K3R w K - 0 1").unwrap();
    assert!(p.cas.king(WHITE));
    // an en-passant square with no pawn before it, and one on the wrong rank
    let p = Position::from_fen("4k3/8/8/3P4/8/8/8/4K3 w - e6 0 1").unwrap();
    assert_eq!(p.ep, 44);
    assert!(!p.ep_fits());
    let p = Position::from_fen("4k3/8/8/3pP3/8/8/8/4K3 w - d5 0 1").unwrap();
    assert!(!p.ep_fits());
    let p = Position::from_fen("4k3/8/8/3pP3/8/8/8/4K3 w - d6 0 1").unwrap();
    assert!(p.ep_fits());
    // the side that is not to move stands in check
    let p = Position::from_fen("4k3/8/8/8/8/8/8/4K2r b - - 0 1").unwrap();
    assert!(p.in_check(0));
    assert!(p.verify());
}

#[test]
fn a_refused_text_leaves_the_position_as_it_was() {
    let mut p = Position::from_fen(START_FEN).unwrap();
    let (board, key, turn, cas) = (p.board, p.key, p.turn, p.cas);
    assert!(!p.load_fen("4k3/8/8/8/8/8/8/8 w - - 0 1"));
    assert!(!p.load_fen("nonsense"));
    assert_eq!((p.board, p.key, p.turn, p.cas), (board, key, turn, cas));
    assert!(p.verify());
    assert!(p.load_fen("4k3/8/8/8/8/8/8/4K3 b - - 5 1"));
    assert_eq!(p.turn, BLACK);
    assert_eq!(p.fty, 5);
    assert_eq!(p.occupied, [1 << 4, 1 << 60]);
    assert!(p.verify());
}

#[test]
fn placement_goes_from_the_eighth_rank_down() {
    let s = chars_of("k7/8/8/8/8/8/8/7K w");
    let b = parse_placement(&s, 0, 17).unwrap();
    assert_eq!(b[56], Piece::new(5, BLACK));
    assert_eq!(b[7], Piece::new(5, WHITE));
    assert!(b[0].is_none() && b[63].is_none());
    assert!(parse_placement(&s, 0, 16).is_none());
}

#[test]
fn numbers_are_bounded() {
    let s = chars_of("64511 64512 007 x");
    assert_eq!(parse_number(&s, 0, 5), Some(64511));
    assert_eq!(parse_number(&s, 6, 11), None);
    assert_eq!(parse_number(&s, 12, 15), Some(7));
    assert_eq!(parse_number(&s, 16, 17), None);
}

#[test]
fn whole_text_is_parsed_to_plain_values() {
    let d = parse(&chars_of("4k3/8/8/8/8/8/8/4K3 b Kq e3 12 1")).unwrap();
    assert_eq!(d.turn, BLACK);
    assert_eq!(d.cas, CastlingPerm::from_str("qK").unwrap());
    assert_eq!(d.ep, 20);
    assert_eq!(d.fty, 12);
    assert_eq!(d.board[4], Piece::new(5, WHITE));
}

#[test]
fn castling_field_is_written_and_read() {
    for text in ["-", "K", "Qk", "KQkq", "q"] {
        let c = CastlingPerm::from_str(text).unwrap();
        assert_eq!(c.to_string(), text);
    }
    assert_eq!(CastlingPerm::from_str("kqKQ").unwrap().to_string(), "KQkq");
    assert_eq!(CastlingPerm::from_str("").unwrap(), CastlingPerm::new());
    assert!(CastlingPerm::from_str("K-").is_err());
    assert!(CastlingPerm::from_str("a").is_err());
    let mut c = CastlingPerm::from_str("KQkq").unwrap();
    c.dis_both(WHITE);
    assert_eq!(c.to_string(), "kq");
    assert_eq!(c.id(), 10);
}
