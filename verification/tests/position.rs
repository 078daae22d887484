use baka::defs::{BLACK, KING, NS, PAWN, QUEEN, ROOK, WHITE};
use baka::movgen::{Move, MoveList};
use baka::perft::POSITIONS;
use baka::piece::{CastlingPerm, Piece};
use baka::pos::Position;
use baka::uci::START_FEN;

fn snapshot(p: &Position) -> ([Piece; 64], [[u64; 6]; 2], [u64; 2], [i32; 2], u64, CastlingPerm, u8, u16, u8, u16) {
    (p.board, p.pieces, p.occupied, p.material, p.key, p.cas, p.ep, p.fty, p.turn, p.hist_ply)
}

fn play(p: &mut Position, text: &str) -> bool {
    let mut moves = MoveList::new();
    p.gen_moves::<false>(&mut moves);
    for i in 0..moves.len() {
        let m = moves.get(i).0;
        if m.to_string() == text {
            return p.make_move(m);
        }
    }
    false
}

#[test]
fn start_position_loads() {
    let p = Position::from_fen(START_FEN).unwrap();
    assert_eq!(p.turn, WHITE);
    assert_eq!(p.ep, NS);
    assert_eq!(p.fty, 0);
    assert_eq!(p.hist_ply, 0);
    assert_eq!(p.cas, CastlingPerm::from_str("KQkq").unwrap());
    assert_eq!(p.board[0], Piece::new(ROOK, WHITE));
    assert_eq!(p.board[4], Piece::new(KING, WHITE));
    assert_eq!(p.board[59], Piece::new(QUEEN, BLACK));
    assert_eq!(p.board[52], Piece::new(PAWN, BLACK));
    assert!(p.board[27].is_none());
    assert_eq!(p.occupied[0], 0xFFFF);
    assert_eq!(p.occupied[1], 0xFFFF_0000_0000_0000);
    assert_eq!(p.all_ocupied(), 0xFFFF_0000_0000_FFFF);
    assert_eq!(p.pieces[0][0], 0xFF00);
    assert_eq!(p.material, [4200, 4200]);
    assert_eq!(p.turnx(), 0);
    assert!(p.verify());
}

#[test]
fn new_position_is_empty_and_consistent() {
    let p = Position::new();
    assert!(p.board.iter().all(|x| x.is_none()));
    assert_eq!(p.all_ocupied(), 0);
    assert_eq!(p.material, [0, 0]);
    assert!(p.verify());
    assert_eq!(p.key, p.zobrist.gen_key(&p));
}

#[test]
fn primitives_keep_the_two_boards_and_the_key_in_step() {
    let mut p = Position::new();
    p.add_piece(0, 5, 4);
    p.add_piece(1, 3, 63);
    assert!(p.verify());
    assert_eq!(p.board[4], Piece::new(KING, WHITE));
    assert_eq!(p.material, [0, 550]);
    p.move_piece(63, 60);
    assert!(p.verify());
    assert!(p.board[63].is_none());
    assert_eq!(p.board[60], Piece::new(ROOK, BLACK));
    p.remove_piece(60);
    assert!(p.verify());
    assert_eq!(p.material, [0, 0]);
    assert_eq!(p.occupied, [1 << 4, 0]);
}

#[test]
fn verify_notices_a_board_out_of_step() {
    let mut p = Position::from_fen(START_FEN).unwrap();
    assert!(p.verify());
    p.key ^= 1;
    assert!(!p.verify());
    p.key ^= 1;
    p.occupied[0] ^= 1 << 30;
    assert!(!p.verify());
    p.occupied[0] ^= 1 << 30;
    p.material[1] += 1;
    assert!(!p.verify());
}

#[test]
fn make_then_unmake_restores_everything() {
    for fen in POSITIONS.iter() {
        let mut p = Position::from_fen(fen).unwrap();
        let before = snapshot(&p);
        let mut moves = MoveList::new();
        p.gen_moves::<false>(&mut moves);
        assert!(moves.len() > 0);
        for i in 0..moves.len() {
            let m = moves.get(i).0;
            if p.make_move(m) {
                assert!(p.verify());
                assert_ne!(snapshot(&p), before);
                p.unmake_move();
            }
            assert_eq!(snapshot(&p), before);
            assert!(p.verify());
        }
    }
}

#[test]
fn key_stays_the_one_computed_afresh() {
    let mut p = Position::from_fen(POSITIONS[1]).unwrap();
    for text in ["e1g1", "h3g2", "f3f6", "g2f1q", "g1f1", "e8c8", "d5e6", "b4b3", "a2a4"] {
        assert!(play(&mut p, text), "{}", text);
        assert_eq!(p.key, p.zobrist.gen_key(&p));
        assert!(p.verify());
    }
    assert_eq!(p.hist_ply, 9);
    for _ in 0..9 {
        p.unmake_move();
        assert_eq!(p.key, p.zobrist.gen_key(&p));
    }
    assert_eq!(p.hist_ply, 0);
}

#[test]
fn double_push_offers_en_passant_and_the_capture_takes_the_pawn() {
    let mut p = Position::from_fen("4k3/8/8/8/6p1/8/7P/4K3 w - - 0 1").unwrap();
    assert!(play(&mut p, "h2h4"));
    assert_eq!(p.ep, 23);
    assert_eq!(p.fty, 0);
    assert!(play(&mut p, "g4h3"));
    assert!(p.board[31].is_none());
    assert_eq!(p.board[23], Piece::new(PAWN, BLACK));
    assert_eq!(p.ep, NS);
    assert_eq!(p.material, [0, 100]);
    p.unmake_move();
    assert_eq!(p.board[31], Piece::new(PAWN, WHITE));
    assert_eq!(p.ep, 23);
}

#[test]
fn castling_moves_both_pieces_and_revokes_the_rights() {
    let mut p = Position::from_fen("r3k2r/8/8/8/8/8/8/R3K2R w KQkq - 0 1").unwrap();
    assert!(play(&mut p, "e1g1"));
    assert_eq!(p.board[6], Piece::new(KING, WHITE));
    assert_eq!(p.board[5], Piece::new(ROOK, WHITE));
    assert!(p.board[4].is_none() && p.board[7].is_none());
    assert!(!p.cas.king(WHITE) && !p.cas.queen(WHITE));
    assert!(p.cas.king(BLACK) && p.cas.queen(BLACK));
    assert_eq!(p.fty, 1);
    assert!(play(&mut p, "e8c8"));
    assert_eq!(p.board[58], Piece::new(KING, BLACK));
    assert_eq!(p.board[59], Piece::new(ROOK, BLACK));
    assert_eq!(p.cas, CastlingPerm::new());
    p.unmake_move();
    p.unmake_move();
    assert_eq!(p.cas, CastlingPerm::from_str("KQkq").unwrap());
    assert_eq!(p.board[4], Piece::new(KING, WHITE));
    assert_eq!(p.board[7], Piece::new(ROOK, WHITE));
}

#[test]
fn castling_with_a_right_too_many() {
    let mut p = Position::from_fen("4k3/8/8/8/8/8/8/4K2R w KQ - 0 1").unwrap();
    p.do_castling(4, 6);
    assert_eq!(p.board[6], Piece::new(KING, WHITE));
    assert_eq!(p.board[5], Piece::new(ROOK, WHITE));
    assert!(p.board[4].is_none() && p.board[7].is_none());
    assert!(!p.cas.king(WHITE) && !p.cas.queen(WHITE));
    assert_eq!(p.turn, WHITE);
}

#[test]
fn castling_through_an_attacked_square_is_refused() {
    // the rook on f8 attacks f1
    let mut p = Position::from_fen("4kr2/8/8/8/8/8/8/R3K2R w KQ - 0 1").unwrap();
    let before = snapshot(&p);
    assert!(!p.make_move(Move::new_castle(4, 6)));
    assert_eq!(snapshot(&p), before);
    assert!(p.make_move(Move::new_castle(4, 2)));
}

#[test]
fn a_move_that_leaves_the_king_in_check_is_refused() {
    // the knight on e2 is pinned by the rook on e8
    let mut p = Position::from_fen("4r1k1/8/8/8/8/8/4N3/4K3 w - - 0 1").unwrap();
    let before = snapshot(&p);
    assert!(!p.make_move(Move::new_usual(12, 29, false)));
    assert_eq!(snapshot(&p), before);
    assert!(p.make_move(Move::new_usual(4, 3, false)));
}

#[test]
fn rook_moves_and_captures_narrow_the_rights() {
    let mut p = Position::from_fen("r3k2r/8/8/8/8/8/8/R3K2R w KQkq - 0 1").unwrap();
    assert!(play(&mut p, "a1a8"));
    assert!(!p.cas.queen(WHITE) && p.cas.king(WHITE));
    assert!(!p.cas.queen(BLACK) && p.cas.king(BLACK));
    assert_eq!(p.fty, 0);
}

#[test]
fn promotion_replaces_the_pawn_and_undo_brings_it_back() {
    let mut p = Position::from_fen("4k1n1/7P/8/8/8/8/8/4K3 w - - 0 1").unwrap();
    assert!(play(&mut p, "h7g8q"));
    assert_eq!(p.board[62], Piece::new(QUEEN, WHITE));
    assert_eq!(p.material, [1000, 0]);
    p.unmake_move();
    assert_eq!(p.board[55], Piece::new(PAWN, WHITE));
    assert_eq!(p.board[62], Piece::new(1, BLACK));
    assert_eq!(p.material, [100, 325]);
}

#[test]
fn check_is_seen_from_every_kind_of_attacker() {
    let checks = [
        "4k3/8/8/8/8/8/3p4/4K3 w - - 0 1",
        "4k3/8/8/8/8/3n4/8/4K3 w - - 0 1",
        "4k3/8/8/8/1b6/8/8/4K3 w - - 0 1",
        "4k3/8/8/8/8/8/8/r3K3 w - - 0 1",
        "4k3/8/8/8/4q3/8/8/4K3 w - - 0 1",
    ];
    for fen in checks {
        let p = Position::from_fen(fen).unwrap();
        assert!(p.in_check(0), "{}", fen);
        assert!(!p.in_check(1), "{}", fen);
        assert_ne!(p.attacked(1) & p.pieces[0][5], 0);
    }
    let quiet = [
        "4k3/8/8/8/8/8/4p3/4K3 w - - 0 1",
        "4k3/8/8/8/1b6/2P5/8/4K3 w - - 0 1",
        "4k3/8/8/8/8/8/8/r2NK3 w - - 0 1",
        START_FEN,
    ];
    for fen in quiet {
        let p = Position::from_fen(fen).unwrap();
        assert!(!p.in_check(0), "{}", fen);
        assert_eq!(p.attacked(1) & p.pieces[0][5], 0);
    }
}

#[test]
fn attacked_squares_of_the_start_position() {
    let p = Position::from_fen(START_FEN).unwrap();
    assert_eq!(p.attacked(0), 0x0000_0000_00FF_FF7E);
    assert_eq!(p.attacked(1), 0x7EFF_FF00_0000_0000);
}

#[test]
fn null_move_passes_the_turn_and_comes_back() {
    let mut p = Position::from_fen("4k3/8/8/8/6p1/8/7P/4K3 w - - 0 1").unwrap();
    assert!(play(&mut p, "h2h4"));
    let before = snapshot(&p);
    p.make_null_move();
    assert_eq!(p.turn, WHITE);
    assert_eq!(p.ep, NS);
    assert_eq!(p.key, p.zobrist.gen_key(&p));
    p.unmake_null_move();
    assert_eq!(snapshot(&p), before);
}
