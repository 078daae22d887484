use baka::defs::{KNIGHT, QUEEN};
use baka::movgen::{Move, MoveList, OrderedMove, PickyIter, KIND_CASTLE, KIND_EN_PASSANT, KIND_LONG_PUSH};
use baka::pos::Position;
use baka::uci::START_FEN;

fn texts(p: &Position, caps: bool) -> Vec<String> {
    let mut moves = MoveList::new();
    if caps {
        p.gen_moves::<true>(&mut moves);
    } else {
        p.gen_moves::<false>(&mut moves);
    }
    let mut out: Vec<String> = moves.iter().iter().map(|om| om.0.to_string()).collect();
    out.sort();
    out
}

#[test]
fn move_fields() {
    let m = Move::new_prom(48, 57, true, QUEEN);
    assert_eq!((m.from(), m.to(), m.prom(), m.cap()), (48, 57, QUEEN, true));
    assert!(!m.kind().castle() && !m.kind().en_passant() && !m.kind().long_push());
    assert!(Move::new_castle(4, 6).kind().castle());
    assert!(Move::new_enpassant(33, 40).kind().en_passant());
    assert!(Move::new_enpassant(33, 40).cap());
    assert!(Move::new_long(8, 24).kind().long_push());
    assert_eq!(Move::new_castle(4, 6).kind, KIND_CASTLE);
    assert_eq!(Move::new_enpassant(33, 40).kind, KIND_EN_PASSANT);
    assert_eq!(Move::new_long(8, 24).kind, KIND_LONG_PUSH);
    assert!(Move::new().is_null());
    assert!(!Move::new_usual(0, 1, false).is_null());
    assert_eq!(Move::new_usual(12, 28, false), Move::new_usual(12, 28, false));
    assert_ne!(Move::new_usual(12, 28, false), Move::new_usual(12, 28, true));
}

#[test]
fn move_text() {
    assert_eq!(Move::new_usual(12, 28, false).to_string(), "e2e4");
    assert_eq!(Move::new_prom(48, 56, false, QUEEN).to_string(), "a7a8q");
    assert_eq!(Move::new_prom(15, 6, true, KNIGHT).to_string(), "h2g1n");
    assert_eq!(Move::new_prom(48, 56, false, 2).to_string(), "a7a8b");
    assert_eq!(Move::new_prom(48, 56, false, 3).to_string(), "a7a8r");
    assert_eq!(Move::new_castle(60, 58).to_string(), "e8c8");
    assert_eq!(Move::new().to_string(), "a1a1");
}

#[test]
fn start_position_has_twenty_moves() {
    let p = Position::from_fen(START_FEN).unwrap();
    let t = texts(&p, false);
    assert_eq!(t.len(), 20);
    assert!(t.contains(&"e2e4".to_string()));
    assert!(t.contains(&"g1f3".to_string()));
    assert!(!t.contains(&"e1g1".to_string()));
    assert!(texts(&p, true).is_empty());
}

#[test]
fn captures_only_lists_captures_and_promotions() {
    let p = Position::from_fen("4k1n1/7P/8/3pP3/8/8/8/4K2R w K d6 0 1").unwrap();
    assert_eq!(texts(&p, true), ["e5d6", "h7g8b", "h7g8n", "h7g8q", "h7g8r", "h7h8b", "h7h8n", "h7h8q", "h7h8r"]);
    let all = texts(&p, false);
    assert!(all.contains(&"e1g1".to_string()));
    assert!(all.contains(&"e5e6".to_string()));
    assert!(all.contains(&"h1h6".to_string()));
    assert!(!all.contains(&"h1h7".to_string()));
    for t in texts(&p, true) {
        assert!(all.contains(&t));
    }
}

#[test]
fn moves_that_the_board_does_not_allow_are_never_offered() {
    // the right to castle on the queen's side is written, but no rook stands on a1
    let p = Position::from_fen("4k3/8/8/8/8/8/8/4K2R w KQ - 0 1").unwrap();
    let t = texts(&p, false);
    assert!(t.contains(&"e1g1".to_string()));
    assert!(!t.contains(&"e1c1".to_string()));
    // the king is not at home
    let p = Position::from_fen("4k3/8/8/8/8/8/8/3K3R w K - 0 1").unwrap();
    assert!(!texts(&p, false).contains(&"d1f1".to_string()));
    let mut moves = MoveList::new();
    p.gen_moves::<false>(&mut moves);
    assert!(moves.iter().iter().all(|om| !om.0.kind().castle()));
    // an en-passant square with no pawn behind it
    let p = Position::from_fen("4k3/8/8/3P4/8/8/8/4K3 w - e6 0 1").unwrap();
    assert_eq!(texts(&p, true), Vec::<String>::new());
    assert!(!texts(&p, false).contains(&"d5e6".to_string()));
    // the king of the side in check is never taken
    let p = Position::from_fen("4k3/8/8/8/8/8/8/4K2r b - - 0 1").unwrap();
    let t = texts(&p, false);
    assert!(!t.contains(&"h1e1".to_string()));
    assert!(t.contains(&"h1f1".to_string()));
    assert!(texts(&p, true).is_empty());
    let p = Position::from_fen("4k3/8/8/8/8/8/3p4/4K3 b - - 0 1").unwrap();
    assert_eq!(texts(&p, true), ["d2d1b", "d2d1n", "d2d1q", "d2d1r"]);
}

#[test]
fn generated_moves_are_distinct() {
    for fen in baka::perft::POSITIONS.iter() {
        let p = Position::from_fen(fen).unwrap();
        let mut moves = MoveList::new();
        p.gen_moves::<false>(&mut moves);
        for i in 0..moves.len() {
            for j in 0..i {
                assert_ne!(moves.get(i).0, moves.get(j).0);
            }
        }
    }
}

#[test]
fn captures_are_ordered_by_victim_then_attacker() {
    // the pawn on d4 and the queen on d1 can both take; the pawn can take a knight or a rook
    let p = Position::from_fen("4k3/8/8/2n1r3/3P4/8/8/3QK3 w - - 0 1").unwrap();
    let mut moves = MoveList::new();
    p.gen_moves::<true>(&mut moves);
    assert_eq!(moves.len(), 2);
    let mut it = moves.iter_picky();
    let first = it.next(&mut moves).unwrap();
    assert_eq!(first.0.to_string(), "d4e5");
    assert_eq!(first.1, 10000 + 400 + 6 - 1);
    let second = it.next(&mut moves).unwrap();
    assert_eq!(second.0.to_string(), "d4c5");
    assert_eq!(second.1, 10000 + 200 + 6 - 1);
    assert!(it.next(&mut moves).is_none());
}

#[test]
fn killers_and_history_rank_quiet_moves() {
    let mut p = Position::from_fen(START_FEN).unwrap();
    let e4 = Move::new_long(12, 28);
    let nf3 = Move::new_usual(6, 21, false);
    p.search_killers[0][0] = e4;
    p.search_killers[1][0] = nf3;
    p.search_hist[0][16] = 77;
    let mut moves = MoveList::new();
    p.gen_moves::<false>(&mut moves);
    let mut it: PickyIter = moves.iter_picky();
    assert_eq!(it.next(&mut moves).unwrap().0, e4);
    assert_eq!(it.next(&mut moves).unwrap().0, nf3);
    let third: OrderedMove = it.next(&mut moves).unwrap();
    assert_eq!(third.0.to_string(), "a2a3");
    assert_eq!(third.1, 77);
    let mut n = 3;
    while let Some(om) = it.next(&mut moves) {
        assert_eq!(om.1, 0);
        n += 1;
    }
    assert_eq!(n, 20);
}

#[test]
fn history_never_outranks_a_killer() {
    let mut p = Position::from_fen(START_FEN).unwrap();
    let nf3 = Move::new_usual(6, 21, false);
    p.search_killers[1][0] = nf3;
    p.search_hist[0][16] = 10800;
    p.search_hist[0][17] = u16::MAX;
    p.search_hist[0][18] = 4499;
    let mut moves = MoveList::new();
    p.gen_moves::<false>(&mut moves);
    let mut it = moves.iter_picky();
    let first = it.next(&mut moves).unwrap();
    assert_eq!((first.0, first.1), (nf3, 4500));
    for _ in 0..3 {
        assert_eq!(it.next(&mut moves).unwrap().1, 4499);
    }
    assert_eq!(it.next(&mut moves).unwrap().1, 0);
}

#[test]
fn promotions_rank_by_the_piece_promoted_to() {
    let p = Position::from_fen("4k3/7P/8/8/8/8/8/4K3 w - - 0 1").unwrap();
    let mut moves = MoveList::new();
    p.gen_moves::<true>(&mut moves);
    let mut it = moves.iter_picky();
    let order: Vec<(String, u16)> = (0..4).map(|_| {
        let om = it.next(&mut moves).unwrap();
        (om.0.to_string(), om.1)
    }).collect();
    assert_eq!(order[0], ("h7h8q".to_string(), 8004));
    assert_eq!(order[1], ("h7h8r".to_string(), 8003));
    assert_eq!(order[2], ("h7h8b".to_string(), 8002));
    assert_eq!(order[3], ("h7h8n".to_string(), 8001));
}

#[test]
fn list_operations() {
    let p = Position::from_fen(START_FEN).unwrap();
    let mut moves = MoveList::new();
    assert_eq!(moves.len(), 0);
    moves.push::<false, 0>(Move::new_usual(8, 16, false), &p);
    moves.push_prom::<false, 4>(Move::new_prom(8, 16, false, 4), &p);
    assert_eq!(moves.len(), 2);
    assert_eq!(moves.get(1).1, 8004);
    moves.get_mut(0).1 = 9;
    assert_eq!(moves.get(0).1, 9);
    moves.iter_mut()[1].1 = 3;
    assert_eq!(moves.iter()[1].1, 3);
    moves.clear();
    assert_eq!(moves.len(), 0);
}
