use baka::eval::{
    bking_shield, east_one, file_fill, isolanis, north_fill, north_one, south_fill, south_one,
    west_one, widen, wking_shield, EVAL_LIMIT,
};
use baka::pos::Position;
use baka::uci::START_FEN;

#[test]
fn start_position_is_level() {
    let p = Position::from_fen(START_FEN).unwrap();
    assert_eq!(p.eval(), 0);
    assert!(!p.is_endgame());
}

#[test]
fn the_other_side_sees_the_opposite_score() {
    for board in [
        "r3k2r/p1ppqpb1/bn2pnp1/3PN3/1p2P3/2N2Q1p/PPPBBPPP/R3K2R",
        "4k3/8/8/8/8/8/PPP5/4K3",
        "4k3/pp6/8/8/8/8/8/Q3K3",
    ] {
        let w = Position::from_fen(&format!("{} w - - 0 1", board)).unwrap();
        let b = Position::from_fen(&format!("{} b - - 0 1", board)).unwrap();
        assert_eq!(w.eval(), -b.eval());
        assert_ne!(w.eval(), 0);
    }
}

#[test]
fn mirrored_positions_score_alike() {
    let w = Position::from_fen("4k3/8/8/8/3N4/8/PPP5/4K3 w - - 0 1").unwrap();
    let b = Position::from_fen("4k3/ppp5/8/3n4/8/8/8/4K3 b - - 0 1").unwrap();
    assert_eq!(w.eval(), b.eval());
    assert!(w.eval() > 0);
}

#[test]
fn exact_scores() {
    // kings only: both in the endgame, both placed alike
    let p = Position::from_fen("4k3/8/8/8/8/8/8/4K3 w - - 0 1").unwrap();
    assert_eq!(p.eval(), 0);
    assert!(p.is_endgame());
    // a white pawn on e4: material 100, placement 20, passed on the fourth rank 20, isolated -5;
    // the kings cancel out
    let p = Position::from_fen("4k3/8/8/8/4P3/8/8/4K3 w - - 0 1").unwrap();
    assert_eq!(p.eval(), 100 + 20 + 20 - 5);
    // a white rook on a1: material 550, on an open and half-open file 5 + 5; the black king,
    // more than two pawns behind, is still judged by its middle-game placement, -10 on e8
    let p = Position::from_fen("4k3/8/8/8/8/8/8/R3K3 w - - 0 1").unwrap();
    assert_eq!(p.eval(), 550 + 5 + 5 + 10);
}

#[test]
fn the_score_is_bounded() {
    let p = Position::from_fen("7k/5ppp/8/QQQQQQQQ/QQQQQQQQ/QQQQQQQQ/QQQQQQQQ/QQQQKQQQ w - - 0 1").unwrap();
    assert_eq!(p.material[0], 39000);
    assert_eq!(p.eval() as i32, EVAL_LIMIT);
    let p = Position::from_fen("qqqqkqqq/qqqqqqqq/qqqqqqqq/qqqqqqqq/qqqqqqqq/8/5PPP/7K w - - 0 1").unwrap();
    assert_eq!(p.eval() as i32, -EVAL_LIMIT);
}

#[test]
fn fills_and_steps() {
    assert_eq!(north_one(0xFF), 0xFF00);
    assert_eq!(north_one(0xFF00_0000_0000_0000), 0);
    assert_eq!(south_one(0xFF00), 0xFF);
    assert_eq!(south_one(0xFF), 0);
    assert_eq!(east_one(0x80), 0);
    assert_eq!(east_one(0x01), 0x02);
    assert_eq!(west_one(0x01), 0);
    assert_eq!(west_one(0x80), 0x40);
    assert_eq!(north_fill(0x0100), 0x0101_0101_0101_0100);
    assert_eq!(south_fill(0x0100_0000_0000_0000), 0x0101_0101_0101_0101);
    assert_eq!(file_fill(1 << 27), 0x0808_0808_0808_0808);
    assert_eq!(widen(1 << 4), 0x38);
    assert_eq!(widen(1), 0x03);
    assert_eq!(wking_shield(1 << 4), 0x3800);
    assert_eq!(bking_shield(1 << 60), 0x0038_0000_0000_0000);
    // pawns on a2, b2 and h2: only the one on h2 has no neighbour
    assert_eq!(isolanis(0x8300), 0x8000);
}
