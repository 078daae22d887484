use baka::defs::{BLACK, WHITE};
use baka::piece::CastlingPerm;

fn cs_to_flags(cs: CastlingPerm) -> [bool; 4] {
    [cs.king(WHITE), cs.queen(WHITE), cs.king(BLACK), cs.queen(BLACK)]
}

#[test]
fn castling_state() {
    assert_eq!(CastlingPerm::new(), CastlingPerm::from_str("-").unwrap());
    let mut cs = CastlingPerm::from_str("KQkq").unwrap();
    assert_eq!(cs_to_flags(cs), [true, true, true, true]);
    cs.dis_king(WHITE);
    assert_eq!(cs_to_flags(cs), [false, true, true, true]);
    cs.dis_king(BLACK);
    assert_eq!(cs_to_flags(cs), [false, true, false, true]);
    cs.dis_queen(WHITE);
    assert_eq!(cs_to_flags(cs), [false, false, false, true]);
    cs.dis_queen(BLACK);
    assert_eq!(cs_to_flags(cs), [false, false, false, false]);
}
