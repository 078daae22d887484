use baka::atktbl::{abs_diff, slide, AttackTable};
use baka::bitbrd::{BitHelpers, BitRunner};
use baka::defs::piece_id;
use baka::magics::slot_of;

fn bits(squares: &[u8]) -> u64 {
    let mut b = 0u64;
    for &s in squares {
        b |= 1u64 << s;
    }
    b
}

#[test]
fn multipliers_are_free_of_collisions() {
    let t = AttackTable::new();
    assert!(t.is_exact());
}

#[test]
fn knight_and_king_sets() {
    let t = AttackTable::new();
    assert_eq!(t.knight_attacks(0), bits(&[10, 17]));
    assert_eq!(t.knight_attacks(27), bits(&[10, 12, 17, 21, 33, 37, 42, 44]));
    assert_eq!(t.knight_attacks(63), bits(&[46, 53]));
    assert_eq!(t.king_attacks(0), bits(&[1, 8, 9]));
    assert_eq!(t.king_attacks(27), bits(&[18, 19, 20, 26, 28, 34, 35, 36]));
    assert_eq!(t.king_attacks(7), bits(&[6, 14, 15]));
}

#[test]
fn rook_on_empty_board() {
    let t = AttackTable::new();
    assert_eq!(t.rook_attacks(0, 0), 0x01010101010101FE);
    assert_eq!(AttackTable::calc_rook_attacks(0, 0), 0x01010101010101FE);
    assert_eq!(t.rook_attacks(27, 0), 0x08080808F7080808);
}

#[test]
fn bishop_on_empty_board() {
    let t = AttackTable::new();
    assert_eq!(t.bishop_attacks(0, 0), 0x8040201008040200);
    assert_eq!(AttackTable::calc_bishop_attacks(0, 0), 0x8040201008040200);
    assert_eq!(t.bishop_attacks(27, 0), 0x8041221400142241);
}

#[test]
fn first_blocker_is_attacked_and_hides_the_rest() {
    let t = AttackTable::new();
    // a rook on a1 with blockers on a4 and c1
    let blockers = bits(&[24, 2]);
    assert_eq!(t.rook_attacks(0, blockers), bits(&[8, 16, 24, 1, 2]));
    // a bishop on c1 with a blocker on e3
    assert_eq!(t.bishop_attacks(2, bits(&[20])), bits(&[9, 16, 11, 20]));
    // blockers on the edge change nothing beyond themselves
    assert_eq!(t.rook_attacks(0, bits(&[7, 56])), t.rook_attacks(0, 0));
}

#[test]
fn table_agrees_with_ray_walk() {
    let t = AttackTable::new();
    let mut x: u64 = 0x9E3779B97F4A7C15;
    for sq in 0..64usize {
        for _ in 0..200 {
            x ^= x << 13;
            x ^= x >> 7;
            x ^= x << 17;
            let blockers = x & (x >> 11);
            assert_eq!(t.rook_attacks(sq, blockers), AttackTable::calc_rook_attacks(sq, blockers));
            assert_eq!(
                t.bishop_attacks(sq, blockers),
                AttackTable::calc_bishop_attacks(sq, blockers)
            );
            assert_eq!(
                t.queen_attacks(sq, blockers),
                t.rook_attacks(sq, blockers) | t.bishop_attacks(sq, blockers)
            );
        }
    }
}

#[test]
fn slide_walks_one_ray() {
    assert_eq!(slide(0, 1, 0, 0), 0x0101010101010100);
    assert_eq!(slide(0, 0, 1, bits(&[3])), bits(&[1, 2, 3]));
    assert_eq!(slide(63, 1, 1, 0), 0);
    assert_eq!(slide(36, -1, -1, bits(&[18])), bits(&[27, 18]));
}

#[test]
fn slots_stay_in_their_part_of_the_table() {
    for sq in 0..64usize {
        assert!(slot_of(true, sq, 0) >= sq * 4096 && slot_of(true, sq, 0) < (sq + 1) * 4096);
        assert!(slot_of(false, sq, 0) >= 262144 + sq * 512);
        assert!(slot_of(false, sq, u64::MAX) < 262144 + (sq + 1) * 512);
    }
}

#[test]
fn bitboard_helpers() {
    let mut b: u64 = 0;
    b.set(0);
    b.set(63);
    b.set(17);
    assert_eq!(b, bits(&[0, 17, 63]));
    assert!(b.chk(17));
    assert!(!b.chk(18));
    b.clear(17);
    assert_eq!(b, bits(&[0, 63]));
    b.clear(17);
    assert_eq!(b, bits(&[0, 63]));
}

#[test]
fn runner_yields_members_in_ascending_order_once() {
    let b = bits(&[5, 0, 63, 31]);
    let mut it: BitRunner = b.bits();
    assert_eq!(it.next(), Some(0));
    assert_eq!(it.next(), Some(5));
    assert_eq!(it.next(), Some(31));
    assert_eq!(it.next(), Some(63));
    assert_eq!(it.next(), None);
    assert_eq!(it.next(), None);
    let mut empty = 0u64.bits();
    assert_eq!(empty.next(), None);
}

#[test]
fn piece_ids() {
    assert_eq!(piece_id(0, 0), 0);
    assert_eq!(piece_id(0, 1), 1);
    assert_eq!(piece_id(5, 1), 11);
    assert_eq!(piece_id(3, 0), 6);
    assert_eq!(abs_diff(3, 7), 4);
    assert_eq!(abs_diff(7, 3), 4);
}
