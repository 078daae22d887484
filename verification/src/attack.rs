//! Which squares a side attacks, and whether a king stands in check.

use crate::bitbrd::{
    bit_at, lemma_bit_logic, lemma_bit_ops, lemma_clear_less, lemma_lowest, lemma_member_nonzero,
    lemma_shifts, lemma_zero_iff_empty, BitBoard, BitHelpers,
};
use crate::defs::{
    BISHOP, BISHOPX, FILE_A, FILE_H, KING, KINGX, KNIGHT, KNIGHTX, PAWN, PAWNX, QUEENX, ROOK,
    ROOKX, WHITEX,
};
use crate::geometry::{
    between, bishop_reach, clear_path, king_reach, knight_reach, lemma_between_sym, pawn_reach,
    rook_reach,
};
use crate::model::{attacked_by, attacks, clear_on, in_check, king_at, one_king};
use crate::piece::Piece;
use crate::pos::Position;
use vstd::prelude::*;
use vstd::std_specs::bits::u64_trailing_zeros;

verus! {

/// Some piece `p` that stands outside `rem` attacks the square `t`.
pub open spec fn attacked_outside(board: Seq<Piece>, p: Piece, rem: u64, t: u8) -> bool {
    exists|a: u8| a < 64 && board[a as int] == p && !bit_at(rem, a) && #[trigger] attacks(board, a, t)
}

/// `bb` holds the squares that the pawns in `pawns`, of colour `side`, attack.
pub open spec fn is_pawn_attacks(bb: u64, side: u8, pawns: u64) -> bool {
    forall|t: u8|
        t < 64 ==> (#[trigger] bit_at(bb, t) <==> exists|a: u8|
            a < 64 && bit_at(pawns, a) && #[trigger] pawn_reach(side, a, t))
}

/// The squares that pawns of colour `side` on the squares `pawns` attack.
pub fn pawn_attacks(side: usize, pawns: BitBoard) -> (bb: BitBoard)
    requires
        side < 2,
    ensures
        is_pawn_attacks(bb, side as u8, pawns),
{
    let bb: u64 = if side == WHITEX {
        (pawns & !FILE_A) << 7 | (pawns & !FILE_H) << 9
    } else {
        (pawns & !FILE_A) >> 9 | (pawns & !FILE_H) >> 7
    };
    proof {
        lemma_shifts();
        lemma_bit_logic();
        let sd = side as u8;
        assert forall|t: u8| t < 64 implies (#[trigger] bit_at(bb, t) <==> exists|a: u8|
            a < 64 && bit_at(pawns, a) && #[trigger] pawn_reach(sd, a, t)) by {
            let (l, r, al, ar) = if side == WHITEX {
                ((pawns & !FILE_A) << 7, (pawns & !FILE_H) << 9, (t - 7) as u8, (t - 9) as u8)
            } else {
                ((pawns & !FILE_A) >> 9, (pawns & !FILE_H) >> 7, (t + 9) as u8, (t + 7) as u8)
            };
            assert(bb == l | r);
            assert(bit_at(bb, t) <==> bit_at(l, t) || bit_at(r, t));
            if bit_at(l, t) {
                assert(bit_at(pawns, al));
                assert(pawn_reach(sd, al, t));
            }
            if bit_at(r, t) {
                assert(bit_at(pawns, ar));
                assert(pawn_reach(sd, ar, t));
            }
            if exists|a: u8| a < 64 && bit_at(pawns, a) && #[trigger] pawn_reach(sd, a, t) {
                let a = choose|a: u8| a < 64 && bit_at(pawns, a) && #[trigger] pawn_reach(sd, a, t);
                assert(a == al || a == ar);
                if a == al {
                    assert(bit_at(l, t));
                } else {
                    assert(bit_at(r, t));
                }
            }
        }
    }
    bb
}

impl Position {
    /// The union of the two occupancy boards holds the squares with a piece.
    pub proof fn lemma_occupancy(&self)
        requires
            self.board_ok(),
        ensures
            forall|t: u8|
                t < 64 ==> (#[trigger] bit_at(self.occupied[0] | self.occupied[1], t)
                    <==> self.board[t as int].is_piece()),
            forall|a: u8, b: u8| #[trigger]
                clear_path(a, b, self.occupied[0] | self.occupied[1]) <==> clear_on(self.board@, a, b),
    {
        lemma_bit_logic();
        let occ = self.occupied[0] | self.occupied[1];
        assert forall|t: u8| t < 64 implies (#[trigger] bit_at(occ, t) <==> self.board[t as int].is_piece()) by {
            assert(bit_at(occ, t) <==> bit_at(self.occupied[0], t) || bit_at(self.occupied[1], t));
        }
    }

    /// The squares that the piece on `sq`, not a pawn, attacks.
    pub fn attack_set(&self, sq: u8) -> (r: BitBoard)
        requires
            self.consistent(),
            sq < 64,
            self.board[sq as int].is_piece(),
            self.board[sq as int].spec_type() != PAWN,
        ensures
            forall|t: u8| t < 64 ==> (#[trigger] bit_at(r, t) <==> attacks(self.board@, sq, t)),
    {
        let tp: u8 = self.board[sq as usize].get_type();
        let blockers: u64 = self.all_ocupied();
        proof {
            self.lemma_occupancy();
            lemma_bit_logic();
        }
        if tp == KNIGHT {
            self.tables.knight_attacks(sq as usize)
        } else if tp == KING {
            self.tables.king_attacks(sq as usize)
        } else if tp == BISHOP {
            self.tables.bishop_attacks(sq as usize, blockers)
        } else if tp == ROOK {
            self.tables.rook_attacks(sq as usize, blockers)
        } else {
            let b: u64 = self.tables.bishop_attacks(sq as usize, blockers);
            let r: u64 = self.tables.rook_attacks(sq as usize, blockers);
            b | r
        }
    }

    /// The squares that the pieces of one type and colour attack together.
    #[verifier::rlimit(50)]
    fn attacked_by_kind(&self, sidex: usize, tp: usize) -> (bb: BitBoard)
        requires
            self.consistent(),
            sidex < 2,
            1 <= tp < 6,
        ensures
            forall|t: u8|
                t < 64 ==> (#[trigger] bit_at(bb, t) <==> attacked_outside(
                    self.board@,
                    Piece::of(tp as u8, sidex as u8),
                    0,
                    t,
                )),
    {
        let mut bb: u64 = 0;
        let all: u64 = self.pieces[sidex][tp];
        let mut it = all.bits();
        let ghost p = Piece::of(tp as u8, sidex as u8);
        proof {
            lemma_bit_ops();
            assert forall|t: u8| t < 64 implies !attacked_outside(self.board@, p, it.0, t) by {
                if attacked_outside(self.board@, p, it.0, t) {
                    let a = choose|a: u8|
                        a < 64 && self.board[a as int] == p && !bit_at(it.0, a) && #[trigger] attacks(
                            self.board@,
                            a,
                            t,
                        );
                    assert(bit_at(self.pieces[sidex as int][tp as int], a));
                }
            }
        }
        while it.0 != 0
            invariant
                self.consistent(),
                sidex < 2,
                1 <= tp < 6,
                p == Piece::of(tp as u8, sidex as u8),
                forall|a: u8| a < 64 && #[trigger] bit_at(it.0, a) ==> self.board[a as int] == p,
                forall|t: u8|
                    t < 64 ==> (#[trigger] bit_at(bb, t) <==> attacked_outside(self.board@, p, it.0, t)),
            decreases it.0,
        {
            let ghost rem = it.0;
            let ghost before = bb;
            let sq: u8 = it.next().unwrap();
            proof {
                lemma_bit_ops();
                lemma_bit_logic();
                lemma_clear_less(rem, sq);
            }
            let set: u64 = self.attack_set(sq);
            bb |= set;
            proof {
                assert forall|t: u8| t < 64 implies (#[trigger] bit_at(bb, t) <==> attacked_outside(
                    self.board@,
                    p,
                    it.0,
                    t,
                )) by {
                    assert(bit_at(bb, t) <==> bit_at(before, t) || bit_at(set, t));
                    if attacked_outside(self.board@, p, rem, t) {
                        let a = choose|a: u8|
                            a < 64 && self.board[a as int] == p && !bit_at(rem, a) && #[trigger] attacks(
                                self.board@,
                                a,
                                t,
                            );
                        assert(!bit_at(it.0, a));
                    }
                    if attacked_outside(self.board@, p, it.0, t) {
                        let a = choose|a: u8|
                            a < 64 && self.board[a as int] == p && !bit_at(it.0, a) && #[trigger] attacks(
                                self.board@,
                                a,
                                t,
                            );
                        if a != sq {
                            assert(!bit_at(rem, a));
                        }
                    }
                    if bit_at(set, t) {
                        assert(attacks(self.board@, sq, t));
                        assert(!bit_at(it.0, sq));
                    }
                }
            }
        }
        bb
    }

    /// Every square that some piece of colour `sidex` attacks.
    #[verifier::rlimit(50)]
    pub fn attacked(&self, sidex: usize) -> (bb: BitBoard)
        requires
            self.consistent(),
            sidex < 2,
        ensures
            forall|t: u8| t < 64 ==> (#[trigger] bit_at(bb, t) <==> attacked_by(self.board@, sidex as u8, t)),
    {
        let pawns: u64 = pawn_attacks(sidex, self.pieces[sidex][PAWNX]);
        let knights: u64 = self.attacked_by_kind(sidex, KNIGHTX);
        let kings: u64 = self.attacked_by_kind(sidex, KINGX);
        let bishops: u64 = self.attacked_by_kind(sidex, BISHOPX);
        let rooks: u64 = self.attacked_by_kind(sidex, ROOKX);
        let queens: u64 = self.attacked_by_kind(sidex, QUEENX);
        let bb: u64 = pawns | knights | kings | bishops | rooks | queens;
        proof {
            lemma_bit_logic();
            lemma_bit_ops();
            let side = sidex as u8;
            let board = self.board@;
            assert forall|t: u8| t < 64 implies (#[trigger] bit_at(bb, t) <==> attacked_by(board, side, t)) by {
                assert(bit_at(bb, t) <==> (bit_at(pawns, t) || bit_at(knights, t) || bit_at(kings, t)
                    || bit_at(bishops, t) || bit_at(rooks, t) || bit_at(queens, t)));
                if bit_at(pawns, t) {
                    let a = choose|a: u8|
                        a < 64 && bit_at(self.pieces[sidex as int][0], a) && #[trigger] pawn_reach(side, a, t);
                    assert(board[a as int] == Piece::of(PAWN, side));
                    assert(attacks(board, a, t));
                }
                if attacked_by(board, side, t) {
                    let a = choose|a: u8|
                        a < 64 && board[a as int].spec_color() == side && #[trigger] attacks(board, a, t);
                    let p = board[a as int];
                    let tp = p.spec_type();
                    assert(p == Piece::of(tp, side));
                    assert(!bit_at(0u64, a));
                    if tp == PAWN {
                        assert(bit_at(self.pieces[sidex as int][0], a));
                        assert(pawn_reach(side, a, t));
                    } else {
                        assert(attacked_outside(board, Piece::of(tp, side), 0, t));
                    }
                }
            }
        }
        bb
    }

    /// Whether the king of colour `us` stands attacked.
    #[verifier::rlimit(50)]
    pub fn in_check(&self, us: usize) -> (r: bool)
        requires
            self.consistent(),
            us < 2,
            one_king(self.board@, us as u8),
        ensures
            r == in_check(self.board@, us as u8),
    {
        let them: usize = us ^ 1;
        let mask: u64 = self.pieces[us][KINGX];
        proof {
            assert(us ^ 1 == 1 - us) by (bit_vector)
                requires
                    us < 2,
            ;
            let k = king_at(self.board@, us as u8);
            assert(bit_at(mask, k));
            lemma_member_nonzero(mask, k);
            lemma_lowest(mask);
        }
        let sq: usize = mask.trailing_zeros() as usize;
        let ghost k = sq as u8;
        assert(k == king_at(self.board@, us as u8));
        let mut bb: u64 = pawn_attacks(them, self.pieces[them][PAWNX]) & mask;
        let kn: u64 = self.tables.knight_attacks(sq) & self.pieces[them][KNIGHTX];
        let kg: u64 = self.tables.king_attacks(sq) & self.pieces[them][KINGX];
        let blockers: u64 = self.all_ocupied();
        let bp: u64 = self.tables.bishop_attacks(sq, blockers);
        let rk: u64 = self.tables.rook_attacks(sq, blockers);
        let diag: u64 = bp & (self.pieces[them][BISHOPX] | self.pieces[them][QUEENX]);
        let line: u64 = rk & (self.pieces[them][ROOKX] | self.pieces[them][QUEENX]);
        let ghost pw = bb;
        bb |= kn | kg | diag | line;
        proof {
            lemma_bit_logic();
            lemma_bit_ops();
            self.lemma_occupancy();
            lemma_zero_iff_empty(bb);
            let side = them as u8;
            let board = self.board@;
            assert forall|a: u8| a < 64 implies between(a, a, k) == false by {
                reveal(between);
            }
            assert forall|t: u8| t < 64 && #[trigger] bit_at(bb, t) implies attacked_by(board, side, k) by {
                assert(bit_at(bb, t) <==> (bit_at(pw, t) || bit_at(kn, t) || bit_at(kg, t) || bit_at(
                    diag,
                    t,
                ) || bit_at(line, t)));
                if bit_at(pw, t) {
                    assert(bit_at(mask, t));
                    assert(t == k);
                    let a = choose|a: u8|
                        a < 64 && bit_at(self.pieces[them as int][0], a) && #[trigger] pawn_reach(side, a, k);
                    assert(board[a as int] == Piece::of(PAWN, side));
                    assert(attacks(board, a, k));
                } else if bit_at(kn, t) {
                    assert(board[t as int] == Piece::of(KNIGHT, side));
                    assert(knight_reach(k, t));
                    assert(attacks(board, t, k));
                } else if bit_at(kg, t) {
                    assert(board[t as int] == Piece::of(KING, side));
                    assert(king_reach(k, t));
                    assert(attacks(board, t, k));
                } else if bit_at(diag, t) {
                    assert(bishop_reach(k, t, blockers));
                    assert forall|y: u8| y < 64 && #[trigger] between(t, y, k) implies !board[y as int].is_piece() by {
                        lemma_between_sym(t, y, k);
                    }
                    assert(attacks(board, t, k));
                } else {
                    assert(rook_reach(k, t, blockers));
                    assert forall|y: u8| y < 64 && #[trigger] between(t, y, k) implies !board[y as int].is_piece() by {
                        lemma_between_sym(t, y, k);
                    }
                    assert(attacks(board, t, k));
                }
            }
            if attacked_by(board, side, k) {
                let a = choose|a: u8|
                    a < 64 && board[a as int].spec_color() == side && #[trigger] attacks(board, a, k);
                let p = board[a as int];
                let tp = p.spec_type();
                assert(p == Piece::of(tp, side));
                if tp == PAWN {
                    assert(bit_at(self.pieces[them as int][0], a));
                    assert(bit_at(pw, k));
                    assert(bit_at(bb, k));
                } else if tp == KNIGHT {
                    assert(knight_reach(k, a));
                    assert(bit_at(kn, a));
                    assert(bit_at(bb, a));
                } else if tp == KING {
                    assert(king_reach(k, a));
                    assert(bit_at(kg, a));
                    assert(bit_at(bb, a));
                } else {
                    assert forall|y: u8| y < 64 && #[trigger] between(k, y, a) implies !board[y as int].is_piece() by {
                        lemma_between_sym(k, y, a);
                    }
                    assert(clear_path(k, a, blockers));
                    if tp != BISHOP && (crate::geometry::same_rank(a, k) || crate::geometry::same_file(a, k)) {
                        assert(rook_reach(k, a, blockers));
                        assert(bit_at(rk, a));
                        assert(bit_at(line, a));
                    } else {
                        assert(bishop_reach(k, a, blockers));
                        assert(bit_at(bp, a));
                        assert(bit_at(diag, a));
                    }
                    assert(bit_at(bb, a));
                }
            }
        }
        bb != 0
    }
}

/// A colour has exactly one king if and only if its king board has exactly one member.
pub proof fn lemma_one_king_bits(p: &Position, c: u8)
    requires
        p.board_ok(),
        c < 2,
    ensures
        one_king(p.board@, c) <==> (p.pieces[c as int][5] != 0 && p.pieces[c as int][5] & ((
        p.pieces[c as int][5] - 1) as u64) == 0),
{
    let k = p.pieces[c as int][5];
    lemma_bit_ops();
    lemma_zero_iff_empty(k);
    if k != 0 {
        lemma_lowest(k);
        let t = u64_trailing_zeros(k) as u8;
        let rest = k & !(1u64 << t);
        lemma_zero_iff_empty(rest);
        assert(p.board[t as int] == Piece::of(KING, c));
        if rest == 0 {
            assert forall|j: u8| j < 64 && #[trigger] p.board[j as int] == Piece::of(KING, c) implies j
                == t by {
                assert(bit_at(k, j));
                assert(!bit_at(rest, j));
            }
        } else {
            let j = choose|j: u8| j < 64 && bit_at(rest, j);
            assert(bit_at(k, j) && j != t);
            assert(p.board[j as int] == Piece::of(KING, c));
        }
    } else {
        if one_king(p.board@, c) {
            let kk = king_at(p.board@, c);
            assert(bit_at(k, kk));
        }
    }
}

/// A king stands in check if and only if its square is among those that
/// the other side attacks.
pub proof fn lemma_check_is_attack(p: &Position, us: u8, atk: u64)
    requires
        us < 2,
        one_king(p.board@, us),
        forall|t: u8| t < 64 ==> (#[trigger] bit_at(atk, t) <==> attacked_by(p.board@, (1 - us) as u8, t)),
    ensures
        in_check(p.board@, us) <==> bit_at(atk, king_at(p.board@, us)),
{
}

} // verus!
