//! Making a move on the position and taking it back.

use crate::bitbrd::{bit_at, lemma_bit_logic, lemma_castle_masks, lemma_zero_iff_empty};
use crate::defs::{BLACK, BLACKX, MAX_HIST, NS, PAWN, PAWNX, WHITE, WHITEX};
use crate::model::{
    attacked_by, board_after, board_before, captured, castle_path, ep_victim, in_check, king_goal,
    king_home, legal, lemma_castle_squares, lemma_kings_after, lemma_make_sound,
    lemma_make_undoable, lemma_make_unmake, lemma_pass_undoable, other, pseudo_legal, rights_after,
    rights_touch, rook_goal, rook_home, shift, sound, spec_make, spec_pass, spec_unmake,
    spec_unpass, undoable, Hist,
};
use crate::movgen::Move;
use crate::piece::{CastlingPerm, Piece};
use crate::pos::{lemma_state_fixes_board, Position};
use crate::zobrist::{ep_term, lemma_key_delta, pieces_key, side_term};
use vstd::prelude::*;

verus! {

/// The squares that a king castling on its own side must not find attacked, by colour.
pub const KING_MASK: [u64; 2] = [0x70, 0x7000000000000000];

/// The squares that a king castling on the queen's side must not find attacked, by colour.
pub const QUEEN_MASK: [u64; 2] = [0x1C, 0x1C00000000000000];

/// The home of the castling rook, by colour and side.
pub const ROOK_FROM: [[u8; 2]; 2] = [[0, 7], [56, 63]];

/// The goal of the castling rook, by colour and side.
pub const ROOK_TO: [[u8; 2]; 2] = [[3, 5], [59, 61]];

/// Flipping the low bit of a colour gives the other colour.
pub proof fn lemma_flip(x: u8)
    by (bit_vector)
    requires
        x < 2,
    ensures
        x ^ 1 == 1 - x,
{
}

/// The rights left once a piece has left or reached the square `sq`.
pub fn touch(cas: CastlingPerm, sq: u8) -> (r: CastlingPerm)
    ensures
        r == rights_touch(cas, sq),
{
    let mut c = cas;
    if sq == 4 {
        c.dis_both(WHITE);
    } else if sq == 60 {
        c.dis_both(BLACK);
    } else if sq == 0 {
        c.dis_queen(WHITE);
    } else if sq == 7 {
        c.dis_king(WHITE);
    } else if sq == 56 {
        c.dis_queen(BLACK);
    } else if sq == 63 {
        c.dis_king(BLACK);
    }
    c
}

impl Position {
    /// Moves the king from `f` to `t` and the rook of that side to the
    /// king's other side, and revokes the mover's castling rights.
    pub fn do_castling(&mut self, f: u8, t: u8)
        requires
            old(self).consistent(),
            old(self).turn < 2,
            f == king_home(old(self).turn),
            t == king_goal(old(self).turn, t > f),
            old(self).board[f as int].is_piece(),
            old(self).board[rook_home(old(self).turn, t > f) as int].is_piece(),
            !old(self).board[t as int].is_piece(),
            !old(self).board[rook_goal(old(self).turn, t > f) as int].is_piece(),
        ensures
            final(self).consistent(),
            final(self).board@ == shift(
                shift(old(self).board@, f, t),
                rook_home(old(self).turn, t > f),
                rook_goal(old(self).turn, t > f),
            ),
            final(self).cas == old(self).cas.spec_dis_both(old(self).turn),
            final(self).key_rest() == old(self).key_rest(),
            final(self).hist == old(self).hist,
            final(self).hist_ply == old(self).hist_ply,
            final(self).ep == old(self).ep,
            final(self).turn == old(self).turn,
            final(self).fty == old(self).fty,
            final(self).same_scratch(old(self)),
    {
        let x: usize = if t > f {
            1
        } else {
            0
        };
        let side: usize = self.turn as usize;
        self.move_piece(f, t);
        self.move_piece(ROOK_FROM[side][x], ROOK_TO[side][x]);
        let turn: u8 = self.turn;
        self.cas.dis_both(turn);
    }

    /// Makes the pseudo-legal move `m` if it is legal, and tells whether it
    /// was. An illegal move leaves the position as it was.
    #[verifier::rlimit(50)]
    pub fn make_move(&mut self, m: Move) -> (ok: bool)
        requires
            old(self).wf(),
            old(self).hist_ply < MAX_HIST,
            pseudo_legal(old(self).state(), m),
        ensures
            final(self).wf(),
            ok == legal(old(self).state(), m),
            ok ==> final(self).state() == spec_make(old(self).state(), m),
            !ok ==> final(self).state() == old(self).state(),
            final(self).same_scratch(old(self)),
    {
        let ghost s0 = self.state();
        let (f, t): (u8, u8) = (m.from(), m.to());
        let us: usize = self.turnx();
        let them: usize = us ^ 1;
        let kind = m.kind();
        let mut hist = Hist {
            m,
            cap: self.board[t as usize],
            cas: self.cas,
            ep: self.ep,
            fty: self.fty,
            key: self.key,
        };
        let mut ep: u8 = NS;
        let resets: bool = m.cap() || self.board[f as usize].get_type() == PAWN;
        proof {
            lemma_flip(self.turn);
            assert(us ^ 1 == 1 - us) by (bit_vector)
                requires
                    us < 2,
            ;
            lemma_kings_after(s0, m, 0);
            lemma_kings_after(s0, m, 1);
            lemma_make_undoable(s0, m);
        }
        if kind.en_passant() {
            let sq: u8 = (f / 8) * 8 + self.ep % 8;
            assert(sq == ep_victim(self.turn, self.ep));
            hist.cap = self.board[sq as usize];
            self.remove_piece(sq);
            self.move_piece(f, t);
        } else if kind.castle() {
            let atk: u64 = self.attacked(them);
            let mask: u64 = if t > f {
                KING_MASK[us]
            } else {
                QUEEN_MASK[us]
            };
            proof {
                lemma_castle_masks();
                lemma_bit_logic();
                lemma_zero_iff_empty(atk & mask);
                lemma_castle_squares(self.board@, self.turn, t > f);
                assert forall|x: u8| x < 64 implies (bit_at(mask, x) <==> castle_path(
                    self.turn,
                    t > f,
                    x,
                )) by {}
                if atk & mask != 0 {
                    let x = choose|x: u8| x < 64 && bit_at(atk & mask, x);
                    assert(bit_at(atk, x) && bit_at(mask, x));
                    assert(attacked_by(s0.board, other(s0.turn), x));
                } else {
                    assert forall|x: u8| x < 64 && castle_path(self.turn, t > f, x) implies !attacked_by(
                        s0.board,
                        other(s0.turn),
                        x,
                    ) by {
                        assert(!bit_at(atk & mask, x));
                        assert(bit_at(mask, x));
                    }
                }
            }
            if atk & mask != 0 {
                return false;
            }
            self.do_castling(f, t);
        } else if kind.long_push() {
            self.move_piece(f, t);
            if self.turn == WHITE {
                ep = f + 8;
            } else {
                ep = t + 8;
            }
        } else {
            if m.prom() != 0 {
                self.remove_piece(f);
                self.add_piece(us, m.prom() as usize, f);
            }
            if m.cap() {
                self.remove_piece(t);
            }
            self.move_piece(f, t);
            self.cas = touch(touch(self.cas, f), t);
        }
        proof {
            assert(self.board@ =~= board_after(s0.board, s0.turn, s0.ep, m));
            assert(self.cas == rights_after(s0.cas, s0.turn, m));
            crate::model::lemma_rights_in_order(s0.cas, s0.turn, m);
        }
        self.fty = if resets {
            0
        } else {
            self.fty + 1
        };
        self.ep = ep;
        self.hist[self.hist_ply as usize] = hist;
        self.hist_ply += 1;
        self.turn ^= 1;
        let delta: u64 = self.zobrist.castling(hist.cas) ^ self.zobrist.castling(self.cas)
            ^ self.zobrist.side() ^ self.zobrist.en_passant(hist.ep) ^ self.zobrist.en_passant(
            self.ep,
        );
        proof {
            let z = self.zobrist;
            lemma_key_delta(
                s0.key,
                pieces_key(z, s0.board, 64),
                side_term(z, s0.turn),
                ep_term(z, s0.ep),
                z.cskeys[s0.cas.0 as int],
                self.key,
                pieces_key(z, self.board@, 64),
                side_term(z, self.turn),
                ep_term(z, self.ep),
                z.cskeys[self.cas.0 as int],
                z.skey,
            );
        }
        self.key ^= delta;
        proof {
            assert(self.hist@.take(self.hist_ply as int) =~= s0.hist.push(hist));
            assert(self.state() == spec_make(s0, m));
        }
        if self.in_check(us) {
            self.unmake_move();
            proof {
                lemma_make_unmake(s0, m);
            }
            false
        } else {
            proof {
                lemma_make_sound(s0, m);
            }
            true
        }
    }

    /// Takes the latest move back.
    #[verifier::rlimit(50)]
    pub fn unmake_move(&mut self)
        requires
            old(self).consistent(),
            old(self).turn < 2,
            undoable(old(self).state()),
            old(self).state().hist.last().m != Move::null(),
        ensures
            final(self).wf(),
            final(self).state() == spec_unmake(old(self).state()),
            final(self).same_scratch(old(self)),
    {
        let ghost s1 = self.state();
        let ghost s0 = spec_unmake(s1);
        proof {
            lemma_flip(self.turn);
        }
        self.turn ^= 1;
        self.hist_ply -= 1;
        let hist = self.hist[self.hist_ply as usize];
        let m = hist.m;
        proof {
            assert(hist == s1.hist.last());
            assert(s1.board == board_after(s0.board, s0.turn, s0.ep, m));
            assert(pseudo_legal(s0, m));
            assert(sound(s0));
            assert(hist.cap == captured(s0, m));
        }
        self.fty = hist.fty;
        self.ep = hist.ep;
        self.cas = hist.cas;
        let (f, t): (u8, u8) = (m.from(), m.to());
        let kind = m.kind();
        let us: usize = self.turnx();
        let them: usize = us ^ 1;
        proof {
            assert(us ^ 1 == 1 - us) by (bit_vector)
                requires
                    us < 2,
            ;
        }
        if kind.en_passant() {
            proof {
                assert(s0.board[ep_victim(s0.turn, s0.ep) as int] == Piece::of(PAWN, other(s0.turn)));
            }
            if self.turn == WHITE {
                self.add_piece(BLACKX, PAWNX, self.ep - 8);
            } else {
                self.add_piece(WHITEX, PAWNX, self.ep + 8);
            }
            self.move_piece(t, f);
        } else if kind.castle() {
            let x: usize = if t > f {
                1
            } else {
                0
            };
            proof {
                lemma_castle_squares(s0.board, s0.turn, t > f);
                assert(s0.board[rook_home(s0.turn, t > f) as int].is_piece());
                assert(s0.board[king_home(s0.turn) as int].is_piece());
            }
            self.move_piece(ROOK_TO[us][x], ROOK_FROM[us][x]);
            self.move_piece(t, f);
        } else if m.prom() != 0 {
            self.remove_piece(t);
            self.add_piece(us, PAWNX, f);
            if m.cap() {
                self.add_piece(them, hist.cap.get_type() as usize, t);
            }
        } else {
            self.move_piece(t, f);
            if m.cap() {
                self.add_piece(them, hist.cap.get_type() as usize, t);
            }
        }
        self.key = hist.key;
        proof {
            assert(self.board@ =~= board_before(s1.board, s0.turn, hist));
            assert(self.hist@.take(self.hist_ply as int) =~= s1.hist.drop_last());
            assert(self.state() == s0);
        }
    }

    /// Passes: the other side is to move and no en-passant capture is on offer.
    pub fn make_null_move(&mut self)
        requires
            old(self).wf(),
            old(self).hist_ply < MAX_HIST,
            !in_check(old(self).board@, old(self).turn),
        ensures
            final(self).wf(),
            final(self).state() == spec_pass(old(self).state()),
            final(self).same_scratch(old(self)),
    {
        let ghost s0 = self.state();
        let hist = Hist {
            m: Move::new(),
            cap: Piece::none(),
            cas: self.cas,
            ep: self.ep,
            fty: self.fty,
            key: self.key,
        };
        proof {
            lemma_flip(self.turn);
            lemma_pass_undoable(s0);
        }
        self.hist[self.hist_ply as usize] = hist;
        self.hist_ply += 1;
        self.turn ^= 1;
        self.ep = NS;
        let delta: u64 = self.zobrist.castling(hist.cas) ^ self.zobrist.castling(self.cas)
            ^ self.zobrist.side() ^ self.zobrist.en_passant(hist.ep) ^ self.zobrist.en_passant(
            self.ep,
        );
        proof {
            let z = self.zobrist;
            lemma_key_delta(
                s0.key,
                pieces_key(z, s0.board, 64),
                side_term(z, s0.turn),
                ep_term(z, s0.ep),
                z.cskeys[s0.cas.0 as int],
                self.key,
                pieces_key(z, self.board@, 64),
                side_term(z, self.turn),
                ep_term(z, self.ep),
                z.cskeys[self.cas.0 as int],
                z.skey,
            );
        }
        self.key ^= delta;
        proof {
            assert(self.hist@.take(self.hist_ply as int) =~= s0.hist.push(hist));
            assert(self.state() == spec_pass(s0));
        }
    }

    /// Takes the latest pass back.
    pub fn unmake_null_move(&mut self)
        requires
            old(self).wf(),
            old(self).hist_ply > 0,
            old(self).state().hist.last().m == Move::null(),
        ensures
            final(self).wf(),
            final(self).state() == spec_unpass(old(self).state()),
            final(self).same_scratch(old(self)),
    {
        let ghost s1 = self.state();
        proof {
            lemma_flip(self.turn);
        }
        self.turn ^= 1;
        self.hist_ply -= 1;
        let hist = self.hist[self.hist_ply as usize];
        proof {
            assert(hist == s1.hist.last());
        }
        self.fty = hist.fty;
        self.ep = hist.ep;
        self.cas = hist.cas;
        self.key = hist.key;
        proof {
            assert(self.hist@.take(self.hist_ply as int) =~= s1.hist.drop_last());
            assert(self.state() == spec_unpass(s1));
        }
    }
}

/// Making a pseudo-legal move and taking it back at once restores the
/// position bit for bit: the square array, every bitboard, the hash key,
/// the castling rights, the en-passant square, the half-move clock and
/// the material totals.
pub proof fn lemma_round_trip(before: &Position, made: &Position, after: &Position, m: Move)
    requires
        before.wf(),
        pseudo_legal(before.state(), m),
        made.state() == spec_make(before.state(), m),
        after.consistent(),
        after.state() == spec_unmake(made.state()),
    ensures
        after.board == before.board,
        after.pieces == before.pieces,
        after.occupied == before.occupied,
        after.key == before.key,
        after.cas == before.cas,
        after.ep == before.ep,
        after.fty == before.fty,
        after.material == before.material,
        after.turn == before.turn,
        after.hist_ply == before.hist_ply,
{
    lemma_make_unmake(before.state(), m);
    lemma_state_fixes_board(after, before);
    assert(after.state().hist.len() == after.hist_ply);
    assert(before.state().hist.len() == before.hist_ply);
}

} // verus!
