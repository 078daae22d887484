//! The game as mathematics: what a position is, which moves it offers and
//! what each of them does to it.

use crate::defs::{BLACK, KING, KNIGHT, BISHOP, ROOK, QUEEN, MAX_HIST, NS, PAWN, WHITE};
use crate::geometry::{
    between, king_reach, knight_reach, pawn_reach, rank_of, same_anti, same_diag, same_file,
    same_rank,
};
use crate::movgen::{Move, KIND_CASTLE, KIND_EN_PASSANT, KIND_LONG_PUSH};
use crate::piece::{lemma_revoke, CastlingPerm, Piece};
use crate::zobrist::{full_key, Zobrist};
use vstd::prelude::*;

verus! {

/// What `make_move` keeps of a position to take a move back.
#[derive(Clone, Copy)]
pub struct Hist {
    pub m: Move,
    pub cas: CastlingPerm,
    pub cap: Piece,
    pub ep: u8,
    pub fty: u16,
    pub key: u64,
}

impl Hist {
    /// An empty record.
    pub fn new() -> (r: Self)
        ensures
            r.m == Move::null(),
            r.cas.0 == 0,
            r.cap == Piece(0xFF),
            r.ep == NS,
            r.fty == 0,
            r.key == 0,
    {
        Self {
            m: Move::new(),
            cas: CastlingPerm::new(),
            cap: Piece::none(),
            ep: NS,
            fty: 0,
            key: 0,
        }
    }
}

/// The game state that a position stands for.
pub ghost struct State {
    /// The random keys that the hash key is made of.
    pub zobrist: Zobrist,
    /// The piece on each of the 64 squares.
    pub board: Seq<Piece>,
    /// The side to move.
    pub turn: u8,
    pub cas: CastlingPerm,
    /// The square that a pawn may capture onto en passant, or `NS`.
    pub ep: u8,
    /// Half-moves since the last pawn move or capture.
    pub fty: u16,
    pub key: u64,
    /// One record for each move made and not taken back, oldest first.
    pub hist: Seq<Hist>,
}

/// The marker of an empty square.
pub open spec fn empty_sq() -> Piece {
    Piece(0xFF)
}

/// The other colour.
pub open spec fn other(side: u8) -> u8 {
    (1 - side) as u8
}

/// No piece stands strictly between `a` and `b`.
pub open spec fn clear_on(board: Seq<Piece>, a: u8, b: u8) -> bool {
    forall|t: u8| t < 64 && #[trigger] between(a, t, b) ==> !board[t as int].is_piece()
}

/// The piece on `a`, if there is one, attacks the square `b`.
pub open spec fn attacks(board: Seq<Piece>, a: u8, b: u8) -> bool {
    let p = board[a as int];
    let tp = p.spec_type();
    a < 64 && b < 64 && p.is_piece() && if tp == PAWN {
        pawn_reach(p.spec_color(), a, b)
    } else if tp == KNIGHT {
        knight_reach(a, b)
    } else if tp == KING {
        king_reach(a, b)
    } else {
        a != b && clear_on(board, a, b) && ((tp != BISHOP && (same_rank(a, b) || same_file(a, b)))
            || (tp != ROOK && (same_diag(a, b) || same_anti(a, b))))
    }
}

/// Some piece of colour `side` attacks the square `t`.
pub open spec fn attacked_by(board: Seq<Piece>, side: u8, t: u8) -> bool {
    exists|a: u8| a < 64 && board[a as int].spec_color() == side && #[trigger] attacks(board, a, t)
}

/// Colour `c` has exactly one king.
pub open spec fn one_king(board: Seq<Piece>, c: u8) -> bool {
    exists|k: u8|
        k < 64 && #[trigger] board[k as int] == Piece::of(KING, c) && forall|j: u8|
            j < 64 && #[trigger] board[j as int] == Piece::of(KING, c) ==> j == k
}

/// The square of the king of colour `c`.
pub open spec fn king_at(board: Seq<Piece>, c: u8) -> u8 {
    choose|k: u8| k < 64 && #[trigger] board[k as int] == Piece::of(KING, c)
}

/// The king of colour `us` stands attacked.
pub open spec fn in_check(board: Seq<Piece>, us: u8) -> bool {
    attacked_by(board, other(us), king_at(board, us))
}

/// The king's home square of a colour.
pub open spec fn king_home(c: u8) -> u8 {
    if c == WHITE {
        4
    } else {
        60
    }
}

/// The home square of a colour's rook on the king's side, or else on the queen's.
pub open spec fn rook_home(c: u8, king_side: bool) -> u8 {
    (king_home(c) + (if king_side {
        3int
    } else {
        -4int
    })) as u8
}

/// Where the castling rook lands.
pub open spec fn rook_goal(c: u8, king_side: bool) -> u8 {
    (king_home(c) + (if king_side {
        1int
    } else {
        -1int
    })) as u8
}

/// Where the castling king lands.
pub open spec fn king_goal(c: u8, king_side: bool) -> u8 {
    (king_home(c) + (if king_side {
        2int
    } else {
        -2int
    })) as u8
}

/// Each castling right held has its king and rook at home. A right
/// without them is never used.
pub open spec fn rights_ok(board: Seq<Piece>, cas: CastlingPerm) -> bool {
    &&& forall|c: u8|
        c < 2 && #[trigger] cas.spec_king(c) ==> board[king_home(c) as int] == Piece::of(KING, c)
            && board[rook_home(c, true) as int] == Piece::of(ROOK, c)
    &&& forall|c: u8|
        c < 2 && #[trigger] cas.spec_queen(c) ==> board[king_home(c) as int] == Piece::of(KING, c)
            && board[rook_home(c, false) as int] == Piece::of(ROOK, c)
}

/// The square of the pawn that an en-passant capture onto `ep` removes, when `turn` is to move.
pub open spec fn ep_victim(turn: u8, ep: u8) -> u8 {
    if turn == WHITE {
        (ep - 8) as u8
    } else {
        (ep + 8) as u8
    }
}

/// The en-passant square, if any, is empty and lies behind an enemy pawn
/// that just moved two steps. A square that is named without this is never captured onto.
pub open spec fn ep_ok(board: Seq<Piece>, turn: u8, ep: u8) -> bool {
    ep == NS || (ep < 64 && rank_of(ep) == (if turn == WHITE {
        5int
    } else {
        2int
    }) && !board[ep as int].is_piece() && board[ep_victim(turn, ep) as int] == Piece::of(
        PAWN,
        other(turn),
    ))
}

/// The board and the plain state are in order, each side has one king
/// and the hash key is the one computed afresh.
pub open spec fn sound(s: State) -> bool {
    &&& s.board.len() == 64
    &&& forall|i: int| 0 <= i < 64 ==> (#[trigger] s.board[i]).valid()
    &&& s.turn < 2
    &&& s.cas.wf()
    &&& one_king(s.board, WHITE)
    &&& one_king(s.board, BLACK)
    &&& (s.ep == NS || s.ep < 64)
    &&& s.key == full_key(s.zobrist, s.board, s.turn, s.ep, s.cas)
    &&& s.hist.len() <= MAX_HIST
    &&& s.fty <= 0xFFFF - MAX_HIST + s.hist.len()
}

/// The move `m` is one that the pieces of the side to move can make, their
/// own king's safety aside.
pub open spec fn pseudo_legal(s: State, m: Move) -> bool {
    let us = s.turn;
    let p = s.board[m.from as int];
    let target = s.board[m.to as int];
    let fwd = if us == WHITE {
        8int
    } else {
        -8int
    };
    &&& m.from < 64
    &&& m.to < 64
    &&& p.is_piece()
    &&& p.spec_color() == us
    &&& if m.kind == KIND_EN_PASSANT {
        m.cap && m.prom == 0 && s.ep != NS && ep_ok(s.board, us, s.ep) && m.to == s.ep && p
            == Piece::of(PAWN, us) && pawn_reach(us, m.from, m.to)
    } else if m.kind == KIND_CASTLE {
        let king_side = m.to > m.from;
        !m.cap && m.prom == 0 && m.from == king_home(us) && m.to == king_goal(us, king_side) && (
        if king_side {
            s.cas.spec_king(us)
        } else {
            s.cas.spec_queen(us)
        }) && p == Piece::of(KING, us) && s.board[rook_home(us, king_side) as int] == Piece::of(
            ROOK,
            us,
        ) && clear_on(s.board, m.from, rook_home(us, king_side))
    } else if m.kind == KIND_LONG_PUSH {
        !m.cap && m.prom == 0 && p == Piece::of(PAWN, us) && rank_of(m.from) == (if us == WHITE {
            1int
        } else {
            6int
        }) && m.to == m.from + 2 * fwd && !s.board[m.from + fwd].is_piece() && !target.is_piece()
    } else if m.kind == 0 {
        &&& if m.cap {
            target.is_piece() && target.spec_color() == other(us) && target.spec_type() != KING
        } else {
            !target.is_piece()
        }
        &&& if p.spec_type() == PAWN {
            &&& if m.cap {
                pawn_reach(us, m.from, m.to)
            } else {
                m.to == m.from + fwd
            }
            &&& if rank_of(m.to) == 0 || rank_of(m.to) == 7 {
                KNIGHT <= m.prom <= QUEEN
            } else {
                m.prom == 0
            }
        } else {
            m.prom == 0 && attacks(s.board, m.from, m.to)
        }
    } else {
        false
    }
}

/// The piece that the move `m` takes off the board, or the empty marker.
pub open spec fn captured(s: State, m: Move) -> Piece {
    if m.kind == KIND_EN_PASSANT {
        s.board[ep_victim(s.turn, s.ep) as int]
    } else {
        s.board[m.to as int]
    }
}

/// The board after the piece on `from` has gone to `to`.
pub open spec fn shift(board: Seq<Piece>, from: u8, to: u8) -> Seq<Piece> {
    board.update(to as int, board[from as int]).update(from as int, empty_sq())
}

/// The board after the move `m` of colour `us`.
pub open spec fn board_after(board: Seq<Piece>, us: u8, ep: u8, m: Move) -> Seq<Piece> {
    if m.kind == KIND_EN_PASSANT {
        shift(board.update(ep_victim(us, ep) as int, empty_sq()), m.from, m.to)
    } else if m.kind == KIND_CASTLE {
        let king_side = m.to > m.from;
        shift(shift(board, m.from, m.to), rook_home(us, king_side), rook_goal(us, king_side))
    } else if m.prom != 0 {
        board.update(m.to as int, Piece::of(m.prom, us)).update(m.from as int, empty_sq())
    } else {
        shift(board, m.from, m.to)
    }
}

/// The rights left once a piece has left or reached the square `sq`.
pub open spec fn rights_touch(cas: CastlingPerm, sq: u8) -> CastlingPerm {
    if sq == 4 {
        cas.spec_dis_both(WHITE)
    } else if sq == 60 {
        cas.spec_dis_both(BLACK)
    } else if sq == 0 {
        cas.spec_dis_queen(WHITE)
    } else if sq == 7 {
        cas.spec_dis_king(WHITE)
    } else if sq == 56 {
        cas.spec_dis_queen(BLACK)
    } else if sq == 63 {
        cas.spec_dis_king(BLACK)
    } else {
        cas
    }
}

/// The castling rights after the move `m` of colour `us`.
pub open spec fn rights_after(cas: CastlingPerm, us: u8, m: Move) -> CastlingPerm {
    if m.kind == KIND_CASTLE {
        cas.spec_dis_both(us)
    } else if m.kind == 0 {
        rights_touch(rights_touch(cas, m.from), m.to)
    } else {
        cas
    }
}

/// The en-passant square after the move `m` of colour `us`.
pub open spec fn ep_after(us: u8, m: Move) -> u8 {
    if m.kind == KIND_LONG_PUSH {
        if us == WHITE {
            (m.from + 8) as u8
        } else {
            (m.to + 8) as u8
        }
    } else {
        NS
    }
}

/// The half-move clock after the move `m`: it starts anew with a pawn move or a capture.
pub open spec fn clock_after(s: State, m: Move) -> u16 {
    if m.cap || s.board[m.from as int].spec_type() == PAWN {
        0
    } else {
        (s.fty + 1) as u16
    }
}

/// The state after the pseudo-legal move `m`.
pub open spec fn spec_make(s: State, m: Move) -> State {
    let board = board_after(s.board, s.turn, s.ep, m);
    let cas = rights_after(s.cas, s.turn, m);
    let ep = ep_after(s.turn, m);
    let turn = other(s.turn);
    State {
        zobrist: s.zobrist,
        board,
        turn,
        cas,
        ep,
        fty: clock_after(s, m),
        key: full_key(s.zobrist, board, turn, ep, cas),
        hist: s.hist.push(
            Hist { m, cas: s.cas, cap: captured(s, m), ep: s.ep, fty: s.fty, key: s.key },
        ),
    }
}

/// The squares that the king stands on, crosses and reaches when it castles.
pub open spec fn castle_path(us: u8, king_side: bool, t: u8) -> bool {
    if king_side {
        king_home(us) <= t <= king_home(us) + 2
    } else {
        king_home(us) - 2 <= t <= king_home(us)
    }
}

/// The pseudo-legal move `m` is legal: a castling king neither stands on,
/// crosses nor reaches an attacked square, and the move leaves the mover's
/// king out of check.
pub open spec fn legal(s: State, m: Move) -> bool {
    &&& m.kind == KIND_CASTLE ==> forall|t: u8|
        t < 64 && castle_path(s.turn, m.to > m.from, t) ==> !#[trigger] attacked_by(
            s.board,
            other(s.turn),
            t,
        )
    &&& !in_check(spec_make(s, m).board, s.turn)
}

/// The board before the move that `h` records was made by colour `us`.
pub open spec fn board_before(board: Seq<Piece>, us: u8, h: Hist) -> Seq<Piece> {
    let m = h.m;
    if m.kind == KIND_EN_PASSANT {
        shift(board.update(ep_victim(us, h.ep) as int, Piece::of(PAWN, other(us))), m.to, m.from)
    } else if m.kind == KIND_CASTLE {
        let king_side = m.to > m.from;
        shift(shift(board, rook_goal(us, king_side), rook_home(us, king_side)), m.to, m.from)
    } else {
        let back = if m.prom != 0 {
            board.update(m.to as int, empty_sq()).update(m.from as int, Piece::of(PAWN, us))
        } else {
            shift(board, m.to, m.from)
        };
        if m.cap {
            back.update(m.to as int, Piece::of(h.cap.spec_type(), other(us)))
        } else {
            back
        }
    }
}

/// The state before the latest move was made.
pub open spec fn spec_unmake(s: State) -> State {
    let h = s.hist.last();
    let us = other(s.turn);
    State {
        zobrist: s.zobrist,
        board: board_before(s.board, us, h),
        turn: us,
        cas: h.cas,
        ep: h.ep,
        fty: h.fty,
        key: h.key,
        hist: s.hist.drop_last(),
    }
}

/// The state after the side to move has passed: the other side is to
/// move and no en-passant capture is on offer.
pub open spec fn spec_pass(s: State) -> State {
    State {
        zobrist: s.zobrist,
        board: s.board,
        turn: other(s.turn),
        cas: s.cas,
        ep: NS,
        fty: s.fty,
        key: full_key(s.zobrist, s.board, other(s.turn), NS, s.cas),
        hist: s.hist.push(
            Hist { m: Move::null(), cas: s.cas, cap: empty_sq(), ep: s.ep, fty: s.fty, key: s.key },
        ),
    }
}

/// The state before the latest pass.
pub open spec fn spec_unpass(s: State) -> State {
    let h = s.hist.last();
    State {
        zobrist: s.zobrist,
        board: s.board,
        turn: other(s.turn),
        cas: h.cas,
        ep: h.ep,
        fty: h.fty,
        key: h.key,
        hist: s.hist.drop_last(),
    }
}

/// The latest record of the undo stack tells how the state came about: by
/// a pseudo-legal move, or by a pass of a side not in check, from a state
/// that is itself in order.
pub open spec fn undoable(s: State) -> bool
    decreases s.hist.len(), 0int,
{
    s.hist.len() > 0 && {
        let h = s.hist.last();
        if h.m == Move::null() {
            let prev = spec_unpass(s);
            playable(prev) && !in_check(prev.board, prev.turn) && spec_pass(prev) == s
        } else {
            let prev = spec_unmake(s);
            playable(prev) && pseudo_legal(prev, h.m) && spec_make(prev, h.m) == s
        }
    }
}

/// The state is in order, and so is every state that it came from.
pub open spec fn playable(s: State) -> bool
    decreases s.hist.len(), 1int,
{
    sound(s) && (s.hist.len() > 0 ==> undoable(s))
}

/// No pseudo-legal move is the null move.
pub proof fn lemma_never_null(s: State, m: Move)
    requires
        pseudo_legal(s, m),
    ensures
        m != Move::null(),
{
    if m == Move::null() {
        assert forall|t: u8| !#[trigger] between(0u8, t, 0u8) by {
            reveal(between);
        }
    }
}

/// Taking back a move that was just made gives the state it was made in.
pub proof fn lemma_make_unmake(s: State, m: Move)
    requires
        sound(s),
        pseudo_legal(s, m),
    ensures
        spec_unmake(spec_make(s, m)) == s,
{
    let after = spec_make(s, m);
    let back = spec_unmake(after);
    let us = s.turn;
    assert(after.hist.last().m == m);
    assert(after.hist.drop_last() =~= s.hist);
    let b = s.board;
    let b1 = after.board;
    let b2 = back.board;
    assert(b2.len() == 64);
    assert forall|i: int| 0 <= i < 64 implies b2[i] == b[i] by {
        let h = after.hist.last();
        assert(h.cap == captured(s, m));
        if m.kind == KIND_EN_PASSANT {
            assert(b[ep_victim(us, s.ep) as int] == Piece::of(PAWN, other(us)));
        } else if m.kind == KIND_CASTLE {
            assert(b[rook_home(us, m.to > m.from) as int] == Piece::of(ROOK, us));
            assert(!b[rook_goal(us, m.to > m.from) as int].is_piece()) by {
                lemma_castle_squares(b, us, m.to > m.from);
            }
            assert(!b[m.to as int].is_piece()) by {
                lemma_castle_squares(b, us, m.to > m.from);
            }
        } else if m.cap {
            let c = b[m.to as int];
            assert(Piece::of(c.spec_type(), other(us)) == c);
        }
    }
    assert(b2 =~= b);
}

/// The king's and the rook's goal lie between their homes, so a clear path means empty goals.
pub proof fn lemma_castle_squares(board: Seq<Piece>, us: u8, king_side: bool)
    requires
        us < 2,
        clear_on(board, king_home(us), rook_home(us, king_side)),
    ensures
        !board[king_goal(us, king_side) as int].is_piece(),
        !board[rook_goal(us, king_side) as int].is_piece(),
{
    reveal(between);
    assert(between(king_home(us), king_goal(us, king_side), rook_home(us, king_side)));
    assert(between(king_home(us), rook_goal(us, king_side), rook_home(us, king_side)));
}

/// Which rights survive a piece leaving or reaching a square: those whose
/// king and rook have their homes elsewhere.
pub proof fn lemma_touch(cas: CastlingPerm, sq: u8)
    requires
        cas.wf(),
    ensures
        rights_touch(cas, sq).wf(),
        forall|c: u8|
            c < 2 ==> (#[trigger] rights_touch(cas, sq).spec_king(c) <==> (cas.spec_king(c) && sq
                != king_home(c) && sq != rook_home(c, true))),
        forall|c: u8|
            c < 2 ==> (#[trigger] rights_touch(cas, sq).spec_queen(c) <==> (cas.spec_queen(c) && sq
                != king_home(c) && sq != rook_home(c, false))),
{
    lemma_revoke(cas, 0);
    lemma_revoke(cas, 1);
    lemma_revoke(cas.spec_dis_king(0), 0);
    lemma_revoke(cas.spec_dis_king(1), 1);
}

/// After a pseudo-legal move each side still has its one king.
pub proof fn lemma_kings_after(s: State, m: Move, c: u8)
    requires
        sound(s),
        pseudo_legal(s, m),
        c < 2,
    ensures
        one_king(board_after(s.board, s.turn, s.ep, m), c),
{
    let b = s.board;
    let us = s.turn;
    let b1 = board_after(b, us, s.ep, m);
    let k = king_at(b, c);
    let king = Piece::of(KING, c);
    assert(b[k as int] == king);
    let k1 = if b[m.from as int] == king {
        m.to
    } else {
        k
    };
    if m.kind == KIND_CASTLE {
        lemma_castle_squares(b, us, m.to > m.from);
        assert(b[rook_home(us, m.to > m.from) as int] == Piece::of(ROOK, us));
        assert(b[king_home(us) as int] == Piece::of(KING, us));
    }
    if m.kind == KIND_EN_PASSANT {
        assert(b[ep_victim(us, s.ep) as int] == Piece::of(PAWN, other(us)));
    }
    assert(b1[k1 as int] == king);
    assert forall|j: u8| j < 64 && #[trigger] b1[j as int] == king implies j == k1 by {
        if j != k1 {
            if b[j as int] == king {
                assert(j == k);
            }
        }
    }
}

/// Whatever the move, the rights after it are among the four.
pub proof fn lemma_rights_in_order(cas: CastlingPerm, us: u8, m: Move)
    requires
        cas.wf(),
        us < 2,
    ensures
        rights_after(cas, us, m).wf(),
{
    lemma_revoke(cas, 0);
    lemma_revoke(cas, 1);
    lemma_touch(cas, m.from);
    lemma_touch(rights_touch(cas, m.from), m.to);
}

/// After a pseudo-legal move the rights are in order, and if each right
/// held had its king and rook at home, so has each right still held.
pub proof fn lemma_rights_after(s: State, m: Move)
    requires
        sound(s),
        pseudo_legal(s, m),
        rights_ok(s.board, s.cas),
    ensures
        rights_after(s.cas, s.turn, m).wf(),
        rights_ok(board_after(s.board, s.turn, s.ep, m), rights_after(s.cas, s.turn, m)),
{
    let b = s.board;
    let us = s.turn;
    let b1 = board_after(b, us, s.ep, m);
    let cas1 = rights_after(s.cas, us, m);
    lemma_revoke(s.cas, 0);
    lemma_revoke(s.cas, 1);
    lemma_revoke(s.cas.spec_dis_king(0), 0);
    lemma_revoke(s.cas.spec_dis_king(1), 1);
    lemma_touch(s.cas, m.from);
    lemma_touch(rights_touch(s.cas, m.from), m.to);
    if m.kind == KIND_CASTLE {
        lemma_castle_squares(b, us, m.to > m.from);
    }
    assert forall|c: u8| c < 2 && #[trigger] cas1.spec_king(c) implies b1[king_home(c) as int]
        == Piece::of(KING, c) && b1[rook_home(c, true) as int] == Piece::of(ROOK, c) by {
        assert(s.cas.spec_king(c));
    }
    assert forall|c: u8| c < 2 && #[trigger] cas1.spec_queen(c) implies b1[king_home(c) as int]
        == Piece::of(KING, c) && b1[rook_home(c, false) as int] == Piece::of(ROOK, c) by {
        assert(s.cas.spec_queen(c));
    }
}

/// After a double push the square passed over is a sound en-passant square.
pub proof fn lemma_ep_after(s: State, m: Move)
    requires
        sound(s),
        pseudo_legal(s, m),
    ensures
        ep_ok(board_after(s.board, s.turn, s.ep, m), other(s.turn), ep_after(s.turn, m)),
{
}

/// A pseudo-legal move leads from a state in order to a state in order.
pub proof fn lemma_make_sound(s: State, m: Move)
    requires
        sound(s),
        pseudo_legal(s, m),
        s.hist.len() < MAX_HIST,
    ensures
        sound(spec_make(s, m)),
{
    lemma_kings_after(s, m, 0);
    lemma_kings_after(s, m, 1);
    lemma_revoke(s.cas, 0);
    lemma_revoke(s.cas, 1);
    lemma_touch(s.cas, m.from);
    lemma_touch(rights_touch(s.cas, m.from), m.to);
    lemma_ep_after(s, m);
    let after = spec_make(s, m);
    assert forall|i: int| 0 <= i < 64 implies (#[trigger] after.board[i]).valid() by {
        assert(s.board[i].valid());
        assert(s.board[m.from as int].valid());
        if m.kind == KIND_CASTLE {
            assert(s.board[rook_home(s.turn, m.to > m.from) as int].valid());
        }
    }
}

/// A move made from a state in order can be taken back, whether or not it is legal.
pub proof fn lemma_make_undoable(s: State, m: Move)
    requires
        playable(s),
        pseudo_legal(s, m),
    ensures
        undoable(spec_make(s, m)),
{
    lemma_never_null(s, m);
    lemma_make_unmake(s, m);
    assert(spec_make(s, m).hist.last().m == m);
}

/// A pass can be taken back.
pub proof fn lemma_pass_undoable(s: State)
    requires
        playable(s),
        !in_check(s.board, s.turn),
    ensures
        undoable(spec_pass(s)),
        spec_unpass(spec_pass(s)) == s,
{
    let after = spec_pass(s);
    assert(after.hist.drop_last() =~= s.hist);
    assert(spec_unpass(after) == s);
}

} // verus!
