//! The evaluation does not take sides: a position and its mirror image,
//! with the colours and the ranks exchanged, score alike.

use crate::bitbrd::{bit_at, lemma_bit_ext, lemma_lowest, lemma_member_nonzero};
use crate::defs::{BLACK, KING, WHITE};
use crate::eval::{
    flag, flip, ones, popcount, spec_bking_shield, spec_file_fill, spec_isolanis, spec_north_fill,
    spec_north_one, spec_south_fill, spec_south_one, spec_widen, spec_wking_shield, square_score,
    squares_score,
};
use crate::model::{king_at, one_king, other};
use crate::piece::Piece;
use crate::pos::{material_of, value_of, Position};
use vstd::prelude::*;
use vstd::std_specs::bits::u64_trailing_zeros;

verus! {

/// The bitboard turned upside down: the first rank becomes the eighth.
pub open spec fn flip_v(x: u64) -> u64 {
    (x << 56) | ((x << 40) & 0x00FF000000000000) | ((x << 24) & 0x0000FF0000000000) | ((x << 8)
        & 0x000000FF00000000) | ((x >> 8) & 0x00000000FF000000) | ((x >> 24) & 0x0000000000FF0000)
        | ((x >> 40) & 0x000000000000FF00) | (x >> 56)
}

/// The members of a bitboard turned upside down.
pub proof fn lemma_flip_members()
    by (bit_vector)
    ensures
        forall|x: u64, sq: u8| sq < 64 ==> (#[trigger] bit_at(flip_v(x), sq) <==> bit_at(x, sq ^ 56)),
        forall|sq: u8| sq < 64 ==> #[trigger] (sq ^ 56) == (7 - sq / 8) * 8 + sq % 8,
        forall|sq: u8| sq < 64 ==> 1u64 << #[trigger] (sq ^ 56) == flip_v(1u64 << sq),
{
}

/// Turning upside down goes through unions, files and neighbours, and
/// exchanges north and south.
pub proof fn lemma_flip_fills()
    by (bit_vector)
    ensures
        forall|a: u64, b: u64| #[trigger] (flip_v(a) | flip_v(b)) == flip_v(a | b),
        forall|x: u64| #[trigger]
            (spec_north_fill(spec_north_one(flip_v(x))) & flip_v(x)) == flip_v(
                spec_south_fill(spec_south_one(x)) & x,
            ),
        forall|x: u64| #[trigger]
            (spec_south_fill(spec_south_one(flip_v(x))) & flip_v(x)) == flip_v(
                spec_north_fill(spec_north_one(x)) & x,
            ),
        forall|x: u64| #[trigger] spec_isolanis(flip_v(x)) == flip_v(spec_isolanis(x)),
        forall|o: u64, r: u64| #[trigger]
            (!spec_file_fill(flip_v(o) & !flip_v(r)) & flip_v(r)) == flip_v(
                !spec_file_fill(o & !r) & r,
            ),
        forall|x: u64, r: u64| #[trigger]
            (!spec_file_fill(flip_v(x)) & flip_v(r)) == flip_v(!spec_file_fill(x) & r),
        forall|x: u64| #[trigger]
            spec_widen(spec_south_fill(spec_south_one(flip_v(x)))) == flip_v(
                spec_widen(spec_north_fill(spec_north_one(x))),
            ),
        forall|x: u64| #[trigger]
            spec_widen(spec_north_fill(spec_north_one(flip_v(x)))) == flip_v(
                spec_widen(spec_south_fill(spec_south_one(x))),
            ),
        forall|k: u64, x: u64| #[trigger]
            (spec_wking_shield(flip_v(k)) & flip_v(x)) == flip_v(spec_bking_shield(k) & x),
        forall|k: u64, x: u64| #[trigger]
            (spec_bking_shield(flip_v(k)) & flip_v(x)) == flip_v(spec_wking_shield(k) & x),
{
}

/// The sum of `f` over the first `n` squares.
pub open spec fn total(f: spec_fn(int) -> int, n: int) -> int
    decreases n,
{
    if n <= 0 {
        0
    } else {
        total(f, n - 1) + f(n - 1)
    }
}

/// The sum of `f` over the squares of rank `r`.
pub open spec fn row(f: spec_fn(int) -> int, r: int) -> int {
    f(8 * r) + f(8 * r + 1) + f(8 * r + 2) + f(8 * r + 3) + f(8 * r + 4) + f(8 * r + 5) + f(8 * r + 6)
        + f(8 * r + 7)
}

proof fn lemma_row(f: spec_fn(int) -> int, r: int)
    requires
        0 <= r,
    ensures
        total(f, 8 * (r + 1)) == total(f, 8 * r) + row(f, r),
{
    reveal_with_fuel(total, 9);
}

proof fn lemma_rows(f: spec_fn(int) -> int)
    ensures
        total(f, 64) == row(f, 0) + row(f, 1) + row(f, 2) + row(f, 3) + row(f, 4) + row(f, 5) + row(
            f,
            6,
        ) + row(f, 7),
{
    lemma_row(f, 0);
    lemma_row(f, 1);
    lemma_row(f, 2);
    lemma_row(f, 3);
    lemma_row(f, 4);
    lemma_row(f, 5);
    lemma_row(f, 6);
    lemma_row(f, 7);
    assert(total(f, 0) == 0);
}

/// Sums that agree term by term agree.
pub proof fn lemma_total_ext(f: spec_fn(int) -> int, g: spec_fn(int) -> int, n: int)
    requires
        forall|i: int| 0 <= i < n ==> #[trigger] f(i) == g(i),
    ensures
        total(f, n) == total(g, n),
    decreases n,
{
    if n > 0 {
        lemma_total_ext(f, g, n - 1);
    }
}

/// A sum over the board is the same taken upside down.
pub proof fn lemma_total_flip(f: spec_fn(int) -> int, g: spec_fn(int) -> int)
    requires
        forall|i: int| 0 <= i < 64 ==> #[trigger] g(i) == f(flip(i)),
    ensures
        total(g, 64) == total(f, 64),
{
    lemma_rows(f);
    lemma_rows(g);
    assert forall|r: int| 0 <= r < 8 implies #[trigger] row(g, r) == row(f, 7 - r) by {
        assert(g(8 * r) == f(flip(8 * r)));
        assert(g(8 * r + 1) == f(flip(8 * r + 1)));
        assert(g(8 * r + 2) == f(flip(8 * r + 2)));
        assert(g(8 * r + 3) == f(flip(8 * r + 3)));
        assert(g(8 * r + 4) == f(flip(8 * r + 4)));
        assert(g(8 * r + 5) == f(flip(8 * r + 5)));
        assert(g(8 * r + 6) == f(flip(8 * r + 6)));
        assert(g(8 * r + 7) == f(flip(8 * r + 7)));
    }
    assert(row(g, 0) == row(f, 7));
    assert(row(g, 1) == row(f, 6));
    assert(row(g, 2) == row(f, 5));
    assert(row(g, 3) == row(f, 4));
    assert(row(g, 4) == row(f, 3));
    assert(row(g, 5) == row(f, 2));
    assert(row(g, 6) == row(f, 1));
    assert(row(g, 7) == row(f, 0));
}

proof fn lemma_ones_total(x: u64, n: nat)
    ensures
        ones(x, n) == total(|i: int| flag(bit_at(x, i as u8)), n as int),
    decreases n,
{
    if n > 0 {
        lemma_ones_total(x, (n - 1) as nat);
    }
}

/// A bitboard has as many members upside down.
pub proof fn lemma_popcount_flip(x: u64)
    ensures
        popcount(flip_v(x)) == popcount(x),
{
    lemma_flip_members();
    let f = |i: int| flag(bit_at(x, i as u8));
    let g = |i: int| flag(bit_at(flip_v(x), i as u8));
    lemma_ones_total(x, 64);
    lemma_ones_total(flip_v(x), 64);
    assert forall|i: int| 0 <= i < 64 implies #[trigger] g(i) == f(flip(i)) by {
        let sq = i as u8;
        assert(bit_at(flip_v(x), sq) <==> bit_at(x, sq ^ 56));
        assert((sq ^ 56) as int == flip(i));
    }
    lemma_total_flip(f, g);
}

/// The piece of the other colour; an empty square stays empty.
pub open spec fn swapped(pc: Piece) -> Piece {
    if pc.is_piece() {
        Piece::of(pc.spec_type(), other(pc.spec_color()))
    } else {
        pc
    }
}

/// The position `q` is the position `p` seen from the other side: each
/// piece stands on the square across the middle of the board and has the
/// other colour, the other side is to move, and the castling rights are exchanged.
pub open spec fn mirrored(p: &Position, q: &Position) -> bool {
    &&& forall|sq: int| 0 <= sq < 64 ==> #[trigger] q.board[sq] == swapped(p.board[flip(sq)])
    &&& p.turn < 2
    &&& q.turn == other(p.turn)
    &&& forall|c: u8|
        c < 2 ==> #[trigger] q.cas.spec_king(c) == p.cas.spec_king(other(c)) && q.cas.spec_queen(c)
            == p.cas.spec_queen(other(c))
}

/// What the square `i` adds to the material of colour `c`.
pub open spec fn material_term(board: Seq<Piece>, c: u8, i: int) -> int {
    if board[i].is_piece() && board[i].spec_color() == c {
        value_of(board[i])
    } else {
        0
    }
}

proof fn lemma_material_total(board: Seq<Piece>, c: u8, n: int)
    ensures
        material_of(board, c, n) == total(|i: int| material_term(board, c, i), n),
    decreases n,
{
    if n > 0 {
        lemma_material_total(board, c, n - 1);
    }
}

proof fn lemma_squares_total(p: &Position, n: int)
    ensures
        squares_score(p, n) == total(|i: int| square_score(p, i), n),
    decreases n,
{
    if n > 0 {
        lemma_squares_total(p, n - 1);
    }
}

proof fn lemma_total_neg(f: spec_fn(int) -> int, g: spec_fn(int) -> int, n: int)
    requires
        forall|i: int| 0 <= i < n ==> #[trigger] g(i) == -f(i),
    ensures
        total(g, n) == -total(f, n),
    decreases n,
{
    if n > 0 {
        lemma_total_neg(f, g, n - 1);
    }
}

/// The bitboards of a mirror image are those of the position, upside
/// down and with the colours exchanged.
pub proof fn lemma_mirror_boards(p: &Position, q: &Position)
    requires
        p.consistent(),
        q.consistent(),
        mirrored(p, q),
    ensures
        forall|c: int, tp: int|
            0 <= c < 2 && 0 <= tp < 6 ==> #[trigger] q.pieces[c][tp] == flip_v(p.pieces[1 - c][tp]),
        forall|c: int| 0 <= c < 2 ==> #[trigger] q.occupied[c] == flip_v(p.occupied[1 - c]),
        forall|c: int| 0 <= c < 2 ==> #[trigger] q.material[c] == p.material[1 - c],
{
    lemma_flip_members();
    assert forall|c: int, tp: int| 0 <= c < 2 && 0 <= tp < 6 implies #[trigger] q.pieces[c][tp]
        == flip_v(p.pieces[1 - c][tp]) by {
        let a = q.pieces[c][tp];
        let b = p.pieces[1 - c][tp];
        assert forall|sq: u8| sq < 64 implies bit_at(a, sq) == bit_at(flip_v(b), sq) by {
            let t = sq ^ 56;
            assert(t as int == flip(sq as int));
            assert(q.board[sq as int] == swapped(p.board[flip(sq as int)]));
            assert(p.board[t as int].valid());
            assert(bit_at(q.pieces[c as u8 as int][tp as u8 as int], sq) <==> q.board[sq as int]
                == Piece::of(tp as u8, c as u8));
            assert(bit_at(p.pieces[(1 - c) as u8 as int][tp as u8 as int], t) <==> p.board[t as int]
                == Piece::of(tp as u8, (1 - c) as u8));
        }
        lemma_bit_ext(a, flip_v(b));
    }
    assert forall|c: int| 0 <= c < 2 implies #[trigger] q.occupied[c] == flip_v(p.occupied[1 - c]) by {
        let a = q.occupied[c];
        let b = p.occupied[1 - c];
        assert forall|sq: u8| sq < 64 implies bit_at(a, sq) == bit_at(flip_v(b), sq) by {
            let t = sq ^ 56;
            assert(t as int == flip(sq as int));
            assert(q.board[sq as int] == swapped(p.board[flip(sq as int)]));
            assert(p.board[t as int].valid());
            assert(bit_at(q.occupied[c as u8 as int], sq) <==> (q.board[sq as int].is_piece()
                && q.board[sq as int].spec_color() == c as u8));
            assert(bit_at(p.occupied[(1 - c) as u8 as int], t) <==> (p.board[t as int].is_piece()
                && p.board[t as int].spec_color() == (1 - c) as u8));
        }
        lemma_bit_ext(a, flip_v(b));
    }
    assert forall|c: int| 0 <= c < 2 implies #[trigger] q.material[c] == p.material[1 - c] by {
        let cq = c as u8;
        let cp = (1 - c) as u8;
        let f = |i: int| material_term(p.board@, cp, i);
        let g = |i: int| material_term(q.board@, cq, i);
        lemma_material_total(p.board@, cp, 64);
        lemma_material_total(q.board@, cq, 64);
        assert forall|i: int| 0 <= i < 64 implies #[trigger] g(i) == f(flip(i)) by {
            assert(q.board[i] == swapped(p.board[flip(i)]));
            assert(p.board[flip(i)].valid());
        }
        lemma_total_flip(f, g);
        assert(q.material[cq as int] == material_of(q.board@, cq, 64));
        assert(p.material[cp as int] == material_of(p.board@, cp, 64));
    }
}

/// The pieces of a mirror image are placed as well as those of the position, seen from the other side.
pub proof fn lemma_mirror_squares(p: &Position, q: &Position)
    requires
        p.consistent(),
        q.consistent(),
        mirrored(p, q),
    ensures
        squares_score(q, 64) == -squares_score(p, 64),
{
    lemma_mirror_boards(p, q);
    lemma_flip_members();
    lemma_flip_fills();
    let f = |i: int| square_score(p, i);
    let h = |i: int| -square_score(p, i);
    let g = |i: int| square_score(q, i);
    lemma_squares_total(p, 64);
    lemma_squares_total(q, 64);
    assert(q.pieces[1][0] == flip_v(p.pieces[0][0]));
    assert(q.pieces[0][0] == flip_v(p.pieces[1][0]));
    assert forall|i: int| 0 <= i < 64 implies #[trigger] g(i) == h(flip(i)) by {
        let sq = i as u8;
        let t = sq ^ 56;
        assert(t as int == flip(i));
        assert(flip(flip(i)) == i);
        assert(q.board[i] == swapped(p.board[flip(i)]));
        assert(p.board[flip(i)].valid());
        let wq = spec_widen(spec_south_fill(spec_south_one(q.pieces[1][0])));
        let wp = spec_widen(spec_north_fill(spec_north_one(p.pieces[0][0])));
        assert(wq == flip_v(wp));
        assert(bit_at(wq, sq) <==> bit_at(wp, t));
        let bq = spec_widen(spec_north_fill(spec_north_one(q.pieces[0][0])));
        let bp = spec_widen(spec_south_fill(spec_south_one(p.pieces[1][0])));
        assert(bq == flip_v(bp));
        assert(bit_at(bq, sq) <==> bit_at(bp, t));
    }
    lemma_total_flip(h, g);
    lemma_total_neg(f, h, 64);
}

/// The pawn structure, the files and the bishops of a mirror image are
/// worth to white what those of the position are worth to black.
pub proof fn lemma_mirror_structure(p: &Position, q: &Position)
    requires
        p.consistent(),
        q.consistent(),
        mirrored(p, q),
    ensures
        q.structure_score() == -p.structure_score(),
{
    lemma_mirror_boards(p, q);
    lemma_flip_fills();
    let wp = p.pieces[0][0];
    let bp = p.pieces[1][0];
    let wr = p.pieces[0][3];
    let br = p.pieces[1][3];
    let wq = p.pieces[0][4];
    let bq = p.pieces[1][4];
    let op = p.occupied[0] | p.occupied[1];
    assert(q.pieces[0][0] == flip_v(bp) && q.pieces[1][0] == flip_v(wp));
    assert(q.pieces[0][3] == flip_v(br) && q.pieces[1][3] == flip_v(wr));
    assert(q.pieces[0][4] == flip_v(bq) && q.pieces[1][4] == flip_v(wq));
    assert(q.pieces[0][2] == flip_v(p.pieces[1][2]) && q.pieces[1][2] == flip_v(p.pieces[0][2]));
    assert(q.occupied[0] == flip_v(p.occupied[1]) && q.occupied[1] == flip_v(p.occupied[0]));
    let oq = q.occupied[0] | q.occupied[1];
    assert(oq == flip_v(op)) by {
        let a = p.occupied[0];
        let b = p.occupied[1];
        assert(b | a == a | b) by (bit_vector);
    }
    lemma_popcount_flip(spec_south_fill(spec_south_one(bp)) & bp);
    lemma_popcount_flip(spec_north_fill(spec_north_one(wp)) & wp);
    lemma_popcount_flip(spec_isolanis(bp));
    lemma_popcount_flip(spec_isolanis(wp));
    lemma_popcount_flip(!spec_file_fill(op & !br) & br);
    lemma_popcount_flip(!spec_file_fill(op & !wr) & wr);
    lemma_popcount_flip(!spec_file_fill(bp) & br);
    lemma_popcount_flip(!spec_file_fill(wp) & wr);
    lemma_popcount_flip(!spec_file_fill(op & !bq) & bq);
    lemma_popcount_flip(!spec_file_fill(op & !wq) & wq);
    lemma_popcount_flip(!spec_file_fill(bp) & bq);
    lemma_popcount_flip(!spec_file_fill(wp) & wq);
    lemma_popcount_flip(p.pieces[1][2]);
    lemma_popcount_flip(p.pieces[0][2]);
}

/// The king board of a colour with one king has its member where the king stands.
proof fn lemma_king_square(p: &Position, c: u8)
    requires
        p.board_ok(),
        c < 2,
        one_king(p.board@, c),
    ensures
        u64_trailing_zeros(p.pieces[c as int][5]) == king_at(p.board@, c),
        king_at(p.board@, c) < 64,
{
    let x = p.pieces[c as int][5];
    let k = king_at(p.board@, c);
    assert(bit_at(x, k));
    lemma_member_nonzero(x, k);
    lemma_lowest(x);
    let t = u64_trailing_zeros(x) as u8;
    assert(bit_at(x, t));
    assert(p.board[t as int] == Piece::of(KING, c));
}

/// The kings of a mirror image stand across the middle of the board from those of the position.
proof fn lemma_mirror_kings(p: &Position, q: &Position, c: u8)
    requires
        p.consistent(),
        q.consistent(),
        mirrored(p, q),
        c < 2,
        one_king(p.board@, other(c)),
    ensures
        one_king(q.board@, c),
        king_at(q.board@, c) as int == flip(king_at(p.board@, other(c)) as int),
{
    let k = king_at(p.board@, other(c));
    let t = flip(k as int) as u8;
    assert(p.board[k as int] == Piece::of(KING, other(c)));
    assert(flip(t as int) == k);
    assert(q.board[t as int] == swapped(p.board[flip(t as int)]));
    assert(q.board[t as int] == Piece::of(KING, c));
    assert forall|j: u8| j < 64 && #[trigger] q.board[j as int] == Piece::of(KING, c) implies j == t by {
        let u = flip(j as int) as u8;
        assert(q.board[j as int] == swapped(p.board[flip(j as int)]));
        assert(p.board[u as int].valid());
        assert(p.board[u as int] == Piece::of(KING, other(c)));
        assert(u == k);
    }
}

/// The kings of a mirror image are worth to white what those of the position are worth to black.
pub proof fn lemma_mirror_king_score(p: &Position, q: &Position)
    requires
        p.consistent(),
        q.consistent(),
        mirrored(p, q),
        one_king(p.board@, WHITE),
        one_king(p.board@, BLACK),
    ensures
        q.king_score() == -p.king_score(),
{
    lemma_mirror_boards(p, q);
    lemma_flip_members();
    lemma_flip_fills();
    lemma_mirror_kings(p, q, 0);
    lemma_mirror_kings(p, q, 1);
    lemma_king_square(p, 0);
    lemma_king_square(p, 1);
    lemma_king_square(q, 0);
    lemma_king_square(q, 1);
    let wk = king_at(p.board@, WHITE);
    let bk = king_at(p.board@, BLACK);
    let wk2 = king_at(q.board@, WHITE);
    let bk2 = king_at(q.board@, BLACK);
    assert(wk2 as int == flip(bk as int) && bk2 as int == flip(wk as int));
    assert(flip(bk2 as int) == wk);
    assert(wk2 == bk ^ 56 && bk2 == wk ^ 56);
    assert(q.material[0] == p.material[1] && q.material[1] == p.material[0]);
    assert(q.pieces[0][0] == flip_v(p.pieces[1][0]) && q.pieces[1][0] == flip_v(p.pieces[0][0]));
    assert(1u64 << wk2 == flip_v(1u64 << bk));
    assert(1u64 << bk2 == flip_v(1u64 << wk));
    lemma_popcount_flip(spec_bking_shield(1u64 << bk) & p.pieces[1][0]);
    lemma_popcount_flip(spec_wking_shield(1u64 << wk) & p.pieces[0][0]);
    assert(q.cas.spec_king(WHITE) == p.cas.spec_king(BLACK));
    assert(q.cas.spec_queen(WHITE) == p.cas.spec_queen(BLACK));
    assert(q.cas.spec_king(BLACK) == p.cas.spec_king(WHITE));
    assert(q.cas.spec_queen(BLACK) == p.cas.spec_queen(WHITE));
}

/// A position and its mirror image, colours and ranks exchanged, are
/// evaluated alike by the side to move: the evaluation does not take sides.
pub proof fn lemma_eval_mirror(p: &Position, q: &Position)
    requires
        p.consistent(),
        q.consistent(),
        mirrored(p, q),
        one_king(p.board@, WHITE),
        one_king(p.board@, BLACK),
    ensures
        q.spec_eval() == p.spec_eval(),
{
    lemma_mirror_boards(p, q);
    lemma_mirror_squares(p, q);
    lemma_mirror_structure(p, q);
    lemma_mirror_king_score(p, q);
    assert(q.material[0] == p.material[1] && q.material[1] == p.material[0]);
    assert(q.white_score() == -p.white_score());
}

/// A position that is its own mirror image is level: neither side is ahead.
pub proof fn lemma_eval_level(p: &Position, q: &Position)
    requires
        p.consistent(),
        q.consistent(),
        mirrored(p, q),
        one_king(p.board@, WHITE),
        one_king(p.board@, BLACK),
        q.board == p.board,
        q.pieces == p.pieces,
        q.occupied == p.occupied,
        q.material == p.material,
        q.cas == p.cas,
    ensures
        p.spec_eval() == 0,
{
    lemma_eval_mirror(p, q);
    crate::eval::lemma_eval_other_side(p, q);
}

} // verus!
