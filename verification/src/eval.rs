//! The static evaluation: material, piece placement, pawn structure, open
//! files, king safety and the bishop pair, seen from the side to move.

use crate::bitbrd::{bit_at, lemma_lowest, lemma_member_nonzero, BitHelpers};
use crate::defs::{
    BISHOPX, BLACK, BLACKX, FILE_A, FILE_H, KINGX, PAWN, PAWNX, QUEEN, QUEENX, RANK_1, RANK_8,
    ROOKX, WHITE, WHITEX,
};
use crate::model::{king_at, one_king};

use crate::pos::{lemma_material_bound, Position};
use vstd::prelude::*;
use vstd::std_specs::bits::u64_trailing_zeros;

verus! {

/// Placement values of pawns, knights, bishops and rooks, by square as white sees it.
pub const LOCATION_TABLE: [[i8; 64]; 4] = [
    [
        0, 0, 0, 0, 0, 0, 0, 0,
        10, 10, 0, -10, -10, 0, 10, 10,
        5, 0, 0, 5, 5, 0, 0, 5,
        0, 0, 10, 20, 20, 10, 0, 0,
        5, 5, 5, 10, 10, 5, 5, 5,
        10, 10, 10, 20, 20, 10, 10, 10,
        20, 20, 20, 30, 30, 20, 20, 20,
        0, 0, 0, 0, 0, 0, 0, 0,
    ],
    [
        0, -10, 0, 0, 0, 0, -10, 0,
        0, 0, 0, 5, 5, 0, 0, 0,
        0, 0, 10, 10, 10, 10, 0, 0,
        0, 0, 10, 20, 20, 10, 5, 0,
        5, 10, 15, 20, 20, 15, 10, 5,
        5, 10, 10, 20, 20, 10, 10, 5,
        0, 0, 5, 10, 10, 5, 0, 0,
        0, 0, 0, 0, 0, 0, 0, 0,
    ],
    [
        0, 0, -10, 0, 0, -10, 0, 0,
        0, 0, 0, 10, 10, 0, 0, 0,
        0, 0, 10, 15, 15, 10, 0, 0,
        0, 10, 15, 20, 20, 15, 10, 0,
        0, 10, 15, 20, 20, 15, 10, 0,
        0, 0, 10, 15, 15, 10, 0, 0,
        0, 0, 0, 10, 10, 0, 0, 0,
        0, 0, 0, 0, 0, 0, 0, 0,
    ],
    [
        0, 0, 5, 10, 10, 5, 0, 0,
        0, 0, 5, 10, 10, 5, 0, 0,
        0, 0, 5, 10, 10, 5, 0, 0,
        0, 0, 5, 10, 10, 5, 0, 0,
        0, 0, 5, 10, 10, 5, 0, 0,
        0, 0, 5, 10, 10, 5, 0, 0,
        25, 25, 25, 25, 25, 25, 25, 25,
        0, 0, 5, 10, 10, 5, 0, 0,
    ],
];

/// Placement values of the king, in the middle game and in the endgame.
pub const KING_LOCATION: [[i8; 64]; 2] = [
    [
        0, 5, 5, -10, -10, 0, 10, 5,
        -30, -30, -30, -30, -30, -30, -30, -30,
        -50, -50, -50, -50, -50, -50, -50, -50,
        -70, -70, -70, -70, -70, -70, -70, -70,
        -70, -70, -70, -70, -70, -70, -70, -70,
        -70, -70, -70, -70, -70, -70, -70, -70,
        -70, -70, -70, -70, -70, -70, -70, -70,
        -70, -70, -70, -70, -70, -70, -70, -70,
    ],
    [
        -50, -10, 0, 0, 0, 0, -10, -50,
        -10, 0, 10, 10, 10, 10, 0, -10,
        0, 10, 20, 20, 20, 20, 10, 0,
        0, 10, 20, 40, 40, 20, 10, 0,
        0, 10, 20, 40, 40, 20, 10, 0,
        0, 10, 20, 20, 20, 20, 10, 0,
        -10, 0, 10, 10, 10, 10, 0, -10,
        -50, -10, 0, 0, 0, 0, -10, -50,
    ],
];

/// The bonus for each pawn on the three squares before the king.
pub const KING_SHIELDED: i32 = 15;

/// The bonus of a passed pawn, by the rank it has reached.
pub const PASSED_PAWN_SCORE: [i16; 8] = [0, 5, 10, 20, 35, 60, 100, 200];

/// The penalties for a pawn without a neighbour and for a pawn behind another of its colour.
pub const ISOLATED_PAWN_PENALTY: i32 = -5;

pub const DOUBLE_PAWN_PENALTY: i32 = -5;

/// The bonuses of rooks and queens on files without other pieces, or without pawns of their colour.
pub const ROOK_OPEN_FILE: i32 = 5;

pub const ROOK_SEMI_OPEN_FILE: i32 = 5;

pub const QUEEN_OPEN_FILE: i32 = 3;

pub const QUEEN_SEMI_OPEN_FILE: i32 = 2;

/// The bonus for a castling right still held.
pub const CASTLE_PERM_SCORE: i32 = 10;

/// The bonus for two bishops.
pub const BISHOP_PAIR: i32 = 30;

/// With less material than two pawns, two knights and a rook a side is in the endgame.
pub const ENDGAME_THRESHOLD: i32 = 1400;

/// A side that is no more than this behind may bring its king out in the endgame.
pub const SAFE_THRESHOLD: i32 = -200;

/// No evaluation lies further from zero.
pub const EVAL_LIMIT: i32 = 30000;

/// The number of members of `x` among the first `n` squares.
pub open spec fn ones(x: u64, n: nat) -> nat
    decreases n,
{
    if n == 0 {
        0
    } else {
        ones(x, (n - 1) as nat) + if bit_at(x, (n - 1) as u8) {
            1nat
        } else {
            0nat
        }
    }
}

/// The number of members of a bitboard.
pub open spec fn popcount(x: u64) -> nat {
    ones(x, 64)
}

/// Among `n` squares there are at most `n` members.
pub proof fn lemma_ones_bound(x: u64, n: nat)
    ensures
        ones(x, n) <= n,
    decreases n,
{
    if n > 0 {
        lemma_ones_bound(x, (n - 1) as nat);
    }
}

/// `u64::count_ones` of std: the number of ones in the binary representation.
pub assume_specification[ u64::count_ones ](x: u64) -> (r: u32)
    ensures
        r == popcount(x),
;

fn count(x: u64) -> (r: i32)
    ensures
        r == popcount(x),
        0 <= r <= 64,
{
    proof {
        lemma_ones_bound(x, 64);
    }
    x.count_ones() as i32
}

/// Every member moved one rank up; the eighth rank falls off.
#[verifier::when_used_as_spec(spec_north_one)]
pub fn north_one(x: u64) -> (r: u64)
    ensures
        r == spec_north_one(x),
{
    (x & !RANK_8) << 8
}

/// What `north_one` computes.
pub open spec fn spec_north_one(x: u64) -> u64 {
    (x & !RANK_8) << 8
}

/// Every member moved one rank down; the first rank falls off.
#[verifier::when_used_as_spec(spec_south_one)]
pub fn south_one(x: u64) -> (r: u64)
    ensures
        r == spec_south_one(x),
{
    (x & !RANK_1) >> 8
}

/// What `south_one` computes.
pub open spec fn spec_south_one(x: u64) -> u64 {
    (x & !RANK_1) >> 8
}

/// Every member moved one file to the left; the first file falls off.
#[verifier::when_used_as_spec(spec_west_one)]
pub fn west_one(x: u64) -> (r: u64)
    ensures
        r == spec_west_one(x),
{
    (x & !FILE_A) >> 1
}

/// What `west_one` computes.
pub open spec fn spec_west_one(x: u64) -> u64 {
    (x & !FILE_A) >> 1
}

/// Every member moved one file to the right; the last file falls off.
#[verifier::when_used_as_spec(spec_east_one)]
pub fn east_one(x: u64) -> (r: u64)
    ensures
        r == spec_east_one(x),
{
    (x & !FILE_H) << 1
}

/// What `east_one` computes.
pub open spec fn spec_east_one(x: u64) -> u64 {
    (x & !FILE_H) << 1
}

/// Every square at or to the north of a member.
#[verifier::when_used_as_spec(spec_north_fill)]
pub fn north_fill(x: u64) -> (r: u64)
    ensures
        r == spec_north_fill(x),
{
    let mut gen: u64 = x;
    gen |= gen << 8;
    gen |= gen << 16;
    gen |= gen << 32;
    gen
}

/// What `north_fill` computes.
pub open spec fn spec_north_fill(x: u64) -> u64 {
    let a = x | (x << 8);
    let b = a | (a << 16);
    b | (b << 32)
}

/// Every square at or to the south of a member.
#[verifier::when_used_as_spec(spec_south_fill)]
pub fn south_fill(x: u64) -> (r: u64)
    ensures
        r == spec_south_fill(x),
{
    let mut gen: u64 = x;
    gen |= gen >> 8;
    gen |= gen >> 16;
    gen |= gen >> 32;
    gen
}

/// What `south_fill` computes.
pub open spec fn spec_south_fill(x: u64) -> u64 {
    let a = x | (x >> 8);
    let b = a | (a >> 16);
    b | (b >> 32)
}

/// The files of the members.
#[verifier::when_used_as_spec(spec_file_fill)]
pub fn file_fill(x: u64) -> (r: u64)
    ensures
        r == spec_file_fill(x),
{
    north_fill(x) | south_fill(x)
}

/// What `file_fill` computes.
pub open spec fn spec_file_fill(x: u64) -> u64 {
    spec_north_fill(x) | spec_south_fill(x)
}

/// The files to the left of the members.
#[verifier::when_used_as_spec(spec_west_attack_file_fill)]
pub fn west_attack_file_fill(x: u64) -> (r: u64)
    ensures
        r == spec_west_attack_file_fill(x),
{
    file_fill(west_one(x))
}

/// What `west_attack_file_fill` computes.
pub open spec fn spec_west_attack_file_fill(x: u64) -> u64 {
    spec_file_fill(spec_west_one(x))
}

/// The files to the right of the members.
#[verifier::when_used_as_spec(spec_east_attack_file_fill)]
pub fn east_attack_file_fill(x: u64) -> (r: u64)
    ensures
        r == spec_east_attack_file_fill(x),
{
    file_fill(east_one(x))
}

/// What `east_attack_file_fill` computes.
pub open spec fn spec_east_attack_file_fill(x: u64) -> u64 {
    spec_file_fill(spec_east_one(x))
}

/// The members with no member on the file to their left.
#[verifier::when_used_as_spec(spec_no_neigh_on_west)]
pub fn no_neigh_on_west(x: u64) -> (r: u64)
    ensures
        r == spec_no_neigh_on_west(x),
{
    x & !west_attack_file_fill(x)
}

/// What `no_neigh_on_west` computes.
pub open spec fn spec_no_neigh_on_west(x: u64) -> u64 {
    x & !spec_west_attack_file_fill(x)
}

/// The members with no member on the file to their right.
#[verifier::when_used_as_spec(spec_no_neigh_on_east)]
pub fn no_neigh_on_east(x: u64) -> (r: u64)
    ensures
        r == spec_no_neigh_on_east(x),
{
    x & !east_attack_file_fill(x)
}

/// What `no_neigh_on_east` computes.
pub open spec fn spec_no_neigh_on_east(x: u64) -> u64 {
    x & !spec_east_attack_file_fill(x)
}

/// The members with no member on a neighbouring file.
#[verifier::when_used_as_spec(spec_isolanis)]
pub fn isolanis(x: u64) -> (r: u64)
    ensures
        r == spec_isolanis(x),
{
    no_neigh_on_west(x) & no_neigh_on_east(x)
}

/// What `isolanis` computes.
pub open spec fn spec_isolanis(x: u64) -> u64 {
    spec_no_neigh_on_west(x) & spec_no_neigh_on_east(x)
}

/// The members and their neighbours to the west and east.
#[verifier::when_used_as_spec(spec_widen)]
pub fn widen(x: u64) -> (r: u64)
    ensures
        r == spec_widen(x),
{
    x | (x & !FILE_A) >> 1 | (x & !FILE_H) << 1
}

/// What `widen` computes.
pub open spec fn spec_widen(x: u64) -> u64 {
    x | (x & !FILE_A) >> 1 | (x & !FILE_H) << 1
}

/// The three squares in front of a white king.
#[verifier::when_used_as_spec(spec_wking_shield)]
pub fn wking_shield(k: u64) -> (r: u64)
    ensures
        r == spec_wking_shield(k),
{
    north_one(widen(k))
}

/// What `wking_shield` computes.
pub open spec fn spec_wking_shield(k: u64) -> u64 {
    spec_north_one(spec_widen(k))
}

/// The three squares in front of a black king.
#[verifier::when_used_as_spec(spec_bking_shield)]
pub fn bking_shield(k: u64) -> (r: u64)
    ensures
        r == spec_bking_shield(k),
{
    south_one(widen(k))
}

/// What `bking_shield` computes.
pub open spec fn spec_bking_shield(k: u64) -> u64 {
    spec_south_one(spec_widen(k))
}

/// The square that mirrors `sq` across the middle of the board.
pub open spec fn flip(sq: int) -> int {
    (7 - sq / 8) * 8 + sq % 8
}

/// What the piece on `sq` adds to white's score by its placement, a passed pawn's bonus included.
pub open spec fn square_score(p: &Position, sq: int) -> int {
    let pc = p.board[sq];
    let tp = pc.spec_type();
    if !pc.is_piece() || tp >= QUEEN {
        0
    } else if pc.spec_color() == WHITE {
        LOCATION_TABLE[tp as int][sq] + if tp == PAWN && !bit_at(
            spec_widen(spec_south_fill(spec_south_one(p.pieces[1][0]))),
            sq as u8,
        ) {
            PASSED_PAWN_SCORE[sq / 8] as int
        } else {
            0
        }
    } else {
        -LOCATION_TABLE[tp as int][flip(sq)] - if tp == PAWN && !bit_at(
            spec_widen(spec_north_fill(spec_north_one(p.pieces[0][0]))),
            sq as u8,
        ) {
            PASSED_PAWN_SCORE[7 - sq / 8] as int
        } else {
            0
        }
    }
}

/// The placement scores of the first `n` squares.
pub open spec fn squares_score(p: &Position, n: int) -> int
    decreases n,
{
    if n <= 0 {
        0
    } else {
        squares_score(p, n - 1) + square_score(p, n - 1)
    }
}

/// No square adds or takes more than 230 points by placement.
pub proof fn lemma_squares_bound(p: &Position, n: int)
    requires
        0 <= n <= 64,
    ensures
        -230 * n <= squares_score(p, n) <= 230 * n,
    decreases n,
{
    if n > 0 {
        lemma_squares_bound(p, n - 1);
        let sq = n - 1;
        let pc = p.board[sq];
        let tp = pc.spec_type();
        if pc.is_piece() && tp < QUEEN {
            assert(-30 <= LOCATION_TABLE[tp as int][sq] <= 30);
            assert(-30 <= LOCATION_TABLE[tp as int][flip(sq)] <= 30);
            assert(0 <= PASSED_PAWN_SCORE[sq / 8] <= 200);
            assert(0 <= PASSED_PAWN_SCORE[7 - sq / 8] <= 200);
        }
    }
}

/// One if the condition holds, else zero.
pub open spec fn flag(b: bool) -> int {
    if b {
        1
    } else {
        0
    }
}

impl Position {
    /// Whether some side is short of material.
    pub open spec fn spec_is_endgame(&self) -> bool {
        self.material[0] < ENDGAME_THRESHOLD || self.material[1] < ENDGAME_THRESHOLD
    }

    /// What the pawn structure, the files of rooks and queens and the
    /// bishop pair are worth to white.
    pub open spec fn structure_score(&self) -> int {
        let wps = self.pieces[0][0];
        let bps = self.pieces[1][0];
        let wfront = spec_north_fill(spec_north_one(wps));
        let bfront = spec_south_fill(spec_south_one(bps));
        let occupied = self.occupied[0] | self.occupied[1];
        let wrks = self.pieces[0][3];
        let brks = self.pieces[1][3];
        let wqs = self.pieces[0][4];
        let bqs = self.pieces[1][4];
        DOUBLE_PAWN_PENALTY * popcount(wfront & wps) - DOUBLE_PAWN_PENALTY * popcount(bfront & bps)
            + ISOLATED_PAWN_PENALTY * popcount(spec_isolanis(wps)) - ISOLATED_PAWN_PENALTY
            * popcount(spec_isolanis(bps)) + ROOK_OPEN_FILE * popcount(
            !spec_file_fill(occupied & !wrks) & wrks,
        ) + ROOK_SEMI_OPEN_FILE * popcount(!spec_file_fill(wps) & wrks) - ROOK_OPEN_FILE * popcount(
            !spec_file_fill(occupied & !brks) & brks,
        ) - ROOK_SEMI_OPEN_FILE * popcount(!spec_file_fill(bps) & brks) + QUEEN_OPEN_FILE
            * popcount(!spec_file_fill(occupied & !wqs) & wqs) + QUEEN_SEMI_OPEN_FILE * popcount(
            !spec_file_fill(wps) & wqs,
        ) - QUEEN_OPEN_FILE * popcount(!spec_file_fill(occupied & !bqs) & bqs)
            - QUEEN_SEMI_OPEN_FILE * popcount(!spec_file_fill(bps) & bqs) + BISHOP_PAIR * flag(
            popcount(self.pieces[0][2]) >= 2,
        ) - BISHOP_PAIR * flag(popcount(self.pieces[1][2]) >= 2)
    }

    /// What the kings' placement, the castling rights and the pawns in
    /// front of the kings are worth to white.
    pub open spec fn king_score(&self) -> int {
        let mw = self.material[0] as int;
        let mb = self.material[1] as int;
        let wk = u64_trailing_zeros(self.pieces[0][5]) as int;
        let bk = u64_trailing_zeros(self.pieces[1][5]) as int;
        let wt = flag(mw - mb >= SAFE_THRESHOLD && self.spec_is_endgame());
        let bt = flag(mb - mw >= SAFE_THRESHOLD && self.spec_is_endgame());
        let max_mat = if mw > mb {
            mw
        } else {
            mb
        };
        KING_LOCATION[wt][wk] - KING_LOCATION[bt][flip(bk)] + if max_mat > ENDGAME_THRESHOLD {
            CASTLE_PERM_SCORE * flag(self.cas.spec_king(WHITE) || self.cas.spec_queen(WHITE))
                - CASTLE_PERM_SCORE * flag(self.cas.spec_king(BLACK) || self.cas.spec_queen(BLACK))
                + KING_SHIELDED * popcount(spec_wking_shield(1u64 << (wk as u8)) & self.pieces[0][0])
                - KING_SHIELDED * popcount(spec_bking_shield(1u64 << (bk as u8)) & self.pieces[1][0])
        } else {
            0
        }
    }

    /// The evaluation as white sees it.
    pub open spec fn white_score(&self) -> int {
        self.material[0] - self.material[1] + squares_score(self, 64) + self.structure_score()
            + self.king_score()
    }

    /// The evaluation as the side to move sees it, kept within `EVAL_LIMIT` of zero.
    pub open spec fn spec_eval(&self) -> int {
        let s = if self.turn == BLACK {
            -self.white_score()
        } else {
            self.white_score()
        };
        if s > EVAL_LIMIT {
            EVAL_LIMIT as int
        } else if s < -EVAL_LIMIT {
            -EVAL_LIMIT as int
        } else {
            s
        }
    }

    fn eval_squares(&self) -> (score: i32)
        requires
            self.consistent(),
        ensures
            score == squares_score(self, 64),
            -14720 <= score <= 14720,
    {
        let wblock: u64 = widen(south_fill(south_one(self.pieces[BLACKX][PAWNX])));
        let bblock: u64 = widen(north_fill(north_one(self.pieces[WHITEX][PAWNX])));
        let mut score: i32 = 0;
        let mut sq: usize = 0;
        while sq < 64
            invariant
                sq <= 64,
                self.consistent(),
                wblock == spec_widen(spec_south_fill(spec_south_one(self.pieces[1][0]))),
                bblock == spec_widen(spec_north_fill(spec_north_one(self.pieces[0][0]))),
                score == squares_score(self, sq as int),
            decreases 64 - sq,
        {
            proof {
                lemma_squares_bound(self, sq as int);
                lemma_squares_bound(self, sq + 1);
            }
            let pc = self.board[sq];
            if pc.is_some() {
                let tp: u8 = pc.get_type();
                if tp < QUEEN {
                    if pc.get_color() == WHITE {
                        score = score + LOCATION_TABLE[tp as usize][sq] as i32;
                        if tp == PAWN && !wblock.chk(sq as u8) {
                            score = score + PASSED_PAWN_SCORE[sq / 8] as i32;
                        }
                    } else {
                        score = score - LOCATION_TABLE[tp as usize][(7 - sq / 8) * 8 + sq % 8] as i32;
                        if tp == PAWN && !bblock.chk(sq as u8) {
                            score = score - PASSED_PAWN_SCORE[7 - sq / 8] as i32;
                        }
                    }
                }
            }
            sq += 1;
        }
        proof {
            lemma_squares_bound(self, 64);
        }
        score
    }

    fn eval_structure(&self) -> (score: i32)
        ensures
            score == self.structure_score(),
            -2500 <= score <= 2500,
    {
        let wps: u64 = self.pieces[WHITEX][PAWNX];
        let bps: u64 = self.pieces[BLACKX][PAWNX];
        let wfront: u64 = north_fill(north_one(wps));
        let bfront: u64 = south_fill(south_one(bps));
        let occupied: u64 = self.all_ocupied();
        let wrks: u64 = self.pieces[WHITEX][ROOKX];
        let brks: u64 = self.pieces[BLACKX][ROOKX];
        let wqs: u64 = self.pieces[WHITEX][QUEENX];
        let bqs: u64 = self.pieces[BLACKX][QUEENX];
        let mut score: i32 = 0;
        score = score + DOUBLE_PAWN_PENALTY * count(wfront & wps);
        score = score - DOUBLE_PAWN_PENALTY * count(bfront & bps);
        score = score + ISOLATED_PAWN_PENALTY * count(isolanis(wps));
        score = score - ISOLATED_PAWN_PENALTY * count(isolanis(bps));
        score = score + ROOK_OPEN_FILE * count(!file_fill(occupied & !wrks) & wrks);
        score = score + ROOK_SEMI_OPEN_FILE * count(!file_fill(wps) & wrks);
        score = score - ROOK_OPEN_FILE * count(!file_fill(occupied & !brks) & brks);
        score = score - ROOK_SEMI_OPEN_FILE * count(!file_fill(bps) & brks);
        score = score + QUEEN_OPEN_FILE * count(!file_fill(occupied & !wqs) & wqs);
        score = score + QUEEN_SEMI_OPEN_FILE * count(!file_fill(wps) & wqs);
        score = score - QUEEN_OPEN_FILE * count(!file_fill(occupied & !bqs) & bqs);
        score = score - QUEEN_SEMI_OPEN_FILE * count(!file_fill(bps) & bqs);
        if count(self.pieces[WHITEX][BISHOPX]) >= 2 {
            score = score + BISHOP_PAIR;
        }
        if count(self.pieces[BLACKX][BISHOPX]) >= 2 {
            score = score - BISHOP_PAIR;
        }
        score
    }

    fn eval_kings(&self) -> (score: i32)
        requires
            self.consistent(),
            one_king(self.board@, WHITE),
            one_king(self.board@, BLACK),
        ensures
            score == self.king_score(),
            -2200 <= score <= 2200,
    {
        let mw: i32 = self.material[WHITEX];
        let mb: i32 = self.material[BLACKX];
        proof {
            lemma_material_bound(self.board@, 0, 64);
            lemma_material_bound(self.board@, 1, 64);
            let kw = king_at(self.board@, WHITE);
            let kb = king_at(self.board@, BLACK);
            assert(bit_at(self.pieces[0][5], kw));
            assert(bit_at(self.pieces[1][5], kb));
            lemma_member_nonzero(self.pieces[0][5], kw);
            lemma_member_nonzero(self.pieces[1][5], kb);
            lemma_lowest(self.pieces[0][5]);
            lemma_lowest(self.pieces[1][5]);
        }
        let wk: usize = self.pieces[WHITEX][KINGX].trailing_zeros() as usize;
        let bk: usize = self.pieces[BLACKX][KINGX].trailing_zeros() as usize;
        let endgame: bool = self.is_endgame();
        let wt: usize = if mw - mb >= SAFE_THRESHOLD && endgame {
            1
        } else {
            0
        };
        let bt: usize = if mb - mw >= SAFE_THRESHOLD && endgame {
            1
        } else {
            0
        };
        let mut score: i32 = KING_LOCATION[wt][wk] as i32 - KING_LOCATION[bt][(7 - bk / 8) * 8 + bk
            % 8] as i32;
        let max_mat: i32 = if mw > mb {
            mw
        } else {
            mb
        };
        if max_mat > ENDGAME_THRESHOLD {
            if self.cas.any(WHITE) {
                score = score + CASTLE_PERM_SCORE;
            }
            if self.cas.any(BLACK) {
                score = score - CASTLE_PERM_SCORE;
            }
            let wkmask: u64 = 1u64 << (wk as u8);
            let bkmask: u64 = 1u64 << (bk as u8);
            score = score + KING_SHIELDED * count(wking_shield(wkmask) & self.pieces[WHITEX][PAWNX]);
            score = score - KING_SHIELDED * count(bking_shield(bkmask) & self.pieces[BLACKX][PAWNX]);
        }
        score
    }

    /// The static evaluation of the position, in centipawns, as the side
    /// to move sees it: the same number with the other sign were the other
    /// side to move, and never further than `EVAL_LIMIT` from zero.
    pub fn eval(&self) -> (score: i16)
        requires
            self.consistent(),
            one_king(self.board@, WHITE),
            one_king(self.board@, BLACK),
        ensures
            score == self.spec_eval(),
            -EVAL_LIMIT <= score <= EVAL_LIMIT,
    {
        proof {
            lemma_material_bound(self.board@, 0, 64);
            lemma_material_bound(self.board@, 1, 64);
        }
        let mut score: i32 = self.material[WHITEX] - self.material[BLACKX];
        score = score + self.eval_squares();
        score = score + self.eval_structure();
        score = score + self.eval_kings();
        if self.turn == BLACK {
            score = -score;
        }
        if score > EVAL_LIMIT {
            score = EVAL_LIMIT;
        } else if score < -EVAL_LIMIT {
            score = -EVAL_LIMIT;
        }
        score as i16
    }

    /// Whether some side has less material than two pawns, two knights and a rook.
    pub fn is_endgame(&self) -> (r: bool)
        ensures
            r == self.spec_is_endgame(),
    {
        let a: i32 = self.material[WHITEX];
        let b: i32 = self.material[BLACKX];
        (if a < b {
            a
        } else {
            b
        }) < ENDGAME_THRESHOLD
    }
}

/// Were the other side to move on the same board, the evaluation would
/// be the same number with the other sign: what one side gains the other loses.
pub proof fn lemma_eval_other_side(p: &Position, q: &Position)
    requires
        p.board == q.board,
        p.pieces == q.pieces,
        p.occupied == q.occupied,
        p.material == q.material,
        p.cas == q.cas,
        p.turn < 2,
        q.turn < 2,
        p.turn != q.turn,
    ensures
        p.spec_eval() == -q.spec_eval(),
{
    assert(squares_score(p, 64) == squares_score(q, 64)) by {
        lemma_squares_same(p, q, 64);
    }
}

/// The evaluation looks at the board, the bitboards, the material, the
/// castling rights and the side to move, and at nothing else.
pub proof fn lemma_eval_same(p: &Position, q: &Position)
    requires
        p.board == q.board,
        p.pieces == q.pieces,
        p.occupied == q.occupied,
        p.material == q.material,
        p.cas == q.cas,
        p.turn == q.turn,
    ensures
        p.spec_eval() == q.spec_eval(),
{
    lemma_squares_same(p, q, 64);
}

proof fn lemma_squares_same(p: &Position, q: &Position, n: int)
    requires
        p.board == q.board,
        p.pieces == q.pieces,
    ensures
        squares_score(p, n) == squares_score(q, n),
    decreases n,
{
    if n > 0 {
        lemma_squares_same(p, q, n - 1);
    }
}

} // verus!
