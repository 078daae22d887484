//! Shared constants: piece and colour codes, board masks and engine limits.

use vstd::prelude::*;

verus! {

/// The letters of the files.
pub const FILEC: [char; 8] = ['a', 'b', 'c', 'd', 'e', 'f', 'g', 'h'];

/// The digits of the ranks.
pub const RANKC: [char; 8] = ['1', '2', '3', '4', '5', '6', '7', '8'];

/// The piece types, each as a number and as an index.
pub const PAWN: u8 = 0;

pub const PAWNX: usize = 0;

pub const KNIGHT: u8 = 1;

pub const KNIGHTX: usize = 1;

pub const BISHOP: u8 = 2;

pub const BISHOPX: usize = 2;

pub const ROOK: u8 = 3;

pub const ROOKX: usize = 3;

pub const QUEEN: u8 = 4;

pub const QUEENX: usize = 4;

pub const KING: u8 = 5;

pub const KINGX: usize = 5;

/// The colours, each as a number and as an index.
pub const WHITE: u8 = 0;

pub const WHITEX: usize = 0;

pub const BLACK: u8 = 1;

pub const BLACKX: usize = 1;

/// The squares of the first and the last file.
pub const FILE_A: u64 = 0x0101010101010101;

pub const FILE_H: u64 = 0x8080808080808080;

/// The squares of the ranks at the edges and of those where the pawns start.
pub const RANK_1: u64 = 0x00000000000000FF;

pub const RANK_2: u64 = 0x000000000000FF00;

pub const RANK_7: u64 = 0x00FF000000000000;

pub const RANK_8: u64 = 0xFF00000000000000;

/// Capacity of the undo stack, in plies of the game.
pub const MAX_HIST: usize = 1024;

/// Number of moves a move list is preallocated for.
pub const MAX_MOVES: usize = 256;

/// The "no square" marker.
pub const NS: u8 = 255;

/// Material value of each piece type, in centipawns.
pub const MATERIAL_TABLE: [i16; 6] = [100, 325, 325, 550, 1000, 0];

/// The score of a mate at once; no score lies further from zero.
pub const INFINITY: i16 = 32767;

/// Index of a piece of type `tp` and colour `clr` among the twelve pieces.
pub open spec fn spec_piece_id(tp: u8, clr: u8) -> u8 {
    (tp * 2 + clr) as u8
}

/// A piece index is twice the type plus the colour; halving and the low bit take it apart.
pub proof fn lemma_piece_bits()
    by (bit_vector)
    ensures
        forall|tp: u8, clr: u8| tp < 6 && clr < 2 ==> #[trigger] (tp << 1 | clr) == tp * 2 + clr,
        forall|x: u8| #[trigger] (x >> 1) == x / 2,
        forall|x: u8| #[trigger] (x & 1) == x % 2,
{
}

/// The index of a piece of type `tp` and colour `clr` among the twelve pieces.
pub fn piece_id(tp: u8, clr: u8) -> (r: u8)
    requires
        tp < 6,
        clr < 2,
    ensures
        r == spec_piece_id(tp, clr),
        r < 12,
{
    proof {
        lemma_piece_bits();
    }
    tp << 1 | clr
}

} // verus!
