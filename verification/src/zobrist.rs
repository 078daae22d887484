//! Random keys from which the hash key of a position is made.

use crate::defs::{NS, WHITE};
use crate::piece::{CastlingPerm, Piece};
use crate::pos::Position;
use vstd::prelude::*;

verus! {

/// `rand::random::<u64>()`: a value drawn from the generator of the calling
/// thread. Nothing is claimed of the value.
#[verifier::external_body]
fn random_key() -> u64 {
    rand::random::<u64>()
}

/// One key for each piece on each square, one for each set of castling
/// rights, one for the side to move and one for each en-passant square or
/// its absence.
pub struct Zobrist {
    pub pckeys: [[u64; 64]; 13],
    pub cskeys: [u64; 16],
    pub skey: u64,
    pub no_ep: u64,
}

/// The key of piece `p` on square `sq`; nothing for an empty square.
pub open spec fn piece_term(z: Zobrist, sq: int, p: Piece) -> u64 {
    if p.is_piece() {
        z.pckeys[p.0 as int][sq]
    } else {
        0
    }
}

/// The keys of the pieces on the first `n` squares, combined.
pub open spec fn pieces_key(z: Zobrist, board: Seq<Piece>, n: int) -> u64
    decreases n,
{
    if n <= 0 {
        0
    } else {
        pieces_key(z, board, n - 1) ^ piece_term(z, n - 1, board[n - 1])
    }
}

/// The key that marks white to move; nothing for black.
pub open spec fn side_term(z: Zobrist, turn: u8) -> u64 {
    if turn == WHITE {
        z.skey
    } else {
        0
    }
}

/// The key of an en-passant square, or of there being none.
pub open spec fn ep_term(z: Zobrist, ep: u8) -> u64 {
    if ep == NS {
        z.no_ep
    } else {
        z.pckeys[12][ep as int]
    }
}

/// The hash key of a whole position, computed afresh.
pub open spec fn full_key(z: Zobrist, board: Seq<Piece>, turn: u8, ep: u8, cas: CastlingPerm) -> u64 {
    ((pieces_key(z, board, 64) ^ side_term(z, turn)) ^ ep_term(z, ep)) ^ z.cskeys[cas.0 as int]
}

/// Mixing a key in twice undoes it, and the order of mixing does not matter.
pub proof fn lemma_xor()
    by (bit_vector)
    ensures
        forall|a: u64, x: u64| #[trigger] ((a ^ x) ^ x) == a,
        forall|a: u64| #[trigger] (a ^ 0) == a,
        forall|a: u64| #[trigger] (0 ^ a) == a,
        forall|a: u64, x: u64, y: u64| #[trigger] ((a ^ x) ^ y) == (a ^ y) ^ x,
        forall|a: u64, b: u64, x: u64| #[trigger] ((a ^ x) ^ (b ^ x)) == a ^ b,
{
}

/// The key stays the one computed afresh when the keys of the old rights,
/// the new rights, the side and the two en-passant states are mixed in.
pub proof fn lemma_key_delta(
    key0: u64,
    p0: u64,
    s0: u64,
    e0: u64,
    c0: u64,
    key1: u64,
    p1: u64,
    s1: u64,
    e1: u64,
    c1: u64,
    side: u64,
)
    by (bit_vector)
    requires
        key0 == ((p0 ^ s0) ^ e0) ^ c0,
        key1 ^ p1 == key0 ^ p0,
        (s0 == side && s1 == 0) || (s0 == 0 && s1 == side),
    ensures
        key1 ^ ((((c0 ^ c1) ^ side) ^ e0) ^ e1) == ((p1 ^ s1) ^ e1) ^ c1,
{
}

/// Replacing the piece on one square changes the combined key by the keys of the two pieces.
pub proof fn lemma_pieces_key_update(z: Zobrist, board: Seq<Piece>, sq: int, p: Piece, n: int)
    requires
        0 <= sq < 64,
        0 <= n <= 64,
        board.len() == 64,
    ensures
        pieces_key(z, board.update(sq, p), n) == if sq < n {
            (pieces_key(z, board, n) ^ piece_term(z, sq, board[sq])) ^ piece_term(z, sq, p)
        } else {
            pieces_key(z, board, n)
        },
    decreases n,
{
    lemma_xor();
    if n > 0 {
        lemma_pieces_key_update(z, board, sq, p, n - 1);
    }
}

impl Zobrist {
    /// Draws all keys anew.
    pub fn new() -> (r: Self) {
        let mut inst = Zobrist {
            pckeys: [[0u64; 64]; 13],
            cskeys: [0u64; 16],
            skey: random_key(),
            no_ep: random_key(),
        };
        let mut i: usize = 0;
        while i < 13
            invariant
                i <= 13,
            decreases 13 - i,
        {
            let mut j: usize = 0;
            while j < 64
                invariant
                    i < 13,
                    j <= 64,
                decreases 64 - j,
            {
                inst.pckeys[i][j] = random_key();
                j += 1;
            }
            i += 1;
        }
        let mut k: usize = 0;
        while k < 16
            invariant
                k <= 16,
            decreases 16 - k,
        {
            inst.cskeys[k] = random_key();
            k += 1;
        }
        inst
    }

    /// The key of piece `p` on square `sq`.
    pub fn piece(&self, sq: u8, p: Piece) -> (r: u64)
        requires
            sq < 64,
            p.is_piece(),
        ensures
            r == piece_term(*self, sq as int, p),
    {
        self.pckeys[p.id() as usize][sq as usize]
    }

    /// The key that marks white to move.
    pub fn side(&self) -> (r: u64)
        ensures
            r == self.skey,
    {
        self.skey
    }

    /// The key of a set of castling rights.
    pub fn castling(&self, cs: CastlingPerm) -> (r: u64)
        requires
            cs.wf(),
        ensures
            r == self.cskeys[cs.0 as int],
    {
        self.cskeys[cs.id() as usize]
    }

    /// The key of an en-passant square, or of there being none.
    pub fn en_passant(&self, ep: u8) -> (r: u64)
        requires
            ep == NS || ep < 64,
        ensures
            r == ep_term(*self, ep),
    {
        if ep == NS {
            self.no_ep
        } else {
            self.pckeys[12][ep as usize]
        }
    }

    /// The hash key of the position `b`, computed afresh from all it holds.
    pub fn gen_key(&self, b: &Position) -> (k: u64)
        requires
            forall|i: int| 0 <= i < 64 ==> (#[trigger] b.board[i]).valid(),
            b.ep == NS || b.ep < 64,
            b.cas.wf(),
        ensures
            k == full_key(*self, b.board@, b.turn, b.ep, b.cas),
    {
        let mut k: u64 = 0;
        let mut sq: usize = 0;
        while sq < 64
            invariant
                sq <= 64,
                forall|i: int| 0 <= i < 64 ==> (#[trigger] b.board[i]).valid(),
                k == pieces_key(*self, b.board@, sq as int),
            decreases 64 - sq,
        {
            let p = b.board[sq];
            proof {
                lemma_xor();
            }
            if p.is_some() {
                k ^= self.piece(sq as u8, p);
            }
            sq += 1;
        }
        if b.turn == WHITE {
            k ^= self.skey;
        }
        proof {
            lemma_xor();
        }
        k ^= self.en_passant(b.ep);
        k ^= self.cskeys[b.cas.id() as usize];
        k
    }
}

} // verus!
