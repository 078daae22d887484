//! The position: the board in two redundant forms, the plain state, the undo
//! stack and the scratch state of the search.

use crate::atktbl::AttackTable;
use crate::bitbrd::{bit_at, lemma_bit_ext, lemma_bit_ops, BitBoard, BitHelpers};
use crate::defs::{MATERIAL_TABLE, MAX_HIST, NS, WHITE};
use crate::model::{empty_sq, playable, shift, State};
pub use crate::model::Hist;
use crate::movgen::Move;
pub use crate::piece::{CastlingPerm, Piece};
use crate::pvtable::{HashEntry, HashTable, PVLine, MAX_DEPTH, NUM_ENTRIES};
use crate::zobrist::{full_key, lemma_pieces_key_update, lemma_xor, piece_term, pieces_key, Zobrist};
use vstd::prelude::*;

verus! {

/// The material value of what stands on a square.
pub open spec fn value_of(p: Piece) -> int {
    if p.is_piece() {
        MATERIAL_TABLE[p.spec_type() as int] as int
    } else {
        0
    }
}

/// The material of colour `c` on the first `n` squares.
pub open spec fn material_of(board: Seq<Piece>, c: u8, n: int) -> int
    decreases n,
{
    if n <= 0 {
        0
    } else {
        material_of(board, c, n - 1) + if board[n - 1].is_piece() && board[n - 1].spec_color() == c {
            value_of(board[n - 1])
        } else {
            0
        }
    }
}

/// The material of a colour is bounded by a queen on every square.
pub proof fn lemma_material_bound(board: Seq<Piece>, c: u8, n: int)
    requires
        0 <= n <= 64,
        board.len() == 64,
    ensures
        0 <= material_of(board, c, n) <= 1000 * n,
    decreases n,
{
    if n > 0 {
        lemma_material_bound(board, c, n - 1);
    }
}

/// Replacing the piece on one square changes the material by the values of the two pieces.
pub proof fn lemma_material_update(board: Seq<Piece>, c: u8, sq: int, p: Piece, n: int)
    requires
        0 <= sq < 64,
        0 <= n <= 64,
        board.len() == 64,
    ensures
        material_of(board.update(sq, p), c, n) == material_of(board, c, n) + if sq < n {
            (if p.is_piece() && p.spec_color() == c {
                value_of(p)
            } else {
                0
            }) - (if board[sq].is_piece() && board[sq].spec_color() == c {
                value_of(board[sq])
            } else {
                0
            })
        } else {
            0
        },
    decreases n,
{
    if n > 0 {
        lemma_material_update(board, c, sq, p, n - 1);
    }
}

/// A position of the game, with all that the search keeps with it.
pub struct Position {
    pub board: [Piece; 64],
    pub pieces: [[BitBoard; 6]; 2],
    pub occupied: [BitBoard; 2],
    pub material: [i32; 2],
    pub hist: [Hist; MAX_HIST],
    pub hist_ply: u16,
    pub ep: u8,
    pub turn: u8,
    pub cas: CastlingPerm,
    pub fty: u16,
    pub key: u64,
    /// Plies from the root of the running search.
    pub ply: u16,
    pub search_killers: [[Move; MAX_DEPTH]; 2],
    pub search_hist: [[u16; 64]; 12],
    pub pv_table: HashTable,
    pub pv_line: PVLine,
    pub tables: AttackTable,
    pub zobrist: Zobrist,
}

impl Position {
    /// The game state that the position stands for.
    pub open spec fn state(&self) -> State {
        State {
            zobrist: self.zobrist,
            board: self.board@,
            turn: self.turn,
            cas: self.cas,
            ep: self.ep,
            fty: self.fty,
            key: self.key,
            hist: self.hist@.take(self.hist_ply as int),
        }
    }

    /// The bitboards hold the same pieces as the square array.
    pub open spec fn board_ok(&self) -> bool {
        &&& forall|i: int| 0 <= i < 64 ==> (#[trigger] self.board[i]).valid()
        &&& forall|c: u8, tp: u8, sq: u8|
            c < 2 && tp < 6 && sq < 64 ==> (#[trigger] bit_at(self.pieces[c as int][tp as int], sq)
                <==> self.board[sq as int] == Piece::of(tp, c))
        &&& forall|c: u8, sq: u8|
            c < 2 && sq < 64 ==> (#[trigger] bit_at(self.occupied[c as int], sq) <==> (self.board[sq as int].is_piece()
                && self.board[sq as int].spec_color() == c))
    }

    /// The material totals are those of the pieces on the board.
    pub open spec fn material_ok(&self) -> bool {
        forall|c: u8| c < 2 ==> #[trigger] self.material[c as int] == material_of(self.board@, c, 64)
    }

    /// The two forms of the board agree, the totals are right and the
    /// tables are in order, whatever the position is.
    pub open spec fn consistent(&self) -> bool {
        &&& self.board_ok()
        &&& self.material_ok()
        &&& self.tables.wf()
        &&& self.pv_table.wf()
        &&& self.pv_line.wf()
        &&& self.hist_ply <= MAX_HIST
    }

    /// The position is consistent and stands for a state in order that came
    /// about by pseudo-legal moves and passes only.
    pub open spec fn wf(&self) -> bool {
        self.consistent() && playable(self.state())
    }

    /// The scratch state of the search and the tables are the same in both positions.
    pub open spec fn same_scratch(&self, o: &Position) -> bool {
        &&& self.ply == o.ply
        &&& self.search_killers == o.search_killers
        &&& self.search_hist == o.search_hist
        &&& self.pv_table == o.pv_table
        &&& self.pv_line == o.pv_line
        &&& self.tables == o.tables
        &&& self.zobrist == o.zobrist
    }

    /// The scratch state is that of a position no search has touched: ply
    /// 0, an empty table, an empty principal variation, no history weight
    /// and no killer move.
    pub open spec fn fresh_scratch(&self) -> bool {
        &&& self.ply == 0
        &&& self.pv_line@.len() == 0
        &&& self.pv_table.is_empty()
        &&& forall|i: int|
            0 <= i < NUM_ENTRIES ==> #[trigger] self.pv_table.entries[i] == (0u64, HashEntry::blank())
        &&& forall|i: int, j: int| 0 <= i < 12 && 0 <= j < 64 ==> self.search_hist[i][j] == 0
        &&& forall|i: int, j: int|
            0 <= i < 2 && 0 <= j < MAX_DEPTH ==> self.search_killers[i][j] == Move::null()
    }

    /// What is left of the key once the keys of the pieces are taken out.
    pub open spec fn key_rest(&self) -> u64 {
        self.key ^ pieces_key(self.zobrist, self.board@, 64)
    }

    /// Everything but the board, the material and the key is the same in both positions.
    pub open spec fn same_rest(&self, o: &Position) -> bool {
        &&& self.hist == o.hist
        &&& self.hist_ply == o.hist_ply
        &&& self.ep == o.ep
        &&& self.turn == o.turn
        &&& self.cas == o.cas
        &&& self.fty == o.fty
        &&& self.ply == o.ply
        &&& self.search_killers == o.search_killers
        &&& self.search_hist == o.search_hist
        &&& self.pv_table == o.pv_table
        &&& self.pv_line == o.pv_line
        &&& self.tables == o.tables
        &&& self.zobrist == o.zobrist
    }

    /// All squares of both colours that hold a piece.
    pub fn all_ocupied(&self) -> (r: BitBoard)
        ensures
            r == self.occupied[0] | self.occupied[1],
    {
        self.occupied[0] | self.occupied[1]
    }

    /// The side to move, as an index.
    pub fn turnx(&self) -> (r: usize)
        ensures
            r == self.turn,
    {
        self.turn as usize
    }

    /// Puts a piece of colour `side` and type `px` on the empty square `sq`.
    pub fn add_piece(&mut self, side: usize, px: usize, sq: u8)
        requires
            old(self).consistent(),
            side < 2,
            px < 6,
            sq < 64,
            !old(self).board[sq as int].is_piece(),
        ensures
            final(self).consistent(),
            final(self).board@ == old(self).board@.update(sq as int, Piece::of(px as u8, side as u8)),
            final(self).key == old(self).key ^ piece_term(
                old(self).zobrist,
                sq as int,
                Piece::of(px as u8, side as u8),
            ),
            final(self).key_rest() == old(self).key_rest(),
            final(self).same_rest(old(self)),
    {
        let p = Piece::new(px as u8, side as u8);
        proof {
            lemma_bit_ops();
            lemma_xor();
            lemma_pieces_key_update(self.zobrist, self.board@, sq as int, p, 64);
            lemma_material_update(self.board@, 0, sq as int, p, 64);
            lemma_material_update(self.board@, 1, sq as int, p, 64);
            lemma_material_bound(self.board@, 0, 64);
            lemma_material_bound(self.board@, 1, 64);
            lemma_material_bound(self.board@.update(sq as int, p), 0, 64);
            lemma_material_bound(self.board@.update(sq as int, p), 1, 64);
        }
        self.board[sq as usize] = p;
        self.occupied[side].set(sq);
        self.pieces[side][px].set(sq);
        self.material[side] = self.material[side] + MATERIAL_TABLE[px] as i32;
        self.key ^= self.zobrist.piece(sq, p);
    }

    /// Takes the piece on `sq` off the board.
    pub fn remove_piece(&mut self, sq: u8)
        requires
            old(self).consistent(),
            sq < 64,
            old(self).board[sq as int].is_piece(),
        ensures
            final(self).consistent(),
            final(self).board@ == old(self).board@.update(sq as int, empty_sq()),
            final(self).key == old(self).key ^ piece_term(
                old(self).zobrist,
                sq as int,
                old(self).board[sq as int],
            ),
            final(self).key_rest() == old(self).key_rest(),
            final(self).same_rest(old(self)),
    {
        let p = self.board[sq as usize];
        let (side, px): (usize, usize) = (p.get_color() as usize, p.get_type() as usize);
        proof {
            lemma_bit_ops();
            lemma_xor();
            lemma_pieces_key_update(self.zobrist, self.board@, sq as int, empty_sq(), 64);
            lemma_material_update(self.board@, 0, sq as int, empty_sq(), 64);
            lemma_material_update(self.board@, 1, sq as int, empty_sq(), 64);
            lemma_material_bound(self.board@, 0, 64);
            lemma_material_bound(self.board@, 1, 64);
            lemma_material_bound(self.board@.update(sq as int, empty_sq()), 0, 64);
            lemma_material_bound(self.board@.update(sq as int, empty_sq()), 1, 64);
            assert(p == Piece::of(px as u8, side as u8));
        }
        self.pieces[side][px].clear(sq);
        self.occupied[side].clear(sq);
        self.board[sq as usize] = Piece::none();
        self.material[side] = self.material[side] - MATERIAL_TABLE[px] as i32;
        self.key ^= self.zobrist.piece(sq, p);
    }

    /// Moves the piece on `from` to the empty square `to`.
    pub fn move_piece(&mut self, from: u8, to: u8)
        requires
            old(self).consistent(),
            from < 64,
            to < 64,
            from != to,
            old(self).board[from as int].is_piece(),
            !old(self).board[to as int].is_piece(),
        ensures
            final(self).consistent(),
            final(self).board@ == shift(old(self).board@, from, to),
            final(self).key_rest() == old(self).key_rest(),
            final(self).same_rest(old(self)),
    {
        let p = self.board[from as usize];
        let (side, px): (usize, usize) = (p.get_color() as usize, p.get_type() as usize);
        proof {
            assert(p == Piece::of(px as u8, side as u8));
        }
        self.remove_piece(from);
        self.add_piece(side, px, to);
        proof {
            assert(self.board@ =~= shift(old(self).board@, from, to));
        }
    }

    /// An empty board with white to move, no castling rights and no
    /// en-passant square. Fresh random keys and attack tables come with it.
    pub fn new() -> (r: Self)
        ensures
            r.consistent(),
            forall|i: int| 0 <= i < 64 ==> r.board[i] == empty_sq(),
            r.turn == WHITE,
            r.cas.0 == 0,
            r.ep == NS,
            r.fty == 0,
            r.hist_ply == 0,
            r.ply == 0,
            r.key == full_key(r.zobrist, r.board@, r.turn, r.ep, r.cas),
            r.fresh_scratch(),
    {
        let mut r = Self {
            board: [Piece::none(); 64],
            pieces: [[0u64; 6]; 2],
            occupied: [0u64; 2],
            material: [0i32; 2],
            hist: [Hist::new(); MAX_HIST],
            hist_ply: 0,
            ep: NS,
            turn: WHITE,
            cas: CastlingPerm::new(),
            fty: 0,
            key: 0,
            ply: 0,
            search_killers: [[Move::new(); MAX_DEPTH]; 2],
            search_hist: [[0u16; 64]; 12],
            pv_table: HashTable::new(),
            pv_line: PVLine::new(),
            tables: AttackTable::new(),
            zobrist: Zobrist::new(),
        };
        proof {
            lemma_bit_ops();
            lemma_empty_material(r.board@, 0, 64);
            lemma_empty_material(r.board@, 1, 64);
        }
        r.key = r.zobrist.gen_key(&r);
        r
    }

    /// Whether the two forms of the board agree, the material totals are
    /// those of the board and the hash key is the one computed afresh.
    pub fn verify(&self) -> (r: bool)
        requires
            self.ep == NS || self.ep < 64,
            self.cas.wf(),
        ensures
            r == (self.board_ok() && self.material_ok() && self.key == full_key(
                self.zobrist,
                self.board@,
                self.turn,
                self.ep,
                self.cas,
            )),
    {
        let mut mat: [i32; 2] = [0, 0];
        let mut sq: u8 = 0;
        while sq < 64
            invariant
                sq <= 64,
                forall|i: int| 0 <= i < sq ==> (#[trigger] self.board[i]).valid(),
                forall|c: u8, tp: u8, a: u8|
                    c < 2 && tp < 6 && a < sq ==> (#[trigger] bit_at(
                        self.pieces[c as int][tp as int],
                        a,
                    ) <==> self.board[a as int] == Piece::of(tp, c)),
                forall|c: u8, a: u8|
                    c < 2 && a < sq ==> (#[trigger] bit_at(self.occupied[c as int], a) <==> (
                    self.board[a as int].is_piece() && self.board[a as int].spec_color() == c)),
                forall|c: u8| c < 2 ==> #[trigger] mat[c as int] == material_of(self.board@, c, sq as int),
            decreases 64 - sq,
        {
            let p = self.board[sq as usize];
            proof {
                lemma_material_bound(self.board@, 0, sq as int);
                lemma_material_bound(self.board@, 1, sq as int);
            }
            if p.is_some() && p.id() >= 12 {
                return false;
            }
            let mut c: u8 = 0;
            while c < 2
                invariant
                    sq < 64,
                    c <= 2,
                    p == self.board[sq as int],
                    p.valid(),
                    forall|d: u8|
                        d < c ==> (#[trigger] bit_at(self.occupied[d as int], sq) <==> (p.is_piece()
                            && p.spec_color() == d)),
                    forall|d: u8, tp: u8|
                        d < c && tp < 6 ==> (#[trigger] bit_at(self.pieces[d as int][tp as int], sq)
                            <==> p == Piece::of(tp, d)),
                decreases 2 - c,
            {
                let here: bool = p.is_some() && p.get_color() == c;
                if self.occupied[c as usize].chk(sq) != here {
                    return false;
                }
                let mut tp: u8 = 0;
                while tp < 6
                    invariant
                        sq < 64,
                        c < 2,
                        tp <= 6,
                        p == self.board[sq as int],
                        p.valid(),
                        here == (p.is_piece() && p.spec_color() == c),
                        forall|t: u8|
                            t < tp ==> (#[trigger] bit_at(self.pieces[c as int][t as int], sq) <==> p
                                == Piece::of(t, c)),
                    decreases 6 - tp,
                {
                    let same: bool = here && p.get_type() == tp;
                    if self.pieces[c as usize][tp as usize].chk(sq) != same {
                        return false;
                    }
                    tp += 1;
                }
                c += 1;
            }
            if p.is_some() {
                let side: usize = p.get_color() as usize;
                mat[side] = mat[side] + MATERIAL_TABLE[p.get_type() as usize] as i32;
            }
            sq += 1;
        }
        if mat[0] != self.material[0] || mat[1] != self.material[1] {
            proof {
                assert(mat[0] == material_of(self.board@, 0u8, 64));
                assert(mat[1] == material_of(self.board@, 1u8, 64));
            }
            return false;
        }
        proof {
            assert(mat[0] == material_of(self.board@, 0u8, 64));
            assert(mat[1] == material_of(self.board@, 1u8, 64));
            assert(self.board_ok());
            assert(self.material_ok());
        }
        self.key == self.zobrist.gen_key(self)
    }
}

/// An empty board holds no material.
pub proof fn lemma_empty_material(board: Seq<Piece>, c: u8, n: int)
    requires
        0 <= n <= board.len(),
        forall|i: int| 0 <= i < n ==> !(#[trigger] board[i]).is_piece(),
    ensures
        material_of(board, c, n) == 0,
    decreases n,
{
    if n > 0 {
        lemma_empty_material(board, c, n - 1);
    }
}

/// Two consistent positions that stand for the same state agree in every
/// bit of the board: the square array, each bitboard, the material totals
/// and the hash key, besides the plain state. So what restores the state
/// restores the position.
pub proof fn lemma_state_fixes_board(p: &Position, q: &Position)
    requires
        p.consistent(),
        q.consistent(),
        p.state() == q.state(),
    ensures
        p.board == q.board,
        p.pieces == q.pieces,
        p.occupied == q.occupied,
        p.material == q.material,
        p.key == q.key,
        p.cas == q.cas,
        p.ep == q.ep,
        p.fty == q.fty,
        p.turn == q.turn,
{
    assert(p.board@ == q.board@);
    assert(p.board =~= q.board);
    assert forall|c: int, tp: int| 0 <= c < 2 && 0 <= tp < 6 implies p.pieces[c][tp] == q.pieces[c][tp] by {
        assert forall|sq: u8| sq < 64 implies bit_at(p.pieces[c][tp], sq) == bit_at(
            q.pieces[c][tp],
            sq,
        ) by {
            assert(bit_at(p.pieces[c as u8 as int][tp as u8 as int], sq) <==> p.board[sq as int]
                == Piece::of(tp as u8, c as u8));
            assert(bit_at(q.pieces[c as u8 as int][tp as u8 as int], sq) <==> q.board[sq as int]
                == Piece::of(tp as u8, c as u8));
        }
        lemma_bit_ext(p.pieces[c][tp], q.pieces[c][tp]);
    }
    assert forall|c: int| 0 <= c < 2 implies p.pieces[c] == q.pieces[c] by {
        assert(p.pieces[c] =~= q.pieces[c]);
    }
    assert(p.pieces =~= q.pieces);
    assert forall|c: int| 0 <= c < 2 implies p.occupied[c] == q.occupied[c] by {
        assert forall|sq: u8| sq < 64 implies bit_at(p.occupied[c], sq) == bit_at(q.occupied[c], sq) by {
            assert(bit_at(p.occupied[c as u8 as int], sq) <==> (p.board[sq as int].is_piece()
                && p.board[sq as int].spec_color() == c as u8));
            assert(bit_at(q.occupied[c as u8 as int], sq) <==> (q.board[sq as int].is_piece()
                && q.board[sq as int].spec_color() == c as u8));
        }
        lemma_bit_ext(p.occupied[c], q.occupied[c]);
    }
    assert(p.occupied =~= q.occupied);
    assert forall|c: int| 0 <= c < 2 implies p.material[c] == q.material[c] by {
        assert(p.material[c as u8 as int] == material_of(p.board@, c as u8, 64));
        assert(q.material[c as u8 as int] == material_of(q.board@, c as u8, 64));
    }
    assert(p.material =~= q.material);
}

/// The hash key that a position in order keeps up move by move is the key
/// computed afresh from all that the position holds.
pub proof fn lemma_key_is_fresh(p: &Position)
    requires
        p.wf(),
    ensures
        p.key == full_key(p.zobrist, p.board@, p.turn, p.ep, p.cas),
{
}

} // verus!
