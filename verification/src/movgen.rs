//! Moves, move lists and the generator of pseudo-legal moves.

use crate::bitbrd::{
    bit_at, lemma_bit_logic, lemma_bit_ops, lemma_castle_masks, lemma_clear_less, lemma_rank_masks,
    lemma_shifts, BitBoard, BitHelpers,
};
use crate::defs::{KINGX, MAX_MOVES, 
    BISHOP, BLACK, FILE_A, FILE_H, KING, KNIGHT, NS, PAWN, PAWNX, QUEEN, RANK_2, RANK_7, ROOK,
    WHITE,
};
use crate::model::{
    ep_ok, attacks, clear_on, king_home, other, pseudo_legal, rook_home,
};
use crate::piece::Piece;
use crate::pos::Position;
use crate::pvtable::MAX_DEPTH;
use vstd::prelude::*;

verus! {

/// Kind bit of a castling move.
pub const KIND_CASTLE: u8 = 1;

/// Kind bit of an en-passant capture.
pub const KIND_EN_PASSANT: u8 = 2;

/// Kind bit of a pawn's double push.
pub const KIND_LONG_PUSH: u8 = 4;

/// The special kind of a move, as a small set of bits.
pub struct KindBits(pub u8);

/// Which bits the four kinds hold.
pub proof fn lemma_kind_bits()
    by (bit_vector)
    ensures
        0u8 & 1 == 0 && 0u8 & 2 == 0 && 0u8 & 4 == 0,
        1u8 & 1 != 0 && 1u8 & 2 == 0 && 1u8 & 4 == 0,
        2u8 & 1 == 0 && 2u8 & 2 != 0 && 2u8 & 4 == 0,
        4u8 & 1 == 0 && 4u8 & 2 == 0 && 4u8 & 4 != 0,
{
}

impl KindBits {
    /// Whether the move castles.
    pub fn castle(&self) -> (r: bool)
        ensures
            r == (self.0 & 1 != 0),
            self.0 == KIND_CASTLE ==> r,
            self.0 == 0 || self.0 == KIND_EN_PASSANT || self.0 == KIND_LONG_PUSH ==> !r,
    {
        proof {
            lemma_kind_bits();
        }
        self.0 & 1 != 0
    }

    /// Whether the move captures en passant.
    pub fn en_passant(&self) -> (r: bool)
        ensures
            r == (self.0 & 2 != 0),
            self.0 == KIND_EN_PASSANT ==> r,
            self.0 == 0 || self.0 == KIND_CASTLE || self.0 == KIND_LONG_PUSH ==> !r,
    {
        proof {
            lemma_kind_bits();
        }
        self.0 & 2 != 0
    }

    /// Whether the move is a pawn's double push.
    pub fn long_push(&self) -> (r: bool)
        ensures
            r == (self.0 & 4 != 0),
            self.0 == KIND_LONG_PUSH ==> r,
            self.0 == 0 || self.0 == KIND_CASTLE || self.0 == KIND_EN_PASSANT ==> !r,
    {
        proof {
            lemma_kind_bits();
        }
        self.0 & 4 != 0
    }
}

/// A move: origin, destination, special kind, the piece type promoted to (0
/// for none) and whether something is captured.
#[derive(Debug, Clone, Copy, PartialEq, Eq, Structural)]
pub struct Move {
    pub from: u8,
    pub to: u8,
    pub kind: u8,
    pub prom: u8,
    pub cap: bool,
}

impl Move {
    /// The null move, which stands for "no move".
    pub open spec fn null() -> Move {
        Move { from: 0, to: 0, kind: 0, prom: 0, cap: false }
    }

    /// The null move.
    pub fn new() -> (r: Self)
        ensures
            r == Move::null(),
    {
        Move { from: 0, to: 0, kind: 0, prom: 0, cap: false }
    }

    /// A pawn's double push.
    pub fn new_long(from: u8, to: u8) -> (r: Self)
        ensures
            r == (Move { from, to, kind: KIND_LONG_PUSH, prom: 0, cap: false }),
    {
        Move { from, to, kind: KIND_LONG_PUSH, prom: 0, cap: false }
    }

    /// An ordinary move or capture.
    pub fn new_usual(from: u8, to: u8, cap: bool) -> (r: Self)
        ensures
            r == (Move { from, to, kind: 0, prom: 0, cap }),
    {
        Move { from, to, kind: 0, prom: 0, cap }
    }

    /// A promotion to the piece type `tp`.
    pub fn new_prom(from: u8, to: u8, cap: bool, tp: u8) -> (r: Self)
        ensures
            r == (Move { from, to, kind: 0, prom: tp, cap }),
    {
        Move { from, to, kind: 0, prom: tp, cap }
    }

    /// A castling move of the king from `from` to `to`.
    pub fn new_castle(from: u8, to: u8) -> (r: Self)
        ensures
            r == (Move { from, to, kind: KIND_CASTLE, prom: 0, cap: false }),
    {
        Move { from, to, kind: KIND_CASTLE, prom: 0, cap: false }
    }

    /// An en-passant capture from `from` onto the en-passant square `to`.
    pub fn new_enpassant(from: u8, to: u8) -> (r: Self)
        ensures
            r == (Move { from, to, kind: KIND_EN_PASSANT, prom: 0, cap: true }),
    {
        Move { from, to, kind: KIND_EN_PASSANT, prom: 0, cap: true }
    }

    /// The origin.
    pub fn from(&self) -> (r: u8)
        ensures
            r == self.from,
    {
        self.from
    }

    /// The destination.
    pub fn to(&self) -> (r: u8)
        ensures
            r == self.to,
    {
        self.to
    }

    /// The special kind.
    pub fn kind(&self) -> (r: KindBits)
        ensures
            r.0 == self.kind,
    {
        KindBits(self.kind)
    }

    /// The piece type promoted to, 0 for none.
    pub fn prom(&self) -> (r: u8)
        ensures
            r == self.prom,
    {
        self.prom
    }

    /// Whether the move captures.
    pub fn cap(&self) -> (r: bool)
        ensures
            r == self.cap,
    {
        self.cap
    }

    /// Whether this is the null move.
    pub fn is_null(&self) -> (r: bool)
        ensures
            r == (*self == Move::null()),
    {
        self.from == 0 && self.to == 0 && self.kind == 0 && self.prom == 0 && !self.cap
    }

    /// The file letter of a square.
    pub open spec fn file_char(sq: u8) -> char {
        let f = sq % 8;
        if f == 0 {
            'a'
        } else if f == 1 {
            'b'
        } else if f == 2 {
            'c'
        } else if f == 3 {
            'd'
        } else if f == 4 {
            'e'
        } else if f == 5 {
            'f'
        } else if f == 6 {
            'g'
        } else {
            'h'
        }
    }

    /// The rank digit of a square.
    pub open spec fn rank_char(sq: u8) -> char {
        let r = sq / 8;
        if r == 0 {
            '1'
        } else if r == 1 {
            '2'
        } else if r == 2 {
            '3'
        } else if r == 3 {
            '4'
        } else if r == 4 {
            '5'
        } else if r == 5 {
            '6'
        } else if r == 6 {
            '7'
        } else {
            '8'
        }
    }

    /// The letter of the piece promoted to, if any.
    pub open spec fn prom_text(tp: u8) -> Seq<char> {
        if tp == KNIGHT {
            seq!['n']
        } else if tp == BISHOP {
            seq!['b']
        } else if tp == ROOK {
            seq!['r']
        } else if tp == QUEEN {
            seq!['q']
        } else {
            seq![]
        }
    }

    /// The move in coordinate notation: origin, destination, promotion letter.
    pub open spec fn text(self) -> Seq<char> {
        seq![
            Self::file_char(self.from),
            Self::rank_char(self.from),
            Self::file_char(self.to),
            Self::rank_char(self.to),
        ] + Self::prom_text(self.prom)
    }

    fn file_letter(sq: u8) -> (c: char)
        ensures
            c == Self::file_char(sq),
    {
        let f: u8 = sq % 8;
        if f == 0 {
            'a'
        } else if f == 1 {
            'b'
        } else if f == 2 {
            'c'
        } else if f == 3 {
            'd'
        } else if f == 4 {
            'e'
        } else if f == 5 {
            'f'
        } else if f == 6 {
            'g'
        } else {
            'h'
        }
    }

    fn rank_digit(sq: u8) -> (c: char)
        ensures
            c == Self::rank_char(sq),
    {
        let r: u8 = sq / 8;
        if r == 0 {
            '1'
        } else if r == 1 {
            '2'
        } else if r == 2 {
            '3'
        } else if r == 3 {
            '4'
        } else if r == 4 {
            '5'
        } else if r == 5 {
            '6'
        } else if r == 6 {
            '7'
        } else {
            '8'
        }
    }

    /// Writes the move in coordinate notation, such as `e2e4` or `a7a8q`.
    pub fn to_string(&self) -> (r: String)
        ensures
            r@ =~= self.text(),
    {
        let mut out = String::new();
        out.push(Self::file_letter(self.from));
        out.push(Self::rank_digit(self.from));
        out.push(Self::file_letter(self.to));
        out.push(Self::rank_digit(self.to));
        if self.prom == KNIGHT {
            out.push('n');
        } else if self.prom == BISHOP {
            out.push('b');
        } else if self.prom == ROOK {
            out.push('r');
        } else if self.prom == QUEEN {
            out.push('q');
        }
        out
    }
}

/// A move with the priority by which the search orders it.
#[derive(Debug, Clone, Copy)]
pub struct OrderedMove(pub Move, pub u16);

/// The least priority of a capture.
pub const CAPTURE_BASE: u16 = 10000;

/// The least priority of a promotion without capture.
pub const PROM_BASE: u16 = 8000;

/// The priority of the latest killer move of the ply.
pub const KILLER_BASE_CUR: u16 = 5000;

/// The priority of the killer move before it.
pub const KILLER_BASE_PREV: u16 = 4500;

/// The highest priority that the history weight gives a quiet move: one below the killers.
pub const HISTORY_MAX: u16 = 4499;

/// The priority of a capture: the more valuable the victim and the less
/// valuable the attacker, the higher.
pub open spec fn capture_score(victim: u8, attacker: u8) -> int {
    (victim + 1) * 100 + 6 - (attacker + 1) + CAPTURE_BASE
}

/// The priority of a quiet move: that of a killer move of the current ply,
/// else the weight that the history table holds for the piece and its destination.
pub open spec fn quiet_score(p: &Position, m: Move) -> int {
    if p.search_killers[0][p.ply as int] == m {
        KILLER_BASE_CUR as int
    } else if p.search_killers[1][p.ply as int] == m {
        KILLER_BASE_PREV as int
    } else {
        let weight = p.search_hist[p.board[m.from as int].0 as int][m.to as int];
        if weight > HISTORY_MAX {
            HISTORY_MAX as int
        } else {
            weight as int
        }
    }
}

/// The kinds of moves are ranked: every capture above every promotion,
/// every promotion above the killers, the latest killer above the one
/// before, and both above every other quiet move.
pub proof fn lemma_priorities(p: &Position, m: Move, victim: u8, attacker: u8, prom: u8)
    requires
        victim < 6,
        attacker < 6,
        prom < 6,
    ensures
        capture_score(victim, attacker) <= 0xFFFF,
        capture_score(victim, attacker) > PROM_BASE + prom,
        PROM_BASE + prom > KILLER_BASE_CUR,
        KILLER_BASE_CUR > KILLER_BASE_PREV,
        0 <= quiet_score(p, m) <= KILLER_BASE_CUR,
        p.search_killers[0][p.ply as int] != m && p.search_killers[1][p.ply as int] != m
            ==> quiet_score(p, m) < KILLER_BASE_PREV,
        p.search_killers[0][p.ply as int] != m ==> quiet_score(p, m) <= KILLER_BASE_PREV,
{
}


/// The priority with which the generator lists the move `m`.
pub open spec fn spec_score(p: &Position, m: Move) -> int {
    if m.cap && m.kind != KIND_EN_PASSANT {
        capture_score(p.board[m.to as int].spec_type(), p.board[m.from as int].spec_type())
    } else if m.prom != 0 {
        PROM_BASE + m.prom
    } else {
        quiet_score(p, m)
    }
}

/// Some entry of the list holds the move `m`.
pub open spec fn holds(list: Seq<OrderedMove>, m: Move) -> bool {
    exists|i: int| 0 <= i < list.len() && (#[trigger] list[i]).0 == m
}

/// What a list holds, a longer list holds too.
pub proof fn lemma_holds_extends(new: Seq<OrderedMove>, old: Seq<OrderedMove>, m: Move)
    requires
        extends(new, old),
        holds(old, m),
    ensures
        holds(new, m),
{
    let i = choose|i: int| 0 <= i < old.len() && (#[trigger] old[i]).0 == m;
    assert(new[i].0 == m);
}

/// The pseudo-legal moves of a position, each with its priority.
pub struct MoveList {
    pub moves: Vec<OrderedMove>,
}

/// Where a pass over a move list stands: the moves before `k` were handed out.
pub struct PickyIter {
    pub k: usize,
}

impl PickyIter {
    /// Hands out the move of the highest priority among those not yet
    /// handed out, after bringing it to the front of them.
    pub fn next(&mut self, list: &mut MoveList) -> (r: Option<OrderedMove>)
        ensures
            final(list)@.len() == old(list)@.len(),
            final(list)@.to_multiset() == old(list)@.to_multiset(),
            old(self).k >= old(list)@.len() ==> r.is_none() && final(self).k == old(self).k && final(list)@ == old(list)@,
            old(self).k < old(list)@.len() ==> final(self).k == old(self).k + 1 && r == Some(
                final(list)@[old(self).k as int],
            ) && (forall|i: int|
                old(self).k <= i < final(list)@.len() ==> final(list)@[i].1 <= r.unwrap().1)
                && final(list)@.take(old(self).k as int) == old(list)@.take(old(self).k as int),
            old(self).k < old(list)@.len() ==> exists|b: int|
                old(self).k <= b < old(list)@.len() && final(list)@ == #[trigger] old(list)@.update(
                    old(self).k as int,
                    old(list)@[b],
                ).update(b, old(list)@[old(self).k as int]) && forall|j: int|
                    old(self).k <= j < b ==> old(list)@[j].1 < old(list)@[b].1,
    {
        let n: usize = list.moves.len();
        if self.k >= n {
            return None;
        }
        let mut best_score: u16 = 0;
        let mut best_idx: usize = self.k;
        let mut i: usize = self.k;
        while i < n
            invariant
                self.k <= i <= n,
                n == list.moves.len(),
                self.k <= best_idx < n,
                list@ == old(list)@,
                best_score <= list@[best_idx as int].1,
                best_idx < i || best_idx == self.k,
                forall|j: int| self.k <= j < i ==> list@[j].1 <= best_score,
                forall|j: int| self.k <= j < best_idx ==> list@[j].1 < list@[best_idx as int].1,
            decreases n - i,
        {
            if list.moves[i].1 > best_score {
                best_score = list.moves[i].1;
                best_idx = i;
            }
            i += 1;
        }
        let k: usize = self.k;
        let a = list.moves[k];
        let b = list.moves[best_idx];
        list.moves.set(k, b);
        list.moves.set(best_idx, a);
        self.k += 1;
        proof {
            let before = old(list)@;
            let after = list@;
            assert(after =~= before.update(k as int, b).update(best_idx as int, a));
            lemma_swap_multiset(before, k as int, best_idx as int);
            assert(after.take(k as int) =~= before.take(k as int));
        }
        Some(b)
    }
}

/// Exchanging two entries of a sequence leaves its multiset as it was.
pub proof fn lemma_swap_multiset<T>(s: Seq<T>, i: int, j: int)
    requires
        0 <= i < s.len(),
        0 <= j < s.len(),
    ensures
        s.update(i, s[j]).update(j, s[i]).to_multiset() == s.to_multiset(),
{
    broadcast use vstd::multiset::group_multiset_axioms;

    let t = s.update(i, s[j]);
    vstd::seq_lib::to_multiset_update(s, i, s[j]);
    vstd::seq_lib::to_multiset_update(t, j, s[i]);
    s.to_multiset_ensures();
    assert(s.contains(s[i]) && s.contains(s[j]));
    assert(t[j] == s[j]);
    assert(s.update(i, s[j]).update(j, s[i]).to_multiset() =~= s.to_multiset());
}

impl MoveList {
    /// The listed moves, in order.
    pub open spec fn view(&self) -> Seq<OrderedMove> {
        self.moves@
    }

    /// An empty list with room for `MAX_MOVES` moves.
    pub fn new() -> (r: Self)
        ensures
            r@.len() == 0,
    {
        Self { moves: Vec::with_capacity(MAX_MOVES) }
    }

    /// Starts a pass that hands the moves out by falling priority.
    pub fn iter_picky(&mut self) -> (r: PickyIter)
        ensures
            r.k == 0,
            final(self)@ == old(self)@,
    {
        PickyIter { k: 0 }
    }

    /// The listed moves.
    pub fn iter(&self) -> (r: &Vec<OrderedMove>)
        ensures
            r@ == self@,
    {
        &self.moves
    }

    /// The listed moves, for their priorities to be changed.
    pub fn iter_mut(&mut self) -> (r: &mut Vec<OrderedMove>)
        ensures
            *r == old(self).moves,
            final(self).moves == *final(r),
    {
        &mut self.moves
    }

    /// Lists `m` with the priority of a capture by a piece of type `ATK`
    /// if `CAP` holds, else with that of a quiet move.
    pub fn push<const CAP: bool, const ATK: u8>(&mut self, m: Move, p: &Position)
        requires
            m.from < 64,
            m.to < 64,
            CAP ==> p.board[m.to as int].is_piece() && ATK < 6,
            !CAP ==> p.ply < MAX_DEPTH && p.board[m.from as int].is_piece(),
        ensures
            final(self)@ == old(self)@.push(
                OrderedMove(
                    m,
                    if CAP {
                        capture_score(p.board[m.to as int].spec_type(), ATK) as u16
                    } else {
                        quiet_score(p, m) as u16
                    },
                ),
            ),
    {
        let score: u16 = if CAP {
            let vic: u16 = p.board[m.to() as usize].get_type() as u16;
            (vic + 1) * 100 + 6 - (ATK as u16 + 1) + CAPTURE_BASE
        } else {
            if p.search_killers[0][p.ply as usize] == m {
                KILLER_BASE_CUR
            } else if p.search_killers[1][p.ply as usize] == m {
                KILLER_BASE_PREV
            } else {
                let weight: u16 = p.search_hist[p.board[m.from() as usize].id() as usize][m.to() as usize];
                if weight > HISTORY_MAX {
                    HISTORY_MAX
                } else {
                    weight
                }
            }
        };
        self.moves.push(OrderedMove(m, score));
    }

    /// Lists the promotion `m` to a piece of type `PT`: as a capture by a
    /// pawn if `CAP` holds, else with the priority of the piece promoted to.
    pub fn push_prom<const CAP: bool, const PT: u8>(&mut self, m: Move, p: &Position)
        requires
            m.from < 64,
            m.to < 64,
            PT < 6,
            CAP ==> p.board[m.to as int].is_piece(),
        ensures
            final(self)@ == old(self)@.push(
                OrderedMove(
                    m,
                    if CAP {
                        capture_score(p.board[m.to as int].spec_type(), PAWN) as u16
                    } else {
                        (PROM_BASE + PT) as u16
                    },
                ),
            ),
    {
        if CAP {
            self.push::<true, 0>(m, p);
        } else {
            self.moves.push(OrderedMove(m, PROM_BASE + PT as u16));
        }
    }

    /// Empties the list.
    pub fn clear(&mut self)
        ensures
            final(self)@.len() == 0,
    {
        self.moves.clear();
    }

    /// The number of moves listed.
    pub fn len(&self) -> (r: usize)
        ensures
            r == self@.len(),
    {
        self.moves.len()
    }

    /// The entry at index `idx`.
    pub fn get(&self, idx: usize) -> (r: &OrderedMove)
        requires
            idx < self@.len(),
        ensures
            *r == self@[idx as int],
    {
        &self.moves[idx]
    }

    /// The entry at index `idx`, for its priority to be changed.
    pub fn get_mut(&mut self, idx: usize) -> (r: &mut OrderedMove)
        requires
            idx < old(self)@.len(),
        ensures
            *r == old(self)@[idx as int],
            final(self)@ == old(self)@.update(idx as int, *final(r)),
    {
        &mut self.moves[idx]
    }
}

/// The list `new` is the list `old` with more entries at its end.
pub open spec fn extends(new: Seq<OrderedMove>, old: Seq<OrderedMove>) -> bool {
    old.len() <= new.len() && forall|i: int| 0 <= i < old.len() ==> new[i] == old[i]
}

/// Every entry from index `from` on is a pseudo-legal move of the position, with its priority.
pub open spec fn listed_ok(list: Seq<OrderedMove>, p: &Position, from: int) -> bool {
    forall|i: int|
        from <= i < list.len() ==> pseudo_legal(p.state(), (#[trigger] list[i]).0) && list[i].1
            == spec_score(p, list[i].0)
}

/// No two entries from index `a` up to index `b` hold the same move.
pub open spec fn distinct_in(list: Seq<OrderedMove>, a: int, b: int) -> bool {
    forall|i: int, j: int| a <= i < j < b ==> (#[trigger] list[i]).0 != (#[trigger] list[j]).0
}

/// Every entry from index `a` up to index `b` holds a move of the kind `tag`.
pub open spec fn tagged(list: Seq<OrderedMove>, a: int, b: int, tag: spec_fn(Move) -> bool) -> bool {
    forall|i: int| a <= i < b ==> tag((#[trigger] list[i]).0)
}

/// Two runs of distinct moves of kinds that exclude each other make one run of distinct moves.
pub proof fn lemma_distinct_join(
    list: Seq<OrderedMove>,
    a: int,
    mid: int,
    b: int,
    pa: spec_fn(Move) -> bool,
    pb: spec_fn(Move) -> bool,
)
    requires
        0 <= a <= mid <= b <= list.len(),
        distinct_in(list, a, mid),
        distinct_in(list, mid, b),
        tagged(list, a, mid, pa),
        tagged(list, mid, b, pb),
        forall|m: Move| !(#[trigger] pa(m) && pb(m)),
    ensures
        distinct_in(list, a, b),
{
    assert forall|i: int, j: int| a <= i < j < b implies (#[trigger] list[i]).0 != (#[trigger] list[j]).0 by {
        if i < mid && j >= mid {
            assert(pa(list[i].0));
            assert(pb(list[j].0));
        }
    }
}

/// What holds of a run of a list holds of the same run of a longer list.
pub proof fn lemma_run_extends(
    new: Seq<OrderedMove>,
    old: Seq<OrderedMove>,
    a: int,
    b: int,
    tag: spec_fn(Move) -> bool,
)
    requires
        extends(new, old),
        0 <= a <= b <= old.len(),
    ensures
        distinct_in(old, a, b) ==> distinct_in(new, a, b),
        tagged(old, a, b, tag) ==> tagged(new, a, b, tag),
{
    if distinct_in(old, a, b) {
        assert forall|i: int, j: int| a <= i < j < b implies (#[trigger] new[i]).0 != (#[trigger] new[j]).0 by {
            assert(old[i].0 != old[j].0);
        }
    }
    if tagged(old, a, b, tag) {
        assert forall|i: int| a <= i < b implies tag((#[trigger] new[i]).0) by {
            assert(tag(old[i].0));
        }
    }
}

/// Every entry from index `from` on is a capture or a promotion.
pub open spec fn listed_loud(list: Seq<OrderedMove>, from: int) -> bool {
    forall|i: int| from <= i < list.len() ==> (#[trigger] list[i]).0.cap || list[i].0.prom != 0
}

impl Position {
    /// The move `m` is no castling and starts on a square with a piece of
    /// one of the first `k` types in the order in which the generator
    /// takes them: knight, bishop, rook, queen, king, pawn.
    pub open spec fn gen_done(&self, k: int, m: Move) -> bool {
        let tp = self.board[m.from as int].spec_type();
        m.from < 64 && m.kind != KIND_CASTLE && (if tp == PAWN {
            5int
        } else {
            tp - 1
        }) < k
    }

    /// The move `m` is an ordinary move of a piece of type `tp`.
    pub open spec fn moves_kind(&self, m: Move, tp: u8) -> bool {
        m.from < 64 && m.kind == 0 && self.board[m.from as int].spec_type() == tp
    }

    /// The pieces of colour `them` that can be taken are all but the king.
    pub proof fn lemma_takeable(&self, them: u8)
        requires
            self.board_ok(),
            them < 2,
        ensures
            forall|t: u8|
                t < 64 ==> (#[trigger] bit_at(
                    self.occupied[them as int] & !self.pieces[them as int][5],
                    t,
                ) <==> (self.board[t as int].is_piece() && self.board[t as int].spec_color() == them
                    && self.board[t as int].spec_type() != KING)),
    {
        lemma_bit_logic();
        let occ = self.occupied[them as int];
        let kings = self.pieces[them as int][5];
        assert forall|t: u8| t < 64 implies (#[trigger] bit_at(occ & !kings, t) <==> (self.board[t as int].is_piece()
            && self.board[t as int].spec_color() == them && self.board[t as int].spec_type() != KING)) by {
            assert(bit_at(occ & !kings, t) <==> bit_at(occ, t) && !bit_at(kings, t));
            assert(bit_at(self.pieces[them as int][5], t) <==> self.board[t as int] == Piece::of(
                5,
                them,
            ));
            assert(bit_at(self.occupied[them as int], t) <==> (self.board[t as int].is_piece()
                && self.board[t as int].spec_color() == them));
        }
    }

    /// Lists the moves of the piece on `from` to each square of `set`:
    /// captures if `CAP` holds, else quiet moves.
    fn emit_targets<const CAP: bool, const ATK: u8>(&self, moves: &mut MoveList, from: u8, set: BitBoard)
        requires
            self.wf(),
            self.ply < MAX_DEPTH,
            from < 64,
            self.board[from as int].is_piece(),
            self.board[from as int].spec_type() == ATK,
            forall|t: u8|
                t < 64 && #[trigger] bit_at(set, t) ==> pseudo_legal(
                    self.state(),
                    Move { from, to: t, kind: 0, prom: 0, cap: CAP },
                ),
        ensures
            extends(final(moves)@, old(moves)@),
            listed_ok(final(moves)@, self, old(moves)@.len() as int),
            CAP ==> listed_loud(final(moves)@, old(moves)@.len() as int),
            forall|t: u8|
                t < 64 && #[trigger] bit_at(set, t) ==> holds(
                    final(moves)@,
                    Move { from, to: t, kind: 0, prom: 0, cap: CAP },
                ),
            distinct_in(final(moves)@, old(moves)@.len() as int, final(moves)@.len() as int),
            tagged(
                final(moves)@,
                old(moves)@.len() as int,
                final(moves)@.len() as int,
                |m: Move| m.from == from && m.kind == 0 && m.cap == CAP,
            ),
    {
        let mut it = set.bits();
        let ghost start = moves@.len() as int;
        while it.0 != 0
            invariant
                self.wf(),
                self.ply < MAX_DEPTH,
                from < 64,
                self.board[from as int].is_piece(),
                self.board[from as int].spec_type() == ATK,
                start == old(moves)@.len(),
                forall|t: u8|
                    t < 64 && #[trigger] bit_at(set, t) ==> pseudo_legal(
                        self.state(),
                        Move { from, to: t, kind: 0, prom: 0, cap: CAP },
                    ),
                forall|t: u8| t < 64 && #[trigger] bit_at(it.0, t) ==> bit_at(set, t),
                extends(moves@, old(moves)@),
                listed_ok(moves@, self, start),
                CAP ==> listed_loud(moves@, start),
                forall|t: u8|
                    t < 64 && #[trigger] bit_at(set, t) && !bit_at(it.0, t) ==> holds(
                        moves@,
                        Move { from, to: t, kind: 0, prom: 0, cap: CAP },
                    ),
                distinct_in(moves@, start, moves@.len() as int),
                forall|i: int|
                    start <= i < moves@.len() ==> (#[trigger] moves@[i]).0.from == from && moves@[i].0.kind
                        == 0 && moves@[i].0.cap == CAP && moves@[i].0.to < 64 && !bit_at(
                        it.0,
                        moves@[i].0.to,
                    ),
            decreases it.0,
        {
            let ghost rem = it.0;
            let ghost before = moves@;
            let to: u8 = it.next().unwrap();
            proof {
                lemma_bit_ops();
                lemma_clear_less(rem, to);
                assert(bit_at(set, to));
            }
            let m = Move::new_usual(from, to, CAP);
            moves.push::<CAP, ATK>(m, self);
            proof {
                assert(moves@[before.len() as int].0 == m);
                assert forall|i: int, j: int| start <= i < j < moves@.len() implies (
                #[trigger] moves@[i]).0 != (#[trigger] moves@[j]).0 by {
                    assert(moves@[i] == before[i]);
                    if j < before.len() {
                        assert(moves@[j] == before[j]);
                    } else {
                        assert(!bit_at(rem, before[i].0.to));
                    }
                }
                assert forall|i: int| start <= i < moves@.len() implies (#[trigger] moves@[i]).0.from
                    == from && moves@[i].0.kind == 0 && moves@[i].0.cap == CAP && moves@[i].0.to < 64
                    && !bit_at(it.0, moves@[i].0.to) by {
                    if i < before.len() {
                        assert(moves@[i] == before[i]);
                    }
                }
                assert forall|t: u8|
                    t < 64 && #[trigger] bit_at(set, t) && !bit_at(it.0, t) implies holds(
                    moves@,
                    Move { from, to: t, kind: 0, prom: 0, cap: CAP },
                ) by {
                    let mv = Move { from, to: t, kind: 0, prom: 0, cap: CAP };
                    if t != to {
                        assert(holds(before, mv));
                        lemma_holds_extends(moves@, before, mv);
                    }
                }
            }
        }
        proof {
            lemma_bit_ops();
        }
    }

    /// Lists the moves of every piece of type `TP` of the side to move.
    #[verifier::rlimit(50)]
    fn gen_piece_moves<const TP: u8, const CAPS: bool>(&self, moves: &mut MoveList)
        requires
            self.wf(),
            self.ply < MAX_DEPTH,
            1 <= TP < 6,
        ensures
            extends(final(moves)@, old(moves)@),
            listed_ok(final(moves)@, self, old(moves)@.len() as int),
            CAPS ==> listed_loud(final(moves)@, old(moves)@.len() as int),
            forall|m: Move|
                pseudo_legal(self.state(), m) && m.kind == 0 && self.board[m.from as int].spec_type() == TP && (CAPS ==> m.cap)
                    ==> #[trigger] holds(final(moves)@, m),
            distinct_in(final(moves)@, old(moves)@.len() as int, final(moves)@.len() as int),
            tagged(
                final(moves)@,
                old(moves)@.len() as int,
                final(moves)@.len() as int,
                |m: Move| self.moves_kind(m, TP),
            ),
    {
        let us: usize = self.turnx();
        let them: usize = 1 - us;
        let blockers: u64 = self.all_ocupied();
        let free: u64 = !blockers;
        let enemies: u64 = self.occupied[them] & !self.pieces[them][KINGX];
        let all: u64 = self.pieces[us][TP as usize];
        let mut it = all.bits();
        let ghost start = moves@.len() as int;
        while it.0 != 0
            invariant
                self.wf(),
                self.ply < MAX_DEPTH,
                1 <= TP < 6,
                us == self.turn,
                them == other(self.turn),
                blockers == self.occupied[0] | self.occupied[1],
                free == !blockers,
                enemies == self.occupied[them as int] & !self.pieces[them as int][5],
                all == self.pieces[us as int][TP as int],
                start == old(moves)@.len(),
                forall|a: u8| a < 64 && #[trigger] bit_at(it.0, a) ==> bit_at(all, a),
                extends(moves@, old(moves)@),
                listed_ok(moves@, self, start),
                CAPS ==> listed_loud(moves@, start),
                forall|m: Move|
                    pseudo_legal(self.state(), m) && m.kind == 0 && self.board[m.from as int].spec_type() == TP
                        && (CAPS ==> m.cap) && !bit_at(it.0, m.from) ==> #[trigger] holds(moves@, m),
                distinct_in(moves@, start, moves@.len() as int),
                forall|i: int|
                    start <= i < moves@.len() ==> self.moves_kind((#[trigger] moves@[i]).0, TP) && !bit_at(
                        it.0,
                        moves@[i].0.from,
                    ),
            decreases it.0,
        {
            let ghost rem = it.0;
            let from: u8 = it.next().unwrap();
            proof {
                lemma_bit_ops();
                lemma_bit_logic();
                lemma_clear_less(rem, from);
                assert(bit_at(all, from));
                assert(self.board[from as int] == Piece::of(TP, self.turn));
                self.lemma_occupancy();
                self.lemma_takeable(them as u8);
            }
            let bb: u64 = self.attack_set(from);
            proof {
                assert forall|t: u8| t < 64 && #[trigger] bit_at(bb & enemies, t) implies pseudo_legal(
                    self.state(),
                    Move { from, to: t, kind: 0, prom: 0, cap: true },
                ) by {
                    assert(bit_at(bb, t) && bit_at(enemies, t));
                }
                assert forall|t: u8| t < 64 && #[trigger] bit_at(bb & free, t) implies pseudo_legal(
                    self.state(),
                    Move { from, to: t, kind: 0, prom: 0, cap: false },
                ) by {
                    assert(bit_at(bb, t) && bit_at(free, t));
                    assert(!bit_at(blockers, t));
                }
            }
            let ghost mid0 = moves@;
            self.emit_targets::<true, TP>(moves, from, bb & enemies);
            let ghost mid1 = moves@;
            if !CAPS {
                self.emit_targets::<false, TP>(moves, from, bb & free);
            }
            proof {
                let fin = moves@;
                assert forall|m: Move|
                    pseudo_legal(self.state(), m) && m.kind == 0 && self.board[m.from as int].spec_type() == TP
                        && (CAPS ==> m.cap) && !bit_at(it.0, m.from) implies #[trigger] holds(fin, m) by {
                    if m.from == from {
                        assert(m.prom == 0);
                        assert(attacks(self.board@, from, m.to));
                        assert(bit_at(bb, m.to));
                        if m.cap {
                            assert(bit_at(enemies, m.to));
                            assert(bit_at(bb & enemies, m.to));
                            let mv = Move { from, to: m.to, kind: 0, prom: 0, cap: true };
                            assert(mv == m);
                            assert(holds(mid1, mv));
                            lemma_holds_extends(fin, mid1, m);
                        } else {
                            assert(!bit_at(blockers, m.to));
                            assert(bit_at(bb & free, m.to));
                            let mv = Move { from, to: m.to, kind: 0, prom: 0, cap: false };
                            assert(mv == m);
                        }
                    } else {
                        assert(!bit_at(rem, m.from));
                        assert(holds(mid0, m));
                        lemma_holds_extends(mid1, mid0, m);
                        lemma_holds_extends(fin, mid1, m);
                    }
                }
                assert(extends(fin, old(moves)@));
                let a = mid0.len() as int;
                let b = mid1.len() as int;
                let c = fin.len() as int;
                let here_cap = |m: Move| m.from == from && m.kind == 0 && m.cap == true;
                let here_quiet = |m: Move| m.from == from && m.kind == 0 && m.cap == false;
                let here = |m: Move| m.from == from && m.kind == 0;
                let elsewhere = |m: Move| m.from != from;
                lemma_run_extends(fin, mid1, a, b, here_cap);
                if CAPS {
                    assert(c == b);
                    assert(distinct_in(fin, b, c));
                    assert(tagged(fin, b, c, here_quiet));
                } else {
                    assert(tagged(fin, b, c, here_quiet));
                }
                lemma_distinct_join(fin, a, b, c, here_cap, here_quiet);
                assert(tagged(fin, a, c, here)) by {
                    assert forall|i: int| a <= i < c implies here((#[trigger] fin[i]).0) by {
                        if i < b {
                            assert(here_cap(fin[i].0));
                        } else {
                            assert(here_quiet(fin[i].0));
                        }
                    }
                }
                assert(tagged(fin, start, a, elsewhere)) by {
                    assert forall|i: int| start <= i < a implies elsewhere((#[trigger] fin[i]).0) by {
                        assert(fin[i] == mid0[i]);
                        assert(!bit_at(rem, mid0[i].0.from));
                    }
                }
                assert(distinct_in(fin, start, a)) by {
                    lemma_run_extends(mid1, mid0, start, a, elsewhere);
                    lemma_run_extends(fin, mid1, start, a, elsewhere);
                }
                lemma_distinct_join(fin, start, a, c, elsewhere, here);
                assert forall|i: int| start <= i < c implies self.moves_kind((#[trigger] fin[i]).0, TP)
                    && !bit_at(it.0, fin[i].0.from) by {
                    if i < a {
                        assert(fin[i] == mid0[i]);
                    } else {
                        assert(here(fin[i].0));
                    }
                }
            }
        }
        proof {
            lemma_bit_ops();
        }
    }

    /// Lists the moves of the knights of the side to move.
    pub fn gen_knight_moves<const CAPS: bool>(&self, moves: &mut MoveList)
        requires
            self.wf(),
            self.ply < MAX_DEPTH,
        ensures
            extends(final(moves)@, old(moves)@),
            listed_ok(final(moves)@, self, old(moves)@.len() as int),
            CAPS ==> listed_loud(final(moves)@, old(moves)@.len() as int),
            forall|m: Move|
                pseudo_legal(self.state(), m) && m.kind == 0 && self.board[m.from as int].spec_type() == KNIGHT
                    && (CAPS ==> m.cap) ==> #[trigger] holds(final(moves)@, m),
            distinct_in(final(moves)@, old(moves)@.len() as int, final(moves)@.len() as int),
            tagged(
                final(moves)@,
                old(moves)@.len() as int,
                final(moves)@.len() as int,
                |m: Move| self.moves_kind(m, KNIGHT),
            ),
    {
        self.gen_piece_moves::<1, CAPS>(moves);
    }

    /// Lists the moves of the bishops of the side to move.
    pub fn gen_bishop_moves<const CAPS: bool>(&self, moves: &mut MoveList)
        requires
            self.wf(),
            self.ply < MAX_DEPTH,
        ensures
            extends(final(moves)@, old(moves)@),
            listed_ok(final(moves)@, self, old(moves)@.len() as int),
            CAPS ==> listed_loud(final(moves)@, old(moves)@.len() as int),
            forall|m: Move|
                pseudo_legal(self.state(), m) && m.kind == 0 && self.board[m.from as int].spec_type() == BISHOP
                    && (CAPS ==> m.cap) ==> #[trigger] holds(final(moves)@, m),
            distinct_in(final(moves)@, old(moves)@.len() as int, final(moves)@.len() as int),
            tagged(
                final(moves)@,
                old(moves)@.len() as int,
                final(moves)@.len() as int,
                |m: Move| self.moves_kind(m, BISHOP),
            ),
    {
        self.gen_piece_moves::<2, CAPS>(moves);
    }

    /// Lists the moves of the rooks of the side to move.
    pub fn gen_rook_moves<const CAPS: bool>(&self, moves: &mut MoveList)
        requires
            self.wf(),
            self.ply < MAX_DEPTH,
        ensures
            extends(final(moves)@, old(moves)@),
            listed_ok(final(moves)@, self, old(moves)@.len() as int),
            CAPS ==> listed_loud(final(moves)@, old(moves)@.len() as int),
            forall|m: Move|
                pseudo_legal(self.state(), m) && m.kind == 0 && self.board[m.from as int].spec_type() == ROOK
                    && (CAPS ==> m.cap) ==> #[trigger] holds(final(moves)@, m),
            distinct_in(final(moves)@, old(moves)@.len() as int, final(moves)@.len() as int),
            tagged(
                final(moves)@,
                old(moves)@.len() as int,
                final(moves)@.len() as int,
                |m: Move| self.moves_kind(m, ROOK),
            ),
    {
        self.gen_piece_moves::<3, CAPS>(moves);
    }

    /// Lists the moves of the queens of the side to move.
    pub fn gen_queen_moves<const CAPS: bool>(&self, moves: &mut MoveList)
        requires
            self.wf(),
            self.ply < MAX_DEPTH,
        ensures
            extends(final(moves)@, old(moves)@),
            listed_ok(final(moves)@, self, old(moves)@.len() as int),
            CAPS ==> listed_loud(final(moves)@, old(moves)@.len() as int),
            forall|m: Move|
                pseudo_legal(self.state(), m) && m.kind == 0 && self.board[m.from as int].spec_type() == QUEEN
                    && (CAPS ==> m.cap) ==> #[trigger] holds(final(moves)@, m),
            distinct_in(final(moves)@, old(moves)@.len() as int, final(moves)@.len() as int),
            tagged(
                final(moves)@,
                old(moves)@.len() as int,
                final(moves)@.len() as int,
                |m: Move| self.moves_kind(m, QUEEN),
            ),
    {
        self.gen_piece_moves::<4, CAPS>(moves);
    }

    /// Lists the moves of the king of the side to move, castling aside.
    pub fn gen_king_moves<const CAPS: bool>(&self, moves: &mut MoveList)
        requires
            self.wf(),
            self.ply < MAX_DEPTH,
        ensures
            extends(final(moves)@, old(moves)@),
            listed_ok(final(moves)@, self, old(moves)@.len() as int),
            CAPS ==> listed_loud(final(moves)@, old(moves)@.len() as int),
            forall|m: Move|
                pseudo_legal(self.state(), m) && m.kind == 0 && self.board[m.from as int].spec_type() == KING
                    && (CAPS ==> m.cap) ==> #[trigger] holds(final(moves)@, m),
            distinct_in(final(moves)@, old(moves)@.len() as int, final(moves)@.len() as int),
            tagged(
                final(moves)@,
                old(moves)@.len() as int,
                final(moves)@.len() as int,
                |m: Move| self.moves_kind(m, KING),
            ),
    {
        self.gen_piece_moves::<5, CAPS>(moves);
    }

    /// The moves that a pawn makes from `from` to `to`, by category: 0 a
    /// single push, 1 a double push, 2 a capture, 3 the promotions by a
    /// push, 4 the promotions by a capture.
    pub open spec fn pawn_cat(cat: u8, back: int, m: Move) -> bool {
        &&& m.from == m.to - back
        &&& if cat == 0 {
            m.kind == 0 && m.prom == 0 && !m.cap
        } else if cat == 1 {
            m.kind == KIND_LONG_PUSH && m.prom == 0 && !m.cap
        } else if cat == 2 {
            m.kind == 0 && m.prom == 0 && m.cap
        } else if cat == 3 {
            m.kind == 0 && KNIGHT <= m.prom <= QUEEN && !m.cap
        } else {
            m.kind == 0 && KNIGHT <= m.prom <= QUEEN && m.cap
        }
    }

    /// The promotion to a piece of type `tp` by the move from `from` to `to`.
    pub open spec fn prom_move(from: u8, to: u8, tp: u8, cap: bool) -> Move {
        Move { from, to, kind: 0, prom: tp, cap }
    }

    /// The move `m` is a pawn move of category `cat` that starts `back`
    /// squares before its end, from a square with a pawn of the side to move.
    pub open spec fn pawn_tag(&self, cat: u8, back: int, m: Move) -> bool {
        Self::pawn_cat(cat, back, m) && m.from < 64 && m.to < 64 && self.board[m.from as int]
            == Piece::of(PAWN, self.turn)
    }

    /// The move `m` is a pawn move of one of the first `k` categories that
    /// the generator lists, for pawns that step by `sign` ranks.
    pub open spec fn pawn_done(k: int, sign: int, m: Move) -> bool {
        ||| (k > 0 && Self::pawn_cat(3, 8 * sign, m))
        ||| (k > 1 && Self::pawn_cat(4, 7 * sign, m))
        ||| (k > 2 && Self::pawn_cat(4, 9 * sign, m))
        ||| (k > 3 && Self::pawn_cat(0, 8 * sign, m))
        ||| (k > 4 && Self::pawn_cat(1, 16 * sign, m))
        ||| (k > 5 && Self::pawn_cat(2, 7 * sign, m))
        ||| (k > 6 && Self::pawn_cat(2, 9 * sign, m))
    }

    /// The move `m` starts on a square with a pawn and is no castling.
    pub open spec fn pawn_moves(&self, m: Move) -> bool {
        m.from < 64 && m.kind != KIND_CASTLE && self.board[m.from as int].spec_type() == PAWN
    }

    /// Lists the four promotions of the pawn that goes from `from` to `to`.
    fn gen_proms<const CAP: bool>(&self, from: u8, to: u8, moves: &mut MoveList)
        requires
            self.wf(),
            from < 64,
            to < 64,
            self.board[from as int] == Piece::of(PAWN, self.turn),
            forall|tp: u8|
                KNIGHT <= tp <= QUEEN ==> pseudo_legal(
                    self.state(),
                    #[trigger] Self::prom_move(from, to, tp, CAP),
                ),
        ensures
            extends(final(moves)@, old(moves)@),
            listed_ok(final(moves)@, self, old(moves)@.len() as int),
            listed_loud(final(moves)@, old(moves)@.len() as int),
            forall|tp: u8|
                KNIGHT <= tp <= QUEEN ==> holds(
                    final(moves)@,
                    #[trigger] Self::prom_move(from, to, tp, CAP),
                ),
            final(moves)@.len() == old(moves)@.len() + 4,
            distinct_in(final(moves)@, old(moves)@.len() as int, final(moves)@.len() as int),
            tagged(
                final(moves)@,
                old(moves)@.len() as int,
                final(moves)@.len() as int,
                |m: Move|
                    m.from == from && m.to == to && m.kind == 0 && KNIGHT <= m.prom <= QUEEN && m.cap
                        == CAP,
            ),
    {
        let ghost l0 = moves@;
        proof {
            assert(pseudo_legal(self.state(), Self::prom_move(from, to, KNIGHT, CAP)));
            assert(pseudo_legal(self.state(), Self::prom_move(from, to, BISHOP, CAP)));
            assert(pseudo_legal(self.state(), Self::prom_move(from, to, ROOK, CAP)));
            assert(pseudo_legal(self.state(), Self::prom_move(from, to, QUEEN, CAP)));
        }
        moves.push_prom::<CAP, 1>(Move::new_prom(from, to, CAP, KNIGHT), self);
        moves.push_prom::<CAP, 2>(Move::new_prom(from, to, CAP, BISHOP), self);
        moves.push_prom::<CAP, 3>(Move::new_prom(from, to, CAP, ROOK), self);
        moves.push_prom::<CAP, 4>(Move::new_prom(from, to, CAP, QUEEN), self);
        proof {
            let n = l0.len() as int;
            assert(moves@[n].0 == Move { from, to, kind: 0, prom: KNIGHT, cap: CAP });
            assert(moves@[n + 1].0 == Move { from, to, kind: 0, prom: BISHOP, cap: CAP });
            assert(moves@[n + 2].0 == Move { from, to, kind: 0, prom: ROOK, cap: CAP });
            assert(moves@[n + 3].0 == Move { from, to, kind: 0, prom: QUEEN, cap: CAP });
        }
    }

    /// Lists, for each square of `set`, the pawn moves of one category that
    /// end there and start `back` squares before it.
    fn emit_pawn<const CAT: u8>(&self, moves: &mut MoveList, set: BitBoard, back: i8)
        requires
            self.wf(),
            self.ply < MAX_DEPTH,
            CAT <= 4,
            -16 <= back <= 16,
            forall|t: u8|
                t < 64 && #[trigger] bit_at(set, t) ==> 0 <= t - back < 64 && self.board[t - back]
                    == Piece::of(PAWN, self.turn),
            forall|m: Move|
                m.to < 64 && bit_at(set, m.to) && #[trigger] Self::pawn_cat(CAT, back as int, m)
                    ==> pseudo_legal(self.state(), m),
        ensures
            extends(final(moves)@, old(moves)@),
            listed_ok(final(moves)@, self, old(moves)@.len() as int),
            CAT >= 2 ==> listed_loud(final(moves)@, old(moves)@.len() as int),
            forall|m: Move|
                m.to < 64 && bit_at(set, m.to) && #[trigger] Self::pawn_cat(CAT, back as int, m)
                    ==> holds(final(moves)@, m),
            distinct_in(final(moves)@, old(moves)@.len() as int, final(moves)@.len() as int),
            tagged(
                final(moves)@,
                old(moves)@.len() as int,
                final(moves)@.len() as int,
                |m: Move| self.pawn_tag(CAT, back as int, m),
            ),
    {
        let mut it = set.bits();
        let ghost start = moves@.len() as int;
        while it.0 != 0
            invariant
                self.wf(),
                self.ply < MAX_DEPTH,
                CAT <= 4,
                -16 <= back <= 16,
                start == old(moves)@.len(),
                forall|t: u8|
                    t < 64 && #[trigger] bit_at(set, t) ==> 0 <= t - back < 64 && self.board[t
                        - back] == Piece::of(PAWN, self.turn),
                forall|m: Move|
                    m.to < 64 && bit_at(set, m.to) && #[trigger] Self::pawn_cat(CAT, back as int, m)
                        ==> pseudo_legal(self.state(), m),
                forall|t: u8| t < 64 && #[trigger] bit_at(it.0, t) ==> bit_at(set, t),
                extends(moves@, old(moves)@),
                listed_ok(moves@, self, start),
                CAT >= 2 ==> listed_loud(moves@, start),
                forall|m: Move|
                    m.to < 64 && bit_at(set, m.to) && !bit_at(it.0, m.to) && #[trigger] Self::pawn_cat(
                        CAT,
                        back as int,
                        m,
                    ) ==> holds(moves@, m),
                distinct_in(moves@, start, moves@.len() as int),
                forall|i: int|
                    start <= i < moves@.len() ==> self.pawn_tag(CAT, back as int, (#[trigger] moves@[i]).0)
                        && !bit_at(it.0, moves@[i].0.to),
            decreases it.0,
        {
            let ghost rem = it.0;
            let ghost before = moves@;
            let to: u8 = it.next().unwrap();
            proof {
                lemma_bit_ops();
                lemma_clear_less(rem, to);
                assert(bit_at(set, to));
            }
            let from: u8 = (to as i8 - back) as u8;
            if CAT == 0 {
                let m = Move::new_usual(from, to, false);
                assert(Self::pawn_cat(CAT, back as int, m));
                moves.push::<false, 0>(m, self);
                assert(moves@[before.len() as int].0 == m);
            } else if CAT == 1 {
                let m = Move::new_long(from, to);
                assert(Self::pawn_cat(CAT, back as int, m));
                moves.push::<false, 0>(m, self);
                assert(moves@[before.len() as int].0 == m);
            } else if CAT == 2 {
                let m = Move::new_usual(from, to, true);
                assert(Self::pawn_cat(CAT, back as int, m));
                moves.push::<true, 0>(m, self);
                assert(moves@[before.len() as int].0 == m);
            } else if CAT == 3 {
                proof {
                    assert forall|tp: u8| KNIGHT <= tp <= QUEEN implies pseudo_legal(
                        self.state(),
                        #[trigger] Self::prom_move(from, to, tp, false),
                    ) by {
                        assert(Self::pawn_cat(
                            CAT,
                            back as int,
                            Move { from, to, kind: 0, prom: tp, cap: false },
                        ));
                    }
                }
                self.gen_proms::<false>(from, to, moves);
            } else {
                proof {
                    assert forall|tp: u8| KNIGHT <= tp <= QUEEN implies pseudo_legal(
                        self.state(),
                        #[trigger] Self::prom_move(from, to, tp, true),
                    ) by {
                        assert(Self::pawn_cat(
                            CAT,
                            back as int,
                            Move { from, to, kind: 0, prom: tp, cap: true },
                        ));
                    }
                }
                self.gen_proms::<true>(from, to, moves);
            }
            proof {
                let a = before.len() as int;
                let c = moves@.len() as int;
                let here = |m: Move| m.to == to;
                let elsewhere = |m: Move| m.to != to;
                assert(distinct_in(moves@, a, c));
                assert(tagged(moves@, a, c, here));
                assert(tagged(moves@, start, a, elsewhere)) by {
                    assert forall|i: int| start <= i < a implies elsewhere((#[trigger] moves@[i]).0) by {
                        assert(moves@[i] == before[i]);
                        assert(!bit_at(rem, before[i].0.to));
                    }
                }
                lemma_run_extends(moves@, before, start, a, elsewhere);
                lemma_distinct_join(moves@, start, a, c, elsewhere, here);
                assert forall|i: int| start <= i < c implies self.pawn_tag(
                    CAT,
                    back as int,
                    (#[trigger] moves@[i]).0,
                ) && !bit_at(it.0, moves@[i].0.to) by {
                    if i < a {
                        assert(moves@[i] == before[i]);
                    } else {
                        assert(here(moves@[i].0));
                    }
                }
                assert forall|m: Move|
                    m.to < 64 && bit_at(set, m.to) && !bit_at(it.0, m.to) && #[trigger] Self::pawn_cat(
                        CAT,
                        back as int,
                        m,
                    ) implies holds(moves@, m) by {
                    if m.to != to {
                        assert(holds(before, m));
                        lemma_holds_extends(moves@, before, m);
                    } else if CAT >= 3 {
                        assert(m == Self::prom_move(from, to, m.prom, CAT == 4));
                    }
                }
            }
        }
        proof {
            lemma_bit_ops();
        }
    }

    /// The step of a pawn of colour `us`, in squares.
    pub open spec fn fwd(us: u8) -> int {
        if us == WHITE {
            8
        } else {
            -8
        }
    }

    /// The square `t` is on the rank where pawns of colour `us` promote.
    pub open spec fn last_rank(us: u8, t: u8) -> bool {
        if us == WHITE {
            t / 8 == 7
        } else {
            t / 8 == 0
        }
    }

    /// A pawn of the side to move standing `back` squares before `t` can
    /// go to `t` by a move of category `cat`.
    pub open spec fn pawn_target(&self, cat: u8, back: int, t: u8) -> bool {
        let us = self.turn;
        let from = t - back;
        let f = Self::fwd(us);
        &&& 0 <= from < 64
        &&& self.board[from] == Piece::of(PAWN, us)
        &&& if cat == 0 || cat == 3 {
            back == f && !self.board[t as int].is_piece() && ((cat == 3) == Self::last_rank(us, t))
        } else if cat == 1 {
            back == 2 * f && from / 8 == (if us == WHITE {
                1int
            } else {
                6int
            }) && !self.board[t - f].is_piece() && !self.board[t as int].is_piece()
        } else {
            (back == f - 1 || back == f + 1) && crate::geometry::pawn_reach(us, from as u8, t)
                && self.board[t as int].is_piece() && self.board[t as int].spec_color() == other(us)
                && self.board[t as int].spec_type() != KING && ((cat == 4) == Self::last_rank(us, t))
        }
    }

    /// A pawn move of a category onto a target of that category is pseudo-legal.
    proof fn lemma_pawn_sound(&self, cat: u8, back: int, m: Move)
        requires
            self.wf(),
            cat <= 4,
            m.to < 64,
            self.pawn_target(cat, back, m.to),
            Self::pawn_cat(cat, back, m),
        ensures
            pseudo_legal(self.state(), m),
    {
        if cat == 2 || cat == 4 {
            assert(attacks(self.board@, m.from, m.to));
        }
    }

    /// Every pseudo-legal pawn move but the en-passant capture belongs to
    /// one category and lands on a target of it.
    proof fn lemma_pawn_complete(&self, m: Move) -> (r: (u8, int))
        requires
            self.wf(),
            pseudo_legal(self.state(), m),
            self.board[m.from as int].spec_type() == PAWN,
            m.kind != KIND_EN_PASSANT,
        ensures
            r.0 <= 4,
            self.pawn_target(r.0, r.1, m.to),
            Self::pawn_cat(r.0, r.1, m),
            r.1 == m.to - m.from,
            (r.0 == 0) == (m.kind == 0 && !m.cap && m.prom == 0),
            (r.0 == 1) == (m.kind == KIND_LONG_PUSH),
            (r.0 == 2) == (m.kind == 0 && m.cap && m.prom == 0),
            (r.0 == 3) == (m.kind == 0 && !m.cap && m.prom != 0),
            (r.0 == 4) == (m.kind == 0 && m.cap && m.prom != 0),
            r.1 == Self::fwd(self.turn) || r.1 == 2 * Self::fwd(self.turn) || r.1 == Self::fwd(self.turn) - 1
                || r.1 == Self::fwd(self.turn) + 1,
    {
        let back = m.to - m.from;
        assert(self.board[m.from as int] == Piece::of(PAWN, self.turn));
        if m.kind == KIND_CASTLE {
            assert(self.board[king_home(self.turn) as int] == Piece::of(KING, self.turn));
        }
        let cat = if m.kind == KIND_LONG_PUSH {
            1u8
        } else if m.cap {
            if m.prom != 0 {
                4u8
            } else {
                2u8
            }
        } else {
            if m.prom != 0 {
                3u8
            } else {
                0u8
            }
        };
        (cat, back)
    }

    /// Lists the en-passant captures.
    #[verifier::rlimit(50)]
    fn gen_en_passant(&self, moves: &mut MoveList)
        requires
            self.wf(),
            self.ply < MAX_DEPTH,
        ensures
            extends(final(moves)@, old(moves)@),
            listed_ok(final(moves)@, self, old(moves)@.len() as int),
            listed_loud(final(moves)@, old(moves)@.len() as int),
            forall|m: Move|
                pseudo_legal(self.state(), m) && m.kind == KIND_EN_PASSANT ==> #[trigger] holds(
                    final(moves)@,
                    m,
                ),
            distinct_in(final(moves)@, old(moves)@.len() as int, final(moves)@.len() as int),
            tagged(
                final(moves)@,
                old(moves)@.len() as int,
                final(moves)@.len() as int,
                |m: Move| m.kind == KIND_EN_PASSANT && self.pawn_moves(m),
            ),
    {
        if self.ep == NS || !self.ep_fits() {
            return ;
        }
        let us: usize = self.turnx();
        let brd: u64 = self.pieces[us][PAWNX];
        let ep: u8 = self.ep;
        let x: u64 = 1u64 << ep;
        let b: u64 = if self.turn == WHITE {
            ((x & !FILE_A) >> 9 | (x & !FILE_H) >> 7) & brd
        } else {
            ((x & !FILE_H) << 9 | (x & !FILE_A) << 7) & brd
        };
        proof {
            lemma_shifts();
            lemma_bit_logic();
            lemma_bit_ops();
            assert forall|a: u8| a < 64 implies (#[trigger] bit_at(b, a) <==> (self.board[a as int]
                == Piece::of(PAWN, self.turn) && crate::geometry::pawn_reach(self.turn, a, ep))) by {
                if self.turn == WHITE {
                    let l = (x & !FILE_A) >> 9;
                    let r = (x & !FILE_H) >> 7;
                    assert(bit_at(b, a) <==> (bit_at(l, a) || bit_at(r, a)) && bit_at(brd, a));
                } else {
                    let l = (x & !FILE_H) << 9;
                    let r = (x & !FILE_A) << 7;
                    assert(bit_at(b, a) <==> (bit_at(l, a) || bit_at(r, a)) && bit_at(brd, a));
                }
            }
        }
        let mut it = b.bits();
        let ghost start = moves@.len() as int;
        while it.0 != 0
            invariant
                self.wf(),
                self.ply < MAX_DEPTH,
                ep == self.ep,
                ep < 64,
                ep_ok(self.board@, self.turn, self.ep),
                start == old(moves)@.len(),
                forall|a: u8|
                    a < 64 ==> (#[trigger] bit_at(b, a) <==> (self.board[a as int] == Piece::of(
                        PAWN,
                        self.turn,
                    ) && crate::geometry::pawn_reach(self.turn, a, ep))),
                forall|t: u8| t < 64 && #[trigger] bit_at(it.0, t) ==> bit_at(b, t),
                extends(moves@, old(moves)@),
                listed_ok(moves@, self, start),
                listed_loud(moves@, start),
                forall|m: Move|
                    pseudo_legal(self.state(), m) && m.kind == KIND_EN_PASSANT && !bit_at(it.0, m.from)
                        ==> #[trigger] holds(moves@, m),
                distinct_in(moves@, start, moves@.len() as int),
                forall|i: int|
                    start <= i < moves@.len() ==> (#[trigger] moves@[i]).0.kind == KIND_EN_PASSANT
                        && self.pawn_moves(moves@[i].0) && !bit_at(it.0, moves@[i].0.from),
            decreases it.0,
        {
            let ghost rem = it.0;
            let ghost before = moves@;
            let sq: u8 = it.next().unwrap();
            proof {
                lemma_bit_ops();
                lemma_clear_less(rem, sq);
                assert(bit_at(b, sq));
            }
            let m = Move::new_enpassant(sq, ep);
            moves.push::<false, 0>(m, self);
            proof {
                assert(moves@[before.len() as int].0 == m);
                assert forall|i: int, j: int| start <= i < j < moves@.len() implies (
                #[trigger] moves@[i]).0 != (#[trigger] moves@[j]).0 by {
                    assert(moves@[i] == before[i]);
                    if j < before.len() {
                        assert(moves@[j] == before[j]);
                    } else {
                        assert(!bit_at(rem, before[i].0.from));
                    }
                }
                assert forall|i: int| start <= i < moves@.len() implies (#[trigger] moves@[i]).0.kind
                    == KIND_EN_PASSANT && self.pawn_moves(moves@[i].0) && !bit_at(
                    it.0,
                    moves@[i].0.from,
                ) by {
                    if i < before.len() {
                        assert(moves@[i] == before[i]);
                    }
                }
                assert forall|mv: Move|
                    pseudo_legal(self.state(), mv) && mv.kind == KIND_EN_PASSANT && !bit_at(
                        it.0,
                        mv.from,
                    ) implies #[trigger] holds(moves@, mv) by {
                    if mv.from != sq {
                        assert(holds(before, mv));
                        lemma_holds_extends(moves@, before, mv);
                    } else {
                        assert(mv == m);
                    }
                }
            }
        }
        proof {
            lemma_bit_ops();
            assert forall|m: Move|
                pseudo_legal(self.state(), m) && m.kind == KIND_EN_PASSANT implies #[trigger] holds(
                moves@,
                m,
            ) by {
                assert(bit_at(b, m.from));
            }
        }
    }

    /// Lists the castling moves on offer: the right is held and nothing
    /// stands between king and rook.
    #[verifier::rlimit(50)]
    fn gen_castling_moves<const TURN: u8>(&self, moves: &mut MoveList)
        requires
            self.wf(),
            self.ply < MAX_DEPTH,
            TURN == self.turn,
        ensures
            extends(final(moves)@, old(moves)@),
            listed_ok(final(moves)@, self, old(moves)@.len() as int),
            forall|m: Move|
                pseudo_legal(self.state(), m) && m.kind == KIND_CASTLE ==> #[trigger] holds(
                    final(moves)@,
                    m,
                ),
            distinct_in(final(moves)@, old(moves)@.len() as int, final(moves)@.len() as int),
            tagged(
                final(moves)@,
                old(moves)@.len() as int,
                final(moves)@.len() as int,
                |m: Move| m.kind == KIND_CASTLE,
            ),
    {
        let b: u64 = self.all_ocupied();
        let f: u8 = if TURN == WHITE {
            4
        } else {
            60
        };
        let king_between: u64 = if TURN == WHITE {
            0x60
        } else {
            0x6000000000000000
        };
        let queen_between: u64 = if TURN == WHITE {
            0x0E
        } else {
            0x0E00000000000000
        };
        proof {
            self.lemma_occupancy();
            lemma_castle_masks();
            lemma_bit_logic();
            crate::bitbrd::lemma_zero_iff_empty(b & king_between);
            crate::bitbrd::lemma_zero_iff_empty(b & queen_between);
            assert forall|t: u8| t < 64 implies (crate::geometry::between(f, t, rook_home(TURN, true))
                <==> bit_at(king_between, t)) && (crate::geometry::between(
                f,
                t,
                rook_home(TURN, false),
            ) <==> bit_at(queen_between, t)) by {
                reveal(crate::geometry::between);
            }
            assert(b & king_between == 0 <==> clear_on(self.board@, f, rook_home(TURN, true))) by {
                if b & king_between == 0 {
                    assert forall|t: u8|
                        t < 64 && #[trigger] crate::geometry::between(f, t, rook_home(TURN, true)) implies !self.board[t as int].is_piece() by {
                        assert(!bit_at(b & king_between, t));
                        assert(bit_at(king_between, t));
                    }
                } else {
                    let t = choose|t: u8| t < 64 && bit_at(b & king_between, t);
                    assert(bit_at(b, t) && bit_at(king_between, t));
                    assert(crate::geometry::between(f, t, rook_home(TURN, true)));
                }
            }
            assert(b & queen_between == 0 <==> clear_on(self.board@, f, rook_home(TURN, false))) by {
                if b & queen_between == 0 {
                    assert forall|t: u8|
                        t < 64 && #[trigger] crate::geometry::between(f, t, rook_home(TURN, false)) implies !self.board[t as int].is_piece() by {
                        assert(!bit_at(b & queen_between, t));
                        assert(bit_at(queen_between, t));
                    }
                } else {
                    let t = choose|t: u8| t < 64 && bit_at(b & queen_between, t);
                    assert(bit_at(b, t) && bit_at(queen_between, t));
                    assert(crate::geometry::between(f, t, rook_home(TURN, false)));
                }
            }
        }
        let ghost l0 = moves@;
        let at_home: bool = self.board[f as usize] == Piece::new(KING, TURN);
        let rook = Piece::new(ROOK, TURN);
        if at_home && self.cas.king(TURN) && self.board[(f + 3) as usize] == rook && b & king_between
            == 0 {
            let m = Move::new_castle(f, f + 2);
            moves.push::<false, 0>(m, self);
            assert(moves@[l0.len() as int].0 == m);
        }
        let ghost l1 = moves@;
        if at_home && self.cas.queen(TURN) && self.board[(f - 4) as usize] == rook && b
            & queen_between == 0 {
            let m = Move::new_castle(f, f - 2);
            moves.push::<false, 0>(m, self);
            assert(moves@[l1.len() as int].0 == m);
        }
        proof {
            assert forall|m: Move|
                pseudo_legal(self.state(), m) && m.kind == KIND_CASTLE implies #[trigger] holds(
                moves@,
                m,
            ) by {
                if m.to > m.from {
                    let mv = Move { from: f, to: (f + 2) as u8, kind: KIND_CASTLE, prom: 0, cap: false };
                    assert(m == mv);
                    assert(l1[l0.len() as int].0 == mv);
                    assert(holds(l1, mv));
                    lemma_holds_extends(moves@, l1, mv);
                } else {
                    let mv = Move { from: f, to: (f - 2) as u8, kind: KIND_CASTLE, prom: 0, cap: false };
                    assert(m == mv);
                    assert(moves@[l1.len() as int].0 == mv);
                }
            }
        }
    }

    /// Lists the moves of the pawns of the side to move, found by shifting
    /// all of them at once.
    fn gen_pawn_moves<const TURN: u8, const CAPS: bool>(&self, moves: &mut MoveList)
        requires
            self.wf(),
            self.ply < MAX_DEPTH,
            TURN == self.turn,
        ensures
            extends(final(moves)@, old(moves)@),
            listed_ok(final(moves)@, self, old(moves)@.len() as int),
            CAPS ==> listed_loud(final(moves)@, old(moves)@.len() as int),
            forall|m: Move|
                pseudo_legal(self.state(), m) && self.board[m.from as int].spec_type() == PAWN && (CAPS
                    ==> m.cap || m.prom != 0) ==> #[trigger] holds(final(moves)@, m),
            distinct_in(final(moves)@, old(moves)@.len() as int, final(moves)@.len() as int),
            tagged(
                final(moves)@,
                old(moves)@.len() as int,
                final(moves)@.len() as int,
                |m: Move| self.pawn_moves(m),
            ),
    {
        if TURN == WHITE {
            self.gen_white_pawn_moves::<CAPS>(moves);
        } else {
            self.gen_black_pawn_moves::<CAPS>(moves);
        }
    }

    /// The category of the `k`-th kind of pawn move that the generator
    /// lists and the squares that such a move starts before its end, for
    /// pawns that step by `sign` ranks.
    pub open spec fn pawn_stage(k: int, sign: int) -> (u8, int) {
        if k == 0 {
            (3u8, 8 * sign)
        } else if k == 1 {
            (4u8, 7 * sign)
        } else if k == 2 {
            (4u8, 9 * sign)
        } else if k == 3 {
            (0u8, 8 * sign)
        } else if k == 4 {
            (1u8, 16 * sign)
        } else if k == 5 {
            (2u8, 7 * sign)
        } else {
            (2u8, 9 * sign)
        }
    }

    /// The targets of one category are squares that a pawn of the side to
    /// move stands before, and every move of the category onto one of them is pseudo-legal.
    proof fn lemma_pawn_set(&self, cat: u8, back: int, set: u64)
        requires
            self.wf(),
            cat <= 4,
            forall|t: u8| t < 64 ==> (#[trigger] bit_at(set, t) <==> self.pawn_target(cat, back, t)),
        ensures
            forall|t: u8|
                t < 64 && #[trigger] bit_at(set, t) ==> 0 <= t - back < 64 && self.board[t - back]
                    == Piece::of(PAWN, self.turn),
            forall|m: Move|
                m.to < 64 && bit_at(set, m.to) && #[trigger] Self::pawn_cat(cat, back, m)
                    ==> pseudo_legal(self.state(), m),
    {
        assert forall|t: u8| t < 64 && #[trigger] bit_at(set, t) implies 0 <= t - back < 64
            && self.board[t - back] == Piece::of(PAWN, self.turn) by {
            assert(self.pawn_target(cat, back, t));
        }
        assert forall|m: Move|
            m.to < 64 && bit_at(set, m.to) && #[trigger] Self::pawn_cat(cat, back, m) implies pseudo_legal(
            self.state(),
            m,
        ) by {
            assert(self.pawn_target(cat, back, m.to));
            self.lemma_pawn_sound(cat, back, m);
        }
    }

    /// The pawn moves of the first `k` kinds, each listed once, and after
    /// them those of the next kind, each listed once, are the pawn moves
    /// of the first `k + 1` kinds, each listed once.
    proof fn lemma_pawn_joined(
        &self,
        lc: Seq<OrderedMove>,
        lp: Seq<OrderedMove>,
        start: int,
        k: int,
        sign: int,
    )
        requires
            self.wf(),
            0 <= start <= lp.len(),
            extends(lc, lp),
            0 <= k < 7,
            sign == 1 || sign == -1,
            distinct_in(lp, start, lp.len() as int),
            tagged(lp, start, lp.len() as int, |m: Move| Self::pawn_done(k, sign, m)),
            tagged(lp, start, lp.len() as int, |m: Move| self.pawn_moves(m)),
            distinct_in(lc, lp.len() as int, lc.len() as int),
            tagged(
                lc,
                lp.len() as int,
                lc.len() as int,
                |m: Move| self.pawn_tag(Self::pawn_stage(k, sign).0, Self::pawn_stage(k, sign).1, m),
            ),
        ensures
            distinct_in(lc, start, lc.len() as int),
            tagged(lc, start, lc.len() as int, |m: Move| Self::pawn_done(k + 1, sign, m)),
            tagged(lc, start, lc.len() as int, |m: Move| self.pawn_moves(m)),
    {
        let a = lp.len() as int;
        let c = lc.len() as int;
        let done = |m: Move| Self::pawn_done(k, sign, m);
        let next = |m: Move| Self::pawn_done(k + 1, sign, m);
        let seg = |m: Move| self.pawn_tag(Self::pawn_stage(k, sign).0, Self::pawn_stage(k, sign).1, m);
        let pawns = |m: Move| self.pawn_moves(m);
        lemma_run_extends(lc, lp, start, a, done);
        lemma_run_extends(lc, lp, start, a, pawns);
        lemma_distinct_join(lc, start, a, c, done, seg);
        assert forall|i: int| start <= i < c implies next((#[trigger] lc[i]).0) by {
            if i < a {
                assert(done(lc[i].0));
            } else {
                assert(seg(lc[i].0));
            }
        }
        assert forall|i: int| start <= i < c implies pawns((#[trigger] lc[i]).0) by {
            if i < a {
                assert(pawns(lc[i].0));
            } else {
                assert(seg(lc[i].0));
            }
        }
    }

    /// Lists the pawn moves onto the squares of the seven sets, one
    /// category after the other, and then the en-passant captures. Pushes
    /// that do not promote are left out if only captures and promotions are wanted.
    #[verifier::rlimit(50)]
    fn emit_pawn_sets<const CAPS: bool>(
        &self,
        moves: &mut MoveList,
        proms: u64,
        promcaps7: u64,
        promcaps9: u64,
        shorts: u64,
        longs: u64,
        caps7: u64,
        caps9: u64,
        sign: i8,
    )
        requires
            self.wf(),
            self.ply < MAX_DEPTH,
            sign == (if self.turn == WHITE {
                1int
            } else {
                -1int
            }),
            forall|t: u8| t < 64 ==> (#[trigger] bit_at(proms, t) <==> self.pawn_target(3, 8 * sign, t)),
            forall|t: u8| t < 64 ==> (#[trigger] bit_at(promcaps7, t) <==> self.pawn_target(4, 7 * sign, t)),
            forall|t: u8| t < 64 ==> (#[trigger] bit_at(promcaps9, t) <==> self.pawn_target(4, 9 * sign, t)),
            forall|t: u8| t < 64 ==> (#[trigger] bit_at(shorts, t) <==> self.pawn_target(0, 8 * sign, t)),
            forall|t: u8| t < 64 ==> (#[trigger] bit_at(longs, t) <==> self.pawn_target(1, 16 * sign, t)),
            forall|t: u8| t < 64 ==> (#[trigger] bit_at(caps7, t) <==> self.pawn_target(2, 7 * sign, t)),
            forall|t: u8| t < 64 ==> (#[trigger] bit_at(caps9, t) <==> self.pawn_target(2, 9 * sign, t)),
        ensures
            extends(final(moves)@, old(moves)@),
            listed_ok(final(moves)@, self, old(moves)@.len() as int),
            CAPS ==> listed_loud(final(moves)@, old(moves)@.len() as int),
            forall|m: Move|
                pseudo_legal(self.state(), m) && self.board[m.from as int].spec_type() == PAWN && (CAPS
                    ==> m.cap || m.prom != 0) ==> #[trigger] holds(final(moves)@, m),
            distinct_in(final(moves)@, old(moves)@.len() as int, final(moves)@.len() as int),
            tagged(
                final(moves)@,
                old(moves)@.len() as int,
                final(moves)@.len() as int,
                |m: Move| self.pawn_moves(m),
            ),
    {
        let ghost l_start = moves@;
        let ghost start = moves@.len() as int;
        let ghost sg = sign as int;
        let b7: i8 = 7 * sign;
        let b8: i8 = 8 * sign;
        let b9: i8 = 9 * sign;
        let b16: i8 = 16 * sign;
        proof {
            self.lemma_pawn_set(3, b8 as int, proms);
        }
        self.emit_pawn::<3>(moves, proms, b8);
        let ghost l_proms = moves@;
        proof {
            self.lemma_pawn_joined(l_proms, l_start, start, 0, sg);
            self.lemma_pawn_set(4, b7 as int, promcaps7);
        }
        self.emit_pawn::<4>(moves, promcaps7, b7);
        let ghost l_promcaps7 = moves@;
        proof {
            self.lemma_pawn_joined(l_promcaps7, l_proms, start, 1, sg);
            self.lemma_pawn_set(4, b9 as int, promcaps9);
        }
        self.emit_pawn::<4>(moves, promcaps9, b9);
        let ghost l_promcaps9 = moves@;
        proof {
            self.lemma_pawn_joined(l_promcaps9, l_promcaps7, start, 2, sg);
        }
        if !CAPS {
            proof {
                self.lemma_pawn_set(0, b8 as int, shorts);
            }
            self.emit_pawn::<0>(moves, shorts, b8);
        }
        let ghost l_shorts = moves@;
        proof {
            self.lemma_pawn_joined(l_shorts, l_promcaps9, start, 3, sg);
        }
        if !CAPS {
            proof {
                self.lemma_pawn_set(1, b16 as int, longs);
            }
            self.emit_pawn::<1>(moves, longs, b16);
        }
        let ghost l_longs = moves@;
        proof {
            self.lemma_pawn_joined(l_longs, l_shorts, start, 4, sg);
            self.lemma_pawn_set(2, b7 as int, caps7);
        }
        self.emit_pawn::<2>(moves, caps7, b7);
        let ghost l_caps7 = moves@;
        proof {
            self.lemma_pawn_joined(l_caps7, l_longs, start, 5, sg);
            self.lemma_pawn_set(2, b9 as int, caps9);
        }
        self.emit_pawn::<2>(moves, caps9, b9);
        let ghost l_caps9 = moves@;
        proof {
            self.lemma_pawn_joined(l_caps9, l_caps7, start, 6, sg);
        }
        self.gen_en_passant(moves);
        proof {
            let lp = l_caps9;
            let lc = moves@;
            let a = lp.len() as int;
            let c = lc.len() as int;
            let done = |m: Move| Self::pawn_done(7, sg, m);
            let seg = |m: Move| m.kind == KIND_EN_PASSANT && self.pawn_moves(m);
            let pawns = |m: Move| self.pawn_moves(m);
            lemma_run_extends(lc, lp, start, a, done);
            lemma_run_extends(lc, lp, start, a, pawns);
            lemma_distinct_join(lc, start, a, c, done, seg);
            assert(tagged(lc, start, c, pawns)) by {
                assert forall|i: int| start <= i < c implies pawns((#[trigger] lc[i]).0) by {
                    if i < a {
                        assert(pawns(lc[i].0));
                    } else {
                        assert(seg(lc[i].0));
                    }
                }
            }
            assert forall|m: Move|
                pseudo_legal(self.state(), m) && self.board[m.from as int].spec_type() == PAWN && (CAPS
                    ==> m.cap || m.prom != 0) implies #[trigger] holds(lc, m) by {
                if m.kind != KIND_EN_PASSANT {
                    let (cat, back) = self.lemma_pawn_complete(m);
                    if cat == 3 {
                        assert(bit_at(proms, m.to));
                        lemma_holds_extends(lc, l_proms, m);
                    } else if cat == 4 && back == b7 {
                        assert(bit_at(promcaps7, m.to));
                        lemma_holds_extends(lc, l_promcaps7, m);
                    } else if cat == 4 {
                        assert(bit_at(promcaps9, m.to));
                        lemma_holds_extends(lc, l_promcaps9, m);
                    } else if cat == 0 {
                        assert(bit_at(shorts, m.to));
                        lemma_holds_extends(lc, l_shorts, m);
                    } else if cat == 1 {
                        assert(bit_at(longs, m.to));
                        lemma_holds_extends(lc, l_longs, m);
                    } else if back == b7 {
                        assert(bit_at(caps7, m.to));
                        lemma_holds_extends(lc, l_caps7, m);
                    } else {
                        assert(bit_at(caps9, m.to));
                        lemma_holds_extends(lc, l_caps9, m);
                    }
                }
            }
        }
    }

    /// Lists the moves of the white pawns, which step up the board.
    #[verifier::rlimit(50)]
    fn gen_white_pawn_moves<const CAPS: bool>(&self, moves: &mut MoveList)
        requires
            self.wf(),
            self.ply < MAX_DEPTH,
            self.turn == WHITE,
        ensures
            extends(final(moves)@, old(moves)@),
            listed_ok(final(moves)@, self, old(moves)@.len() as int),
            CAPS ==> listed_loud(final(moves)@, old(moves)@.len() as int),
            forall|m: Move|
                pseudo_legal(self.state(), m) && self.board[m.from as int].spec_type() == PAWN && (CAPS
                    ==> m.cap || m.prom != 0) ==> #[trigger] holds(final(moves)@, m),
            distinct_in(final(moves)@, old(moves)@.len() as int, final(moves)@.len() as int),
            tagged(
                final(moves)@,
                old(moves)@.len() as int,
                final(moves)@.len() as int,
                |m: Move| self.pawn_moves(m),
            ),
    {
        let brd: u64 = self.pieces[0][PAWNX];
        let enemies: u64 = self.occupied[1] & !self.pieces[1][KINGX];
        let r7: u64 = brd & RANK_7;
        let notr7: u64 = brd & !RANK_7;
        let r2: u64 = brd & RANK_2;
        let free: u64 = !self.all_ocupied();
        let proms: u64 = (r7 << 8) & free;
        let promcaps7: u64 = (r7 & !FILE_A) << 7 & enemies;
        let promcaps9: u64 = (r7 & !FILE_H) << 9 & enemies;
        let shorts: u64 = (notr7 << 8) & free;
        let mid: u64 = (r2 << 8) & free;
        let longs: u64 = (mid << 8) & free;
        let caps7: u64 = (notr7 & !FILE_A) << 7 & enemies;
        let caps9: u64 = (notr7 & !FILE_H) << 9 & enemies;
        proof {
            lemma_shifts();
            lemma_rank_masks();
            lemma_bit_logic();
            self.lemma_occupancy();
            self.lemma_takeable(1);
            assert forall|t: u8| t < 64 implies (#[trigger] bit_at(proms, t) <==> self.pawn_target(3, 8, t)) by {
                assert(bit_at(proms, t) <==> bit_at(r7 << 8, t) && bit_at(free, t));
            }
            assert forall|t: u8| t < 64 implies (#[trigger] bit_at(promcaps7, t) <==> self.pawn_target(4, 7, t)) by {
                assert(bit_at(promcaps7, t) <==> bit_at((r7 & !FILE_A) << 7, t) && bit_at(enemies, t));
            }
            assert forall|t: u8| t < 64 implies (#[trigger] bit_at(promcaps9, t) <==> self.pawn_target(4, 9, t)) by {
                assert(bit_at(promcaps9, t) <==> bit_at((r7 & !FILE_H) << 9, t) && bit_at(enemies, t));
            }
            assert forall|t: u8| t < 64 implies (#[trigger] bit_at(shorts, t) <==> self.pawn_target(0, 8, t)) by {
                assert(bit_at(shorts, t) <==> bit_at(notr7 << 8, t) && bit_at(free, t));
            }
            assert forall|t: u8| t < 64 implies (#[trigger] bit_at(longs, t) <==> self.pawn_target(1, 16, t)) by {
                assert(bit_at(longs, t) <==> bit_at(mid << 8, t) && bit_at(free, t));
                if t >= 8 {
                    let u = (t - 8) as u8;
                    assert(bit_at(mid, u) <==> bit_at(r2 << 8, u) && bit_at(free, u));
                }
            }
            assert forall|t: u8| t < 64 implies (#[trigger] bit_at(caps7, t) <==> self.pawn_target(2, 7, t)) by {
                assert(bit_at(caps7, t) <==> bit_at((notr7 & !FILE_A) << 7, t) && bit_at(enemies, t));
            }
            assert forall|t: u8| t < 64 implies (#[trigger] bit_at(caps9, t) <==> self.pawn_target(2, 9, t)) by {
                assert(bit_at(caps9, t) <==> bit_at((notr7 & !FILE_H) << 9, t) && bit_at(enemies, t));
            }
        }
        self.emit_pawn_sets::<CAPS>(moves, proms, promcaps7, promcaps9, shorts, longs, caps7, caps9, 1);
    }

    /// Lists the moves of the black pawns, which step down the board.
    #[verifier::rlimit(50)]
    fn gen_black_pawn_moves<const CAPS: bool>(&self, moves: &mut MoveList)
        requires
            self.wf(),
            self.ply < MAX_DEPTH,
            self.turn == BLACK,
        ensures
            extends(final(moves)@, old(moves)@),
            listed_ok(final(moves)@, self, old(moves)@.len() as int),
            CAPS ==> listed_loud(final(moves)@, old(moves)@.len() as int),
            forall|m: Move|
                pseudo_legal(self.state(), m) && self.board[m.from as int].spec_type() == PAWN && (CAPS
                    ==> m.cap || m.prom != 0) ==> #[trigger] holds(final(moves)@, m),
            distinct_in(final(moves)@, old(moves)@.len() as int, final(moves)@.len() as int),
            tagged(
                final(moves)@,
                old(moves)@.len() as int,
                final(moves)@.len() as int,
                |m: Move| self.pawn_moves(m),
            ),
    {
        let brd: u64 = self.pieces[1][PAWNX];
        let enemies: u64 = self.occupied[0] & !self.pieces[0][KINGX];
        let r7: u64 = brd & RANK_7;
        let r2: u64 = brd & RANK_2;
        let notr2: u64 = brd & !RANK_2;
        let free: u64 = !self.all_ocupied();
        let proms: u64 = (r2 >> 8) & free;
        let promcaps7: u64 = (r2 & !FILE_H) >> 7 & enemies;
        let promcaps9: u64 = (r2 & !FILE_A) >> 9 & enemies;
        let shorts: u64 = (notr2 >> 8) & free;
        let mid: u64 = (r7 >> 8) & free;
        let longs: u64 = (mid >> 8) & free;
        let caps7: u64 = (notr2 & !FILE_H) >> 7 & enemies;
        let caps9: u64 = (notr2 & !FILE_A) >> 9 & enemies;
        proof {
            lemma_shifts();
            lemma_rank_masks();
            lemma_bit_logic();
            self.lemma_occupancy();
            self.lemma_takeable(0);
            assert forall|t: u8| t < 64 implies (#[trigger] bit_at(proms, t) <==> self.pawn_target(3, -8, t)) by {
                assert(bit_at(proms, t) <==> bit_at(r2 >> 8, t) && bit_at(free, t));
            }
            assert forall|t: u8| t < 64 implies (#[trigger] bit_at(promcaps7, t) <==> self.pawn_target(4, -7, t)) by {
                assert(bit_at(promcaps7, t) <==> bit_at((r2 & !FILE_H) >> 7, t) && bit_at(enemies, t));
            }
            assert forall|t: u8| t < 64 implies (#[trigger] bit_at(promcaps9, t) <==> self.pawn_target(4, -9, t)) by {
                assert(bit_at(promcaps9, t) <==> bit_at((r2 & !FILE_A) >> 9, t) && bit_at(enemies, t));
            }
            assert forall|t: u8| t < 64 implies (#[trigger] bit_at(shorts, t) <==> self.pawn_target(0, -8, t)) by {
                assert(bit_at(shorts, t) <==> bit_at(notr2 >> 8, t) && bit_at(free, t));
            }
            assert forall|t: u8| t < 64 implies (#[trigger] bit_at(longs, t) <==> self.pawn_target(1, -16, t)) by {
                assert(bit_at(longs, t) <==> bit_at(mid >> 8, t) && bit_at(free, t));
                if t < 56 {
                    let u = (t + 8) as u8;
                    assert(bit_at(mid, u) <==> bit_at(r7 >> 8, u) && bit_at(free, u));
                }
            }
            assert forall|t: u8| t < 64 implies (#[trigger] bit_at(caps7, t) <==> self.pawn_target(2, -7, t)) by {
                assert(bit_at(caps7, t) <==> bit_at((notr2 & !FILE_H) >> 7, t) && bit_at(enemies, t));
            }
            assert forall|t: u8| t < 64 implies (#[trigger] bit_at(caps9, t) <==> self.pawn_target(2, -9, t)) by {
                assert(bit_at(caps9, t) <==> bit_at((notr2 & !FILE_A) >> 9, t) && bit_at(enemies, t));
            }
        }
        self.emit_pawn_sets::<CAPS>(moves, proms, promcaps7, promcaps9, shorts, longs, caps7, caps9, -1);
    }

    /// Lists every pseudo-legal move of the side to move, or, if `CAPS`
    /// holds, the captures and promotions among them.
    pub fn gen_moves<const CAPS: bool>(&self, moves: &mut MoveList)
        requires
            self.wf(),
            self.ply < MAX_DEPTH,
        ensures
            extends(final(moves)@, old(moves)@),
            listed_ok(final(moves)@, self, old(moves)@.len() as int),
            CAPS ==> listed_loud(final(moves)@, old(moves)@.len() as int),
            forall|m: Move|
                pseudo_legal(self.state(), m) && (CAPS ==> m.cap || m.prom != 0) ==> #[trigger] holds(
                    final(moves)@,
                    m,
                ),
            distinct_in(final(moves)@, old(moves)@.len() as int, final(moves)@.len() as int),
    {
        let ghost l0 = moves@;
        let ghost start = moves@.len() as int;
        self.gen_knight_moves::<CAPS>(moves);
        let ghost l1 = moves@;
        proof {
            let lp = l0;
            let lc = l1;
            let a = lp.len() as int;
            let c = lc.len() as int;
            let done = |m: Move| self.gen_done(0, m);
            let next = |m: Move| self.gen_done(1, m);
            let seg = |m: Move| self.moves_kind(m, KNIGHT);
            lemma_run_extends(lc, lp, start, a, done);
            lemma_distinct_join(lc, start, a, c, done, seg);
            assert(tagged(lc, start, c, next)) by {
                assert forall|i: int| start <= i < c implies next((#[trigger] lc[i]).0) by {
                    if i < a {
                        assert(done(lc[i].0));
                    } else {
                        assert(seg(lc[i].0));
                    }
                }
            }
        }
        self.gen_bishop_moves::<CAPS>(moves);
        let ghost l2 = moves@;
        proof {
            let lp = l1;
            let lc = l2;
            let a = lp.len() as int;
            let c = lc.len() as int;
            let done = |m: Move| self.gen_done(1, m);
            let next = |m: Move| self.gen_done(2, m);
            let seg = |m: Move| self.moves_kind(m, BISHOP);
            lemma_run_extends(lc, lp, start, a, done);
            lemma_distinct_join(lc, start, a, c, done, seg);
            assert(tagged(lc, start, c, next)) by {
                assert forall|i: int| start <= i < c implies next((#[trigger] lc[i]).0) by {
                    if i < a {
                        assert(done(lc[i].0));
                    } else {
                        assert(seg(lc[i].0));
                    }
                }
            }
        }
        self.gen_rook_moves::<CAPS>(moves);
        let ghost l3 = moves@;
        proof {
            let lp = l2;
            let lc = l3;
            let a = lp.len() as int;
            let c = lc.len() as int;
            let done = |m: Move| self.gen_done(2, m);
            let next = |m: Move| self.gen_done(3, m);
            let seg = |m: Move| self.moves_kind(m, ROOK);
            lemma_run_extends(lc, lp, start, a, done);
            lemma_distinct_join(lc, start, a, c, done, seg);
            assert(tagged(lc, start, c, next)) by {
                assert forall|i: int| start <= i < c implies next((#[trigger] lc[i]).0) by {
                    if i < a {
                        assert(done(lc[i].0));
                    } else {
                        assert(seg(lc[i].0));
                    }
                }
            }
        }
        self.gen_queen_moves::<CAPS>(moves);
        let ghost l4 = moves@;
        proof {
            let lp = l3;
            let lc = l4;
            let a = lp.len() as int;
            let c = lc.len() as int;
            let done = |m: Move| self.gen_done(3, m);
            let next = |m: Move| self.gen_done(4, m);
            let seg = |m: Move| self.moves_kind(m, QUEEN);
            lemma_run_extends(lc, lp, start, a, done);
            lemma_distinct_join(lc, start, a, c, done, seg);
            assert(tagged(lc, start, c, next)) by {
                assert forall|i: int| start <= i < c implies next((#[trigger] lc[i]).0) by {
                    if i < a {
                        assert(done(lc[i].0));
                    } else {
                        assert(seg(lc[i].0));
                    }
                }
            }
        }
        self.gen_king_moves::<CAPS>(moves);
        let ghost l5 = moves@;
        proof {
            let lp = l4;
            let lc = l5;
            let a = lp.len() as int;
            let c = lc.len() as int;
            let done = |m: Move| self.gen_done(4, m);
            let next = |m: Move| self.gen_done(5, m);
            let seg = |m: Move| self.moves_kind(m, KING);
            lemma_run_extends(lc, lp, start, a, done);
            lemma_distinct_join(lc, start, a, c, done, seg);
            assert(tagged(lc, start, c, next)) by {
                assert forall|i: int| start <= i < c implies next((#[trigger] lc[i]).0) by {
                    if i < a {
                        assert(done(lc[i].0));
                    } else {
                        assert(seg(lc[i].0));
                    }
                }
            }
        }
        if self.turn == WHITE {
            self.gen_pawn_moves::<0, CAPS>(moves);
        } else {
            self.gen_pawn_moves::<1, CAPS>(moves);
        }
        let ghost l6 = moves@;
        proof {
            let lp = l5;
            let lc = l6;
            let a = lp.len() as int;
            let c = lc.len() as int;
            let done = |m: Move| self.gen_done(5, m);
            let next = |m: Move| self.gen_done(6, m);
            let seg = |m: Move| self.pawn_moves(m);
            lemma_run_extends(lc, lp, start, a, done);
            lemma_distinct_join(lc, start, a, c, done, seg);
            assert(tagged(lc, start, c, next)) by {
                assert forall|i: int| start <= i < c implies next((#[trigger] lc[i]).0) by {
                    if i < a {
                        assert(done(lc[i].0));
                    } else {
                        assert(seg(lc[i].0));
                    }
                }
            }
        }
        if !CAPS {
            if self.turn == WHITE {
                self.gen_castling_moves::<0>(moves);
            } else {
                self.gen_castling_moves::<1>(moves);
            }
        }
        proof {
            let lp = l6;
            let lc = moves@;
            let a = lp.len() as int;
            let c = lc.len() as int;
            let done = |m: Move| self.gen_done(6, m);
            let seg = |m: Move| m.kind == KIND_CASTLE;
            lemma_run_extends(lc, lp, start, a, done);
            if CAPS {
                assert(lc == lp);
            }
            lemma_distinct_join(lc, start, a, c, done, seg);
        }
        proof {
            let fin = moves@;
            assert forall|m: Move|
                pseudo_legal(self.state(), m) && (CAPS ==> m.cap || m.prom != 0) implies #[trigger] holds(
                fin,
                m,
            ) by {
                let tp = self.board[m.from as int].spec_type();
                if m.kind == KIND_CASTLE {
                } else if tp == PAWN {
                    assert(holds(l6, m));
                    lemma_holds_extends(fin, l6, m);
                } else {
                    assert(m.kind == 0);
                    assert(m.prom == 0);
                    if tp == KNIGHT {
                        assert(holds(l1, m));
                        lemma_holds_extends(l2, l1, m);
                        lemma_holds_extends(l3, l2, m);
                        lemma_holds_extends(l4, l3, m);
                        lemma_holds_extends(l5, l4, m);
                    } else if tp == BISHOP {
                        assert(holds(l2, m));
                        lemma_holds_extends(l3, l2, m);
                        lemma_holds_extends(l4, l3, m);
                        lemma_holds_extends(l5, l4, m);
                    } else if tp == ROOK {
                        assert(holds(l3, m));
                        lemma_holds_extends(l4, l3, m);
                        lemma_holds_extends(l5, l4, m);
                    } else if tp == QUEEN {
                        assert(holds(l4, m));
                        lemma_holds_extends(l5, l4, m);
                    } else {
                        assert(tp == KING);
                        assert(holds(l5, m));
                    }
                    lemma_holds_extends(l6, l5, m);
                    lemma_holds_extends(fin, l6, m);
                }
            }
        }
    }
}

} // verus!
