//! Pieces and castling rights.

use crate::defs::{lemma_piece_bits, spec_piece_id};
use vstd::prelude::*;

verus! {

/// A piece of some type and colour, or the marker of an empty square.
#[derive(Debug, Clone, Copy, PartialEq, Eq, Structural)]
pub struct Piece(pub u8);

impl Piece {
    /// One of the twelve pieces, as opposed to the empty marker.
    pub open spec fn is_piece(self) -> bool {
        self.0 < 12
    }

    /// A piece or the empty marker.
    pub open spec fn valid(self) -> bool {
        self.0 < 12 || self.0 == 0xFF
    }

    /// The type of a piece.
    pub open spec fn spec_type(self) -> u8 {
        self.0 / 2
    }

    /// The colour of a piece.
    pub open spec fn spec_color(self) -> u8 {
        self.0 % 2
    }

    /// The piece of type `tp` and colour `clr`.
    pub open spec fn of(tp: u8, clr: u8) -> Piece {
        Piece(spec_piece_id(tp, clr))
    }

    /// The marker of an empty square.
    pub fn none() -> (r: Self)
        ensures
            r == Piece(0xFF),
    {
        Self(0xFF)
    }

    /// The piece of type `tp` and colour `clr`.
    pub fn new(tp: u8, clr: u8) -> (r: Self)
        requires
            tp < 6,
            clr < 2,
        ensures
            r == Piece::of(tp, clr),
            r.is_piece(),
            r.spec_type() == tp,
            r.spec_color() == clr,
    {
        proof {
            lemma_piece_bits();
        }
        Self(tp << 1 | clr)
    }

    /// The type of the piece.
    pub fn get_type(&self) -> (r: u8)
        ensures
            r == self.spec_type(),
    {
        proof {
            lemma_piece_bits();
        }
        self.0 >> 1
    }

    /// The colour of the piece.
    pub fn get_color(&self) -> (r: u8)
        ensures
            r == self.spec_color(),
    {
        proof {
            lemma_piece_bits();
        }
        self.0 & 1
    }

    /// The index of the piece among the twelve pieces.
    pub fn id(&self) -> (r: u8)
        ensures
            r == self.0,
    {
        self.0
    }

    /// Whether this is a piece.
    pub fn is_some(&self) -> (r: bool)
        ensures
            r == (self.0 != 0xFF),
    {
        self.0 != 0xFF
    }

    /// Whether this is the marker of an empty square.
    pub fn is_none(&self) -> (r: bool)
        ensures
            r == (self.0 == 0xFF),
    {
        self.0 == 0xFF
    }
}

/// The four castling rights. Bit `c` is the king side of colour `c`, bit `2 + c` its queen side.
#[derive(Debug, Clone, Copy, PartialEq, Eq, Structural)]
pub struct CastlingPerm(pub u8);

/// The right that a letter of the castling field grants.
pub open spec fn castle_letter(c: char) -> Option<u8> {
    if c == 'K' {
        Some(1u8)
    } else if c == 'k' {
        Some(2u8)
    } else if c == 'Q' {
        Some(4u8)
    } else if c == 'q' {
        Some(8u8)
    } else {
        None
    }
}

/// The rights that a run of letters grants, if each of them is a castling letter.
pub open spec fn castle_letters(s: Seq<char>) -> Option<u8>
    decreases s.len(),
{
    if s.len() == 0 {
        Some(0u8)
    } else {
        match (castle_letters(s.drop_last()), castle_letter(s.last())) {
            (Some(a), Some(b)) => Some(a | b),
            _ => None,
        }
    }
}

/// The rights that a castling field grants: `-` for none, else letters of `KQkq`.
pub open spec fn parse_castling(s: Seq<char>) -> Option<u8> {
    if s =~= seq!['-'] {
        Some(0u8)
    } else {
        castle_letters(s)
    }
}

/// How revoking one right changes the bits of the rights.
pub proof fn lemma_castle_bits()
    by (bit_vector)
    ensures
        forall|x: u8, c: u8| c < 4 && x < 16 ==> #[trigger] (x & !(1u8 << c)) < 16,
        forall|x: u8, c: u8| c < 4 ==> #[trigger] (x & !(1u8 << c)) & (1u8 << c) == 0,
        forall|x: u8, c: u8, d: u8|
            c < 4 && d < 4 && c != d ==> #[trigger] ((x & !(1u8 << c)) & (1u8 << d)) == x & (1u8
                << d),
        forall|x: u8, y: u8| x < 16 && y < 16 ==> #[trigger] (x | y) < 16,
        forall|c: u8| c < 4 ==> 0u8 & #[trigger] (1u8 << c) == 0,
        forall|x: u8, y: u8| #[trigger] (x & !y) & y == 0,
        forall|x: u8, y: u8| #[trigger] (x & !y) & !x == 0,
{
}

impl CastlingPerm {
    /// Only the four rights are held.
    pub open spec fn wf(self) -> bool {
        self.0 < 16
    }

    /// The right of colour `c` to castle on the king's side.
    pub open spec fn spec_king(self, c: u8) -> bool {
        self.0 & (1u8 << c) != 0
    }

    /// The right of colour `c` to castle on the queen's side.
    pub open spec fn spec_queen(self, c: u8) -> bool {
        self.0 & (1u8 << ((2 + c) as u8)) != 0
    }

    /// The rights without the king-side right of colour `c`.
    pub open spec fn spec_dis_king(self, c: u8) -> CastlingPerm {
        CastlingPerm(self.0 & !(1u8 << c))
    }

    /// The rights without the queen-side right of colour `c`.
    pub open spec fn spec_dis_queen(self, c: u8) -> CastlingPerm {
        CastlingPerm(self.0 & !(1u8 << ((2 + c) as u8)))
    }

    /// The rights without those of colour `c`.
    pub open spec fn spec_dis_both(self, c: u8) -> CastlingPerm {
        self.spec_dis_king(c).spec_dis_queen(c)
    }

    /// Every right of `self` is a right of `other`.
    pub open spec fn within(self, other: CastlingPerm) -> bool {
        self.0 & !other.0 == 0
    }

    /// No rights.
    pub fn new() -> (r: Self)
        ensures
            r.0 == 0,
            r.wf(),
    {
        Self(0)
    }

    /// Whether colour `c` may castle on the king's side.
    pub fn king(&self, c: u8) -> (r: bool)
        requires
            c < 2,
        ensures
            r == self.spec_king(c),
    {
        self.0 & (1u8 << c) != 0
    }

    /// Whether colour `c` may castle on the queen's side.
    pub fn queen(&self, c: u8) -> (r: bool)
        requires
            c < 2,
        ensures
            r == self.spec_queen(c),
    {
        self.0 & (1u8 << (2 + c)) != 0
    }

    /// Whether colour `c` has any right left.
    pub fn any(&self, c: u8) -> (r: bool)
        requires
            c < 2,
        ensures
            r == (self.spec_king(c) || self.spec_queen(c)),
    {
        self.king(c) || self.queen(c)
    }

    /// Revokes the king-side right of colour `c`.
    pub fn dis_king(&mut self, c: u8)
        requires
            c < 2,
        ensures
            *final(self) == old(self).spec_dis_king(c),
            old(self).wf() ==> final(self).wf(),
            final(self).within(*old(self)),
    {
        proof {
            lemma_castle_bits();
        }
        self.0 &= !(1u8 << c);
    }

    /// Revokes the queen-side right of colour `c`.
    pub fn dis_queen(&mut self, c: u8)
        requires
            c < 2,
        ensures
            *final(self) == old(self).spec_dis_queen(c),
            old(self).wf() ==> final(self).wf(),
            final(self).within(*old(self)),
    {
        proof {
            lemma_castle_bits();
        }
        self.0 &= !(1u8 << (2 + c));
    }

    /// Revokes both rights of colour `c`.
    pub fn dis_both(&mut self, c: u8)
        requires
            c < 2,
        ensures
            *final(self) == old(self).spec_dis_both(c),
            old(self).wf() ==> final(self).wf(),
            final(self).within(*old(self)),
    {
        proof {
            lemma_castle_bits();
            let a = old(self).0;
            let x = 1u8 << c;
            let y = 1u8 << ((2 + c) as u8);
            assert(((a & !x) & !y) & !a == 0) by (bit_vector);
        }
        self.dis_king(c);
        self.dis_queen(c)
    }

    pub fn id(&self) -> (r: u8)
        ensures
            r == self.0,
    {
        self.0
    }

    /// Reads a castling field: `-`, or letters of `KQkq` in any order.
    pub fn from_str(s: &str) -> (r: Result<Self, ()>)
        ensures
            match r {
                Ok(c) => parse_castling(s@) == Some(c.0) && c.wf(),
                Err(_) => parse_castling(s@).is_none(),
            },
    {
        let n: usize = s.unicode_len();
        if n == 1 && s.get_char(0) == '-' {
            return Ok(Self(0));
        }
        let mut bits: u8 = 0;
        let mut i: usize = 0;
        proof {
            if s@ =~= seq!['-'] {
                assert(s@.len() == 1 && s@[0] == '-');
            }
        }
        while i < n
            invariant
                i <= n,
                n == s@.len(),
                bits < 16,
                !(s@ =~= seq!['-']),
                castle_letters(s@.take(i as int)) == Some(bits),
            decreases n - i,
        {
            let ch: char = s.get_char(i);
            let bit: u8 = if ch == 'K' {
                1
            } else if ch == 'k' {
                2
            } else if ch == 'Q' {
                4
            } else if ch == 'q' {
                8
            } else {
                proof {
                    lemma_letters_fail(s@, i as int);
                }
                return Err(());
            };
            proof {
                lemma_castle_bits();
                assert(s@.take(i + 1).drop_last() =~= s@.take(i as int));
            }
            bits |= bit;
            i += 1;
        }
        proof {
            assert(s@.take(n as int) =~= s@);
        }
        Ok(Self(bits))
    }

    /// The castling field that names the rights `bits`.
    pub open spec fn text(bits: u8) -> Seq<char> {
        let k = if bits & 1 != 0 {
            seq!['K']
        } else {
            seq![]
        };
        let q = if bits & 4 != 0 {
            seq!['Q']
        } else {
            seq![]
        };
        let bk = if bits & 2 != 0 {
            seq!['k']
        } else {
            seq![]
        };
        let bq = if bits & 8 != 0 {
            seq!['q']
        } else {
            seq![]
        };
        if bits == 0 {
            seq!['-']
        } else {
            k + q + bk + bq
        }
    }

    /// Writes the castling field: the letters of the rights held, or `-`.
    pub fn to_string(&self) -> (r: String)
        ensures
            r@ =~= Self::text(self.0),
    {
        proof {
            assert(0u8 & 1 == 0 && 0u8 & 2 == 0 && 0u8 & 4 == 0 && 0u8 & 8 == 0) by (bit_vector);
        }
        let mut out = String::new();
        if self.0 & 1 != 0 {
            out.push('K');
        }
        if self.0 & 4 != 0 {
            out.push('Q');
        }
        if self.0 & 2 != 0 {
            out.push('k');
        }
        if self.0 & 8 != 0 {
            out.push('q');
        }
        if self.0 == 0 {
            out.push('-');
        }
        out
    }
}

/// Revoking a right leaves the other rights as they were and the set in order.
pub proof fn lemma_revoke(cas: CastlingPerm, c: u8)
    requires
        c < 2,
        cas.wf(),
    ensures
        cas.spec_dis_king(c).wf(),
        cas.spec_dis_queen(c).wf(),
        cas.spec_dis_both(c).wf(),
        !cas.spec_dis_king(c).spec_king(c),
        !cas.spec_dis_queen(c).spec_queen(c),
        cas.spec_dis_king(c).spec_queen(c) == cas.spec_queen(c),
        cas.spec_dis_queen(c).spec_king(c) == cas.spec_king(c),
        forall|d: u8|
            d < 2 && d != c ==> cas.spec_dis_king(c).spec_king(d) == cas.spec_king(d)
                && cas.spec_dis_king(c).spec_queen(d) == cas.spec_queen(d) && cas.spec_dis_queen(
                c,
            ).spec_king(d) == cas.spec_king(d) && cas.spec_dis_queen(c).spec_queen(d)
                == cas.spec_queen(d),
{
    lemma_castle_bits();
}

/// A run of letters with a letter that grants nothing grants nothing.
pub proof fn lemma_letters_fail(s: Seq<char>, i: int)
    requires
        0 <= i < s.len(),
        castle_letter(s[i]).is_none(),
    ensures
        castle_letters(s).is_none(),
    decreases s.len(),
{
    if i == s.len() - 1 {
    } else {
        lemma_letters_fail(s.drop_last(), i);
    }
}

} // verus!
