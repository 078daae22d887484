//! Bitboards: 64-bit masks with one bit per square.

use crate::defs::{FILE_A, FILE_H};
use vstd::prelude::*;
use vstd::std_specs::bits::u64_trailing_zeros;

verus! {

/// A set of squares: bit `i` stands for square `i`.
pub type BitBoard = u64;

/// Whether square `sq` is a member of the bitboard `b`.
pub open spec fn bit_at(b: u64, sq: u8) -> bool {
    b & (1u64 << sq) != 0
}

/// `sq` is the lowest member of `b`.
pub open spec fn is_lowest(b: u64, sq: u8) -> bool {
    &&& sq < 64
    &&& bit_at(b, sq)
    &&& forall|j: u8| j < sq ==> !bit_at(b, j)
}

/// How adding and removing one square changes the members of a bitboard.
pub proof fn lemma_bit_ops()
    by (bit_vector)
    ensures
        forall|b: u64, sq: u8, i: u8|
            sq < 64 && i < 64 ==> (#[trigger] bit_at(b | (1u64 << sq), i) <==> (i == sq || bit_at(
                b,
                i,
            ))),
        forall|b: u64, sq: u8, i: u8|
            sq < 64 && i < 64 ==> (#[trigger] bit_at(b & !(1u64 << sq), i) <==> (i != sq && bit_at(
                b,
                i,
            ))),
        forall|sq: u8, i: u8| sq < 64 && i < 64 ==> (#[trigger] bit_at(1u64 << sq, i) <==> i == sq),
        forall|i: u8| i < 64 ==> !#[trigger] bit_at(0, i),
{
}

/// The members of a union, of an intersection and of a complement.
pub proof fn lemma_bit_logic()
    by (bit_vector)
    ensures
        forall|a: u64, b: u64, i: u8|
            i < 64 ==> (#[trigger] bit_at(a | b, i) <==> (bit_at(a, i) || bit_at(b, i))),
        forall|a: u64, b: u64, i: u8|
            i < 64 ==> (#[trigger] bit_at(a & b, i) <==> (bit_at(a, i) && bit_at(b, i))),
        forall|a: u64, i: u8| i < 64 ==> (#[trigger] bit_at(!a, i) <==> !bit_at(a, i)),
{
}

/// Where the members of a bitboard go when all of it is shifted by a pawn's
/// step: straight on by 8, to the capturing squares by 7 and 9, files at the
/// edge left behind.
pub proof fn lemma_shifts()
    by (bit_vector)
    ensures
        forall|x: u64, t: u8|
            t < 64 ==> (#[trigger] bit_at(x << 8, t) <==> (t >= 8 && bit_at(x, (t - 8) as u8))),
        forall|x: u64, t: u8|
            t < 64 ==> (#[trigger] bit_at(x >> 8, t) <==> (t < 56 && bit_at(x, (t + 8) as u8))),
        forall|x: u64, t: u8|
            t < 64 ==> (#[trigger] bit_at((x & !FILE_A) << 7, t) <==> (t >= 7 && (t
                - 7) as u8 % 8 != 0 && bit_at(x, (t - 7) as u8))),
        forall|x: u64, t: u8|
            t < 64 ==> (#[trigger] bit_at((x & !FILE_H) << 9, t) <==> (t >= 9 && (t
                - 9) as u8 % 8 != 7 && bit_at(x, (t - 9) as u8))),
        forall|x: u64, t: u8|
            t < 64 ==> (#[trigger] bit_at((x & !FILE_A) >> 9, t) <==> (t < 55 && (t
                + 9) as u8 % 8 != 0 && bit_at(x, (t + 9) as u8))),
        forall|x: u64, t: u8|
            t < 64 ==> (#[trigger] bit_at((x & !FILE_H) >> 7, t) <==> (t < 57 && (t
                + 7) as u8 % 8 != 7 && bit_at(x, (t + 7) as u8))),
{
}

/// The members of the masks that castling looks at.
pub proof fn lemma_castle_masks()
    by (bit_vector)
    ensures
        forall|t: u8| t < 64 ==> (#[trigger] bit_at(0x70, t) <==> 4 <= t <= 6),
        forall|t: u8| t < 64 ==> (#[trigger] bit_at(0x1C, t) <==> 2 <= t <= 4),
        forall|t: u8| t < 64 ==> (#[trigger] bit_at(0x7000000000000000, t) <==> 60 <= t <= 62),
        forall|t: u8| t < 64 ==> (#[trigger] bit_at(0x1C00000000000000, t) <==> 58 <= t <= 60),
        forall|t: u8| t < 64 ==> (#[trigger] bit_at(0x60, t) <==> 5 <= t <= 6),
        forall|t: u8| t < 64 ==> (#[trigger] bit_at(0x0E, t) <==> 1 <= t <= 3),
        forall|t: u8| t < 64 ==> (#[trigger] bit_at(0x6000000000000000, t) <==> 61 <= t <= 62),
        forall|t: u8| t < 64 ==> (#[trigger] bit_at(0x0E00000000000000, t) <==> 57 <= t <= 59),
{
}

/// The members of the second and the seventh rank.
pub proof fn lemma_rank_masks()
    by (bit_vector)
    ensures
        forall|t: u8| t < 64 ==> (#[trigger] bit_at(0x000000000000FF00, t) <==> 8 <= t < 16),
        forall|t: u8| t < 64 ==> (#[trigger] bit_at(0x00FF000000000000, t) <==> 48 <= t < 56),
{
}

/// Taking a member out makes a bitboard smaller.
pub proof fn lemma_clear_less(b: u64, sq: u8)
    by (bit_vector)
    requires
        sq < 64,
        bit_at(b, sq),
    ensures
        (b & !(1u64 << sq)) < b,
{
}

/// A bitboard with a member is not zero.
pub proof fn lemma_member_nonzero(b: u64, sq: u8)
    by (bit_vector)
    requires
        bit_at(b, sq),
    ensures
        b != 0,
{
}

/// Every nonzero bitboard has a lowest member, the number of its trailing zeros.
pub proof fn lemma_lowest(b: u64)
    requires
        b != 0,
    ensures
        is_lowest(b, u64_trailing_zeros(b) as u8),
        b & ((b - 1) as u64) == b & !(1u64 << (u64_trailing_zeros(b) as u8)),
{
    vstd::std_specs::bits::axiom_u64_trailing_zeros(b);
    let t64 = u64_trailing_zeros(b) as u64;
    assert((b >> t64) & 1 == 1 && (t64 == 0 || b << ((64 - t64) as u64) == 0) && t64 < 64 ==> (b & ((b
        - 1) as u64)) == b & !(1u64 << (t64 as u8)) && b & (1u64 << (t64 as u8)) != 0 && (forall|
        j: u8,
    |
        j < t64 ==> b & (1u64 << j) == 0)) by (bit_vector);
}

/// A bitboard is zero if and only if it has no member.
pub proof fn lemma_zero_iff_empty(b: u64)
    ensures
        b == 0 <==> forall|i: u8| i < 64 ==> !bit_at(b, i),
{
    lemma_bit_ops();
    if b != 0 {
        lemma_lowest(b);
    }
}

/// Two bitboards with the same members are equal.
pub proof fn lemma_bit_ext(a: u64, b: u64)
    requires
        forall|i: u8| i < 64 ==> bit_at(a, i) == bit_at(b, i),
    ensures
        a == b,
{
    if a != b {
        let x = a ^ b;
        assert(a != b ==> a ^ b != 0) by (bit_vector);
        lemma_lowest(x);
        let t = u64_trailing_zeros(x) as u8;
        assert(bit_at(x, t));
        assert(t < 64 && (a ^ b) & (1u64 << t) != 0 ==> ((a & (1u64 << t) != 0) != (b & (1u64 << t)
            != 0))) by (bit_vector);
        assert(bit_at(a, t) != bit_at(b, t));
    }
}

/// Operations on a single bitboard.
pub trait BitHelpers: Sized {
    /// The mask that the value stands for.
    spec fn mask(&self) -> u64;

    /// Adds square `sq`.
    fn set(&mut self, sq: u8)
        requires
            sq < 64,
        ensures
            final(self).mask() == old(self).mask() | (1u64 << sq),
    ;

    /// Removes square `sq`.
    fn clear(&mut self, sq: u8)
        requires
            sq < 64,
        ensures
            final(self).mask() == old(self).mask() & !(1u64 << sq),
    ;

    /// Tests square `sq`.
    fn chk(&self, sq: u8) -> (r: bool)
        requires
            sq < 64,
        ensures
            r == bit_at(self.mask(), sq),
    ;

    /// A one-shot walk over the members, lowest first.
    fn bits(&self) -> (r: BitRunner)
        ensures
            r.0 == self.mask(),
    ;
}

impl BitHelpers for u64 {
    open spec fn mask(&self) -> u64 {
        *self
    }

    fn set(&mut self, sq: u8) {
        *self |= 1u64 << sq;
    }

    fn clear(&mut self, sq: u8) {
        *self &= !(1u64 << sq);
    }

    fn chk(&self, sq: u8) -> (r: bool) {
        *self & (1u64 << sq) != 0
    }

    fn bits(&self) -> (r: BitRunner) {
        BitRunner(*self)
    }
}

/// The members of a bitboard that are still to be visited.
pub struct BitRunner(pub u64);

impl BitRunner {
    /// Takes the lowest remaining member out, if there is one.
    pub fn next(&mut self) -> (r: Option<u8>)
        ensures
            old(self).0 == 0 ==> r.is_none() && final(self).0 == 0,
            old(self).0 != 0 ==> r.is_some() && is_lowest(old(self).0, r.unwrap()) && final(self).0
                == old(self).0 & !(1u64 << r.unwrap()),
    {
        if self.0 != 0 {
            proof {
                lemma_lowest(self.0);
            }
            let n: u8 = self.0.trailing_zeros() as u8;
            self.0 &= self.0 - 1;
            Some(n)
        } else {
            None
        }
    }
}

} // verus!
