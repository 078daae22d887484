//! Reading a position from its text: piece placement from the eighth rank
//! down, the side to move, the castling rights, the en-passant square and
//! the half-move clock.

use crate::defs::{BISHOP, BLACK, KING, KNIGHT, NS, PAWN, QUEEN, ROOK, WHITE};
use crate::attack::lemma_one_king_bits;
use crate::bitbrd::lemma_bit_ops;
use crate::defs::KINGX;
use crate::model::{
    empty_sq, ep_ok, one_king, other, playable, sound,
};
use crate::pos::{lemma_empty_material, Position};

use crate::piece::{parse_castling, CastlingPerm, Piece};
use vstd::prelude::*;

verus! {

/// The largest half-move clock that a position text may give.
pub const MAX_CLOCK: u16 = 64511;

/// The characters that part the words of a text.
pub open spec fn is_space(c: char) -> bool {
    c == ' ' || c == '\t' || c == '\n' || c == '\r'
}

/// The first index from `i` on that holds no blank, or the length.
pub open spec fn skip_spaces(s: Seq<char>, i: int) -> int
    decreases s.len() - i,
{
    if 0 <= i < s.len() && is_space(s[i]) {
        skip_spaces(s, i + 1)
    } else {
        i
    }
}

/// The first index from `i` on that holds a blank, or the length.
pub open spec fn skip_word(s: Seq<char>, i: int) -> int
    decreases s.len() - i,
{
    if 0 <= i < s.len() && !is_space(s[i]) {
        skip_word(s, i + 1)
    } else {
        i
    }
}

/// Where the `k`-th word of the text starts.
pub open spec fn field_start(s: Seq<char>, k: nat) -> int
    decreases k,
{
    if k == 0 {
        skip_spaces(s, 0)
    } else {
        skip_spaces(s, skip_word(s, field_start(s, (k - 1) as nat)))
    }
}

/// The `k`-th word of the text, words being parted by blanks; empty if there are fewer.
pub open spec fn field(s: Seq<char>, k: nat) -> Seq<char> {
    s.subrange(field_start(s, k), skip_word(s, field_start(s, k)))
}

/// Skipping blanks or a word stays within the text, and a word that starts has an end beyond its start.
pub proof fn lemma_skips(s: Seq<char>, i: int)
    requires
        0 <= i <= s.len(),
    ensures
        i <= skip_spaces(s, i) <= s.len(),
        i <= skip_word(s, i) <= s.len(),
        i < s.len() && !is_space(s[i]) ==> skip_word(s, i) > i,
        skip_spaces(s, i) < s.len() ==> !is_space(s[skip_spaces(s, i)]) && skip_word(
            s,
            skip_spaces(s, i),
        ) > skip_spaces(s, i),
    decreases s.len() - i,
{
    if i < s.len() {
        lemma_skips(s, i + 1);
    }
}

/// Every word lies within the text.
pub proof fn lemma_field_bounds(s: Seq<char>, k: nat)
    ensures
        0 <= field_start(s, k) <= skip_word(s, field_start(s, k)) <= s.len(),
    decreases k,
{
    if k == 0 {
        lemma_skips(s, 0);
        lemma_skips(s, skip_spaces(s, 0));
    } else {
        lemma_field_bounds(s, (k - 1) as nat);
        let e = skip_word(s, field_start(s, (k - 1) as nat));
        lemma_skips(s, e);
        lemma_skips(s, skip_spaces(s, e));
    }
}

/// The piece that a letter of the placement names.
pub open spec fn piece_letter(c: char) -> Option<Piece> {
    if c == 'P' {
        Some(Piece::of(PAWN, WHITE))
    } else if c == 'N' {
        Some(Piece::of(KNIGHT, WHITE))
    } else if c == 'B' {
        Some(Piece::of(BISHOP, WHITE))
    } else if c == 'R' {
        Some(Piece::of(ROOK, WHITE))
    } else if c == 'Q' {
        Some(Piece::of(QUEEN, WHITE))
    } else if c == 'K' {
        Some(Piece::of(KING, WHITE))
    } else if c == 'p' {
        Some(Piece::of(PAWN, BLACK))
    } else if c == 'n' {
        Some(Piece::of(KNIGHT, BLACK))
    } else if c == 'b' {
        Some(Piece::of(BISHOP, BLACK))
    } else if c == 'r' {
        Some(Piece::of(ROOK, BLACK))
    } else if c == 'q' {
        Some(Piece::of(QUEEN, BLACK))
    } else if c == 'k' {
        Some(Piece::of(KING, BLACK))
    } else {
        None
    }
}

/// The value of a decimal digit.
pub open spec fn digit(c: char) -> Option<int> {
    if c == '0' {
        Some(0int)
    } else if c == '1' {
        Some(1int)
    } else if c == '2' {
        Some(2int)
    } else if c == '3' {
        Some(3int)
    } else if c == '4' {
        Some(4int)
    } else if c == '5' {
        Some(5int)
    } else if c == '6' {
        Some(6int)
    } else if c == '7' {
        Some(7int)
    } else if c == '8' {
        Some(8int)
    } else if c == '9' {
        Some(9int)
    } else {
        None
    }
}

/// `n` empty squares.
pub open spec fn blanks(n: int) -> Seq<Piece> {
    Seq::new(n as nat, |i: int| empty_sq())
}

/// What the placement text `t` puts on the squares, in the order of the
/// text: a letter is a piece, a digit from 1 to 8 that many empty squares,
/// and a stroke ends a rank that is full. Nothing if the text breaks these rules.
pub open spec fn expand(t: Seq<char>) -> Option<Seq<Piece>>
    decreases t.len(),
{
    if t.len() == 0 {
        Some(Seq::<Piece>::empty())
    } else {
        let c = t.last();
        match expand(t.drop_last()) {
            None => None,
            Some(r) => {
                if c == '/' {
                    if 0 < r.len() < 64 && r.len() % 8 == 0 && t.drop_last().last() != '/' {
                        Some(r)
                    } else {
                        None
                    }
                } else if r.len() > 0 && r.len() % 8 == 0 && t.drop_last().last() != '/' {
                    None
                } else if piece_letter(c).is_some() {
                    Some(r.push(piece_letter(c).unwrap()))
                } else if digit(c).is_some() && 1 <= digit(c).unwrap() <= 8 && r.len() % 8 + digit(
                    c,
                ).unwrap() <= 8 {
                    Some(r + blanks(digit(c).unwrap()))
                } else {
                    None
                }
            },
        }
    }
}

/// The place in the order of the text of the square `sq`, and the other way round.
pub open spec fn fen_index(sq: int) -> int {
    (7 - sq / 8) * 8 + sq % 8
}

/// The board that a placement text describes, if it names exactly 64 squares.
pub open spec fn placement(t: Seq<char>) -> Option<Seq<Piece>> {
    match expand(t) {
        Some(r) => if r.len() == 64 {
            Some(Seq::new(64, |sq: int| r[fen_index(sq)]))
        } else {
            None
        },
        None => None,
    }
}

/// The number that a run of decimal digits writes, if it is one and not above `MAX_CLOCK`.
pub open spec fn number(t: Seq<char>) -> Option<int>
    decreases t.len(),
{
    if t.len() == 0 {
        None
    } else if t.len() == 1 {
        digit(t[0])
    } else {
        match (number(t.drop_last()), digit(t.last())) {
            (Some(a), Some(b)) => if a * 10 + b <= MAX_CLOCK {
                Some(a * 10 + b)
            } else {
                None
            },
            _ => None,
        }
    }
}

/// The file that a letter from `a` to `h` names.
pub open spec fn file_letter(c: char) -> Option<int> {
    if c == 'a' {
        Some(0int)
    } else if c == 'b' {
        Some(1int)
    } else if c == 'c' {
        Some(2int)
    } else if c == 'd' {
        Some(3int)
    } else if c == 'e' {
        Some(4int)
    } else if c == 'f' {
        Some(5int)
    } else if c == 'g' {
        Some(6int)
    } else if c == 'h' {
        Some(7int)
    } else {
        None
    }
}

/// The square that a text such as `e3` names; `NS` for `-`.
pub open spec fn square_name(t: Seq<char>) -> Option<u8> {
    if t =~= seq!['-'] {
        Some(NS)
    } else if t.len() == 2 && file_letter(t[0]).is_some() && digit(t[1]).is_some() && 1 <= digit(
        t[1],
    ).unwrap() <= 8 {
        Some((file_letter(t[0]).unwrap() + 8 * (digit(t[1]).unwrap() - 1)) as u8)
    } else {
        None
    }
}

/// The side that the text names: `w` or `b`.
pub open spec fn side_name(t: Seq<char>) -> Option<u8> {
    if t =~= seq!['w'] {
        Some(WHITE)
    } else if t =~= seq!['b'] {
        Some(BLACK)
    } else {
        None
    }
}

/// What a position text says.
pub ghost struct FenModel {
    pub board: Seq<Piece>,
    pub turn: u8,
    pub cas: u8,
    pub ep: u8,
    pub fty: u16,
}

/// What the position text `s` says: the first four words are the
/// placement, the side to move, the castling rights and the en-passant
/// square; the fifth, if there is one, the half-move clock. What follows is
/// not looked at.
pub open spec fn parse_fen(s: Seq<char>) -> Option<FenModel> {
    let clock = if field(s, 4).len() == 0 {
        Some(0int)
    } else {
        number(field(s, 4))
    };
    match (
        placement(field(s, 0)),
        side_name(field(s, 1)),
        parse_castling(field(s, 2)),
        square_name(field(s, 3)),
        clock,
    ) {
        (Some(board), Some(turn), Some(cas), Some(ep), Some(fty)) => if field(s, 2).len() > 0 {
            Some(FenModel { board, turn, cas, ep, fty: fty as u16 })
        } else {
            None
        },
        _ => None,
    }
}

/// What a position text says, as plain values.
pub struct FenData {
    pub board: [Piece; 64],
    pub turn: u8,
    pub cas: CastlingPerm,
    pub ep: u8,
    pub fty: u16,
}

impl FenData {
    /// The same values, with the board as a sequence.
    pub open spec fn view(&self) -> FenModel {
        FenModel {
            board: self.board@,
            turn: self.turn,
            cas: self.cas.0,
            ep: self.ep,
            fty: self.fty,
        }
    }
}

/// A text that fails up to some point fails as a whole.
pub proof fn lemma_expand_prefix(t: Seq<char>, k: int)
    requires
        0 <= k <= t.len(),
        expand(t.take(k)).is_none(),
    ensures
        expand(t).is_none(),
    decreases t.len() - k,
{
    if k < t.len() {
        assert(t.take(k + 1).drop_last() =~= t.take(k));
        lemma_expand_prefix(t, k + 1);
    } else {
        assert(t.take(k) =~= t);
    }
}

/// A run of digits that fails up to some point fails as a whole.
pub proof fn lemma_number_prefix(t: Seq<char>, k: int)
    requires
        1 <= k <= t.len(),
        number(t.take(k)).is_none(),
    ensures
        number(t).is_none(),
    decreases t.len() - k,
{
    if k < t.len() {
        assert(t.take(k + 1).drop_last() =~= t.take(k));
        lemma_number_prefix(t, k + 1);
    } else {
        assert(t.take(k) =~= t);
    }
}

/// The characters of a string.
pub fn chars_of(s: &str) -> (v: Vec<char>)
    ensures
        v@ == s@,
{
    let n: usize = s.unicode_len();
    let mut v: Vec<char> = Vec::new();
    let mut i: usize = 0;
    while i < n
        invariant
            i <= n,
            n == s@.len(),
            v@ == s@.take(i as int),
        decreases n - i,
    {
        v.push(s.get_char(i));
        proof {
            assert(s@.take(i + 1) =~= s@.take(i as int).push(s@[i as int]));
        }
        i += 1;
    }
    proof {
        assert(s@.take(n as int) =~= s@);
    }
    v
}

fn blank(c: char) -> (r: bool)
    ensures
        r == is_space(c),
{
    c == ' ' || c == '\t' || c == '\n' || c == '\r'
}

/// The bounds of the word that starts at or after `i`.
pub fn next_field(s: &Vec<char>, i: usize) -> (r: (usize, usize))
    requires
        i <= s.len(),
    ensures
        r.0 == skip_spaces(s@, i as int),
        r.1 == skip_word(s@, r.0 as int),
        i <= r.0 <= r.1 <= s.len(),
{
    let mut a: usize = i;
    while a < s.len() && blank(s[a])
        invariant
            i <= a <= s.len(),
            skip_spaces(s@, i as int) == skip_spaces(s@, a as int),
        decreases s.len() - a,
    {
        a += 1;
    }
    let mut b: usize = a;
    while b < s.len() && !blank(s[b])
        invariant
            a <= b <= s.len(),
            skip_word(s@, a as int) == skip_word(s@, b as int),
        decreases s.len() - b,
    {
        b += 1;
    }
    (a, b)
}

fn letter_piece(c: char) -> (r: Option<Piece>)
    ensures
        r == piece_letter(c),
{
    if c == 'P' {
        Some(Piece::new(PAWN, WHITE))
    } else if c == 'N' {
        Some(Piece::new(KNIGHT, WHITE))
    } else if c == 'B' {
        Some(Piece::new(BISHOP, WHITE))
    } else if c == 'R' {
        Some(Piece::new(ROOK, WHITE))
    } else if c == 'Q' {
        Some(Piece::new(QUEEN, WHITE))
    } else if c == 'K' {
        Some(Piece::new(KING, WHITE))
    } else if c == 'p' {
        Some(Piece::new(PAWN, BLACK))
    } else if c == 'n' {
        Some(Piece::new(KNIGHT, BLACK))
    } else if c == 'b' {
        Some(Piece::new(BISHOP, BLACK))
    } else if c == 'r' {
        Some(Piece::new(ROOK, BLACK))
    } else if c == 'q' {
        Some(Piece::new(QUEEN, BLACK))
    } else if c == 'k' {
        Some(Piece::new(KING, BLACK))
    } else {
        None
    }
}

fn digit_value(c: char) -> (r: Option<u8>)
    ensures
        match r {
            Some(d) => digit(c) == Some(d as int),
            None => digit(c).is_none(),
        },
{
    if c == '0' {
        Some(0)
    } else if c == '1' {
        Some(1)
    } else if c == '2' {
        Some(2)
    } else if c == '3' {
        Some(3)
    } else if c == '4' {
        Some(4)
    } else if c == '5' {
        Some(5)
    } else if c == '6' {
        Some(6)
    } else if c == '7' {
        Some(7)
    } else if c == '8' {
        Some(8)
    } else if c == '9' {
        Some(9)
    } else {
        None
    }
}

fn letter_file(c: char) -> (r: Option<u8>)
    ensures
        match r {
            Some(d) => file_letter(c) == Some(d as int),
            None => file_letter(c).is_none(),
        },
{
    if c == 'a' {
        Some(0)
    } else if c == 'b' {
        Some(1)
    } else if c == 'c' {
        Some(2)
    } else if c == 'd' {
        Some(3)
    } else if c == 'e' {
        Some(4)
    } else if c == 'f' {
        Some(5)
    } else if c == 'g' {
        Some(6)
    } else if c == 'h' {
        Some(7)
    } else {
        None
    }
}

/// Reads the piece placement from the word `s[start..end]`.
#[verifier::rlimit(50)]
pub fn parse_placement(s: &Vec<char>, start: usize, end: usize) -> (r: Option<[Piece; 64]>)
    requires
        start <= end <= s.len(),
    ensures
        match r {
            Some(b) => placement(s@.subrange(start as int, end as int)) == Some(b@),
            None => placement(s@.subrange(start as int, end as int)).is_none(),
        },
{
    let ghost t = s@.subrange(start as int, end as int);
    let mut board: [Piece; 64] = [Piece::none(); 64];
    let mut n: usize = 0;
    let mut i: usize = start;
    let mut after_stroke: bool = false;
    let ghost mut row: Seq<Piece> = Seq::empty();
    while i < end
        invariant
            start <= i <= end <= s.len(),
            t == s@.subrange(start as int, end as int),
            expand(t.take(i - start)) == Some(row),
            row.len() == n,
            n <= 64,
            after_stroke == (i > start && s[i - 1] == '/'),
            forall|j: int| 0 <= j < n ==> board[fen_index(j)] == row[j],
            forall|j: int| n <= j < 64 ==> board[fen_index(j)] == empty_sq(),
        decreases end - i,
    {
        let c: char = s[i];
        let ghost k = i - start;
        proof {
            assert(t.take(k + 1).drop_last() =~= t.take(k));
            assert(t.take(k + 1).last() == c);
            if k > 0 {
                assert(t.take(k).last() == s[i - 1]);
            }
        }
        let full: bool = n > 0 && n % 8 == 0 && !after_stroke;
        if c == '/' {
            if !(full && n < 64) {
                proof {
                    lemma_expand_prefix(t, k + 1);
                }
                return None;
            }
        } else if full {
            proof {
                lemma_expand_prefix(t, k + 1);
            }
            return None;
        } else {
            match letter_piece(c) {
                Some(p) => {
                    proof {
                        assert(n < 64) by {
                            if n == 64 {
                                assert(after_stroke);
                                assert(t.take(k).last() == '/');
                                assert(t.take(k).drop_last() =~= t.take(k - 1));
                            }
                        }
                    }
                    if n >= 64 {
                        return None;
                    }
                    board[(7 - n / 8) * 8 + n % 8] = p;
                    proof {
                        row = row.push(p);
                    }
                    n += 1;
                },
                None => {
                    let d: u8 = match digit_value(c) {
                        Some(d) => d,
                        None => {
                            proof {
                                lemma_expand_prefix(t, k + 1);
                            }
                            return None;
                        },
                    };
                    if d < 1 || d > 8 || n % 8 + d as usize > 8 {
                        proof {
                            lemma_expand_prefix(t, k + 1);
                        }
                        return None;
                    }
                    proof {
                        assert(n < 64) by {
                            if n == 64 {
                                assert(after_stroke);
                                assert(t.take(k).last() == '/');
                                assert(t.take(k).drop_last() =~= t.take(k - 1));
                            }
                        }
                        row = row + blanks(d as int);
                    }
                    if n >= 64 {
                        return None;
                    }
                    n += d as usize;
                },
            }
        }
        after_stroke = c == '/';
        i += 1;
    }
    proof {
        assert(t.take(end - start) =~= t);
    }
    if n != 64 {
        return None;
    }
    proof {
        assert(board@ =~= Seq::new(64, |sq: int| row[fen_index(sq)])) by {
            assert forall|sq: int| 0 <= sq < 64 implies board@[sq] == row[fen_index(sq)] by {
                let j = fen_index(sq);
                assert(fen_index(j) == sq);
            }
        }
    }
    Some(board)
}

/// Reads a half-move clock from the word `s[start..end]`.
pub fn parse_number(s: &Vec<char>, start: usize, end: usize) -> (r: Option<u16>)
    requires
        start < end <= s.len(),
    ensures
        match r {
            Some(v) => number(s@.subrange(start as int, end as int)) == Some(v as int),
            None => number(s@.subrange(start as int, end as int)).is_none(),
        },
{
    let ghost t = s@.subrange(start as int, end as int);
    let mut v: u32 = match digit_value(s[start]) {
        Some(d) => d as u32,
        None => {
            proof {
                assert(t.take(1) =~= seq![s@[start as int]]);
                lemma_number_prefix(t, 1);
            }
            return None;
        },
    };
    let mut i: usize = start + 1;
    proof {
        assert(t.take(1) =~= seq![s@[start as int]]);
    }
    while i < end
        invariant
            start < i <= end <= s.len(),
            t == s@.subrange(start as int, end as int),
            number(t.take(i - start)) == Some(v as int),
            v <= MAX_CLOCK,
        decreases end - i,
    {
        let ghost k = i - start;
        proof {
            assert(t.take(k + 1).drop_last() =~= t.take(k));
            assert(t.take(k + 1).last() == s[i as int]);
        }
        let d: u8 = match digit_value(s[i]) {
            Some(d) => d,
            None => {
                proof {
                    lemma_number_prefix(t, k + 1);
                }
                return None;
            },
        };
        let w: u32 = v * 10 + d as u32;
        if w > MAX_CLOCK as u32 {
            proof {
                lemma_number_prefix(t, k + 1);
            }
            return None;
        }
        v = w;
        i += 1;
    }
    proof {
        assert(t.take(end - start) =~= t);
    }
    Some(v as u16)
}

/// Reads a whole position text.
pub fn parse(s: &Vec<char>) -> (r: Option<FenData>)
    ensures
        match r {
            Some(d) => parse_fen(s@) == Some(d@) && d.cas.wf() && d.fty <= MAX_CLOCK,
            None => parse_fen(s@).is_none(),
        },
{
    proof {
        reveal_with_fuel(field_start, 5);
    }
    let (a0, b0) = next_field(s, 0);
    let (a1, b1) = next_field(s, b0);
    let (a2, b2) = next_field(s, b1);
    let (a3, b3) = next_field(s, b2);
    let (a4, b4) = next_field(s, b3);
    proof {
        assert(a0 == field_start(s@, 0));
        assert(a1 == field_start(s@, 1));
        assert(a2 == field_start(s@, 2));
        assert(a3 == field_start(s@, 3));
        assert(a4 == field_start(s@, 4));
    }
    let board = match parse_placement(s, a0, b0) {
        Some(b) => b,
        None => {
            return None;
        },
    };
    let turn: u8 = if b1 - a1 == 1 && s[a1] == 'w' {
        WHITE
    } else if b1 - a1 == 1 && s[a1] == 'b' {
        BLACK
    } else {
        proof {
            let f = field(s@, 1);
            if f =~= seq!['w'] {
                assert(f.len() == 1 && f[0] == 'w');
            }
            if f =~= seq!['b'] {
                assert(f.len() == 1 && f[0] == 'b');
            }
        }
        return None;
    };
    if a2 == b2 {
        return None;
    }
    let mut word: String = String::new();
    let mut i: usize = a2;
    while i < b2
        invariant
            a2 <= i <= b2 <= s.len(),
            word@ == s@.subrange(a2 as int, i as int),
        decreases b2 - i,
    {
        word.push(s[i]);
        proof {
            assert(s@.subrange(a2 as int, i + 1) =~= s@.subrange(a2 as int, i as int).push(s@[i as int]));
        }
        i += 1;
    }
    let cas = match CastlingPerm::from_str(word.as_str()) {
        Ok(c) => c,
        Err(_) => {
            return None;
        },
    };
    let ep: u8 = if b3 - a3 == 1 && s[a3] == '-' {
        NS
    } else if b3 - a3 == 2 {
        let f: u8 = match letter_file(s[a3]) {
            Some(f) => f,
            None => {
                proof {
                    let t = field(s@, 3);
                    assert(!(t =~= seq!['-']));
                }
                return None;
            },
        };
        let r: u8 = match digit_value(s[a3 + 1]) {
            Some(r) => r,
            None => {
                proof {
                    let t = field(s@, 3);
                    assert(!(t =~= seq!['-']));
                }
                return None;
            },
        };
        if r < 1 || r > 8 {
            proof {
                let t = field(s@, 3);
                assert(!(t =~= seq!['-']));
            }
            return None;
        }
        proof {
            let t = field(s@, 3);
            assert(!(t =~= seq!['-']));
        }
        f + 8 * (r - 1)
    } else {
        proof {
            let t = field(s@, 3);
            if t =~= seq!['-'] {
                assert(t.len() == 1 && t[0] == '-');
            }
        }
        return None;
    };
    let fty: u16 = if a4 == b4 {
        0
    } else {
        match parse_number(s, a4, b4) {
            Some(v) => v,
            None => {
                return None;
            },
        }
    };
    proof {
        let f1 = field(s@, 1);
        if turn == WHITE {
            assert(f1 =~= seq!['w']);
        } else {
            assert(f1 =~= seq!['b']);
            assert(f1[0] == 'b');
            assert(!(f1 =~= seq!['w']));
        }
        let f3 = field(s@, 3);
        if ep == NS {
            assert(f3 =~= seq!['-']);
        }
        assert(placement(field(s@, 0)) == Some(board@));
        assert(side_name(f1) == Some(turn));
        assert(parse_castling(field(s@, 2)) == Some(cas.0));
        assert(square_name(f3) == Some(ep));
        assert(field(s@, 4).len() == 0 <==> a4 == b4);
        assert(field(s@, 4).len() != 0 ==> number(field(s@, 4)) == Some(fty as int));
    }
    Some(FenData { board, turn, cas, ep, fty })
}

/// Every square that a placement text names holds a piece or nothing.
pub proof fn lemma_expand_valid(t: Seq<char>)
    requires
        expand(t).is_some(),
    ensures
        forall|j: int| 0 <= j < expand(t).unwrap().len() ==> (#[trigger] expand(t).unwrap()[j]).valid(),
    decreases t.len(),
{
    if t.len() > 0 {
        lemma_expand_valid(t.drop_last());
    }
}

/// What a position text says can be played from: each side has exactly
/// one king. Castling rights without king and rook at home, an en-passant
/// square without the pawn that made it and a check against the side that
/// is not to move are taken as they are written; the moves they would
/// allow are never offered.
pub open spec fn fair(d: FenModel) -> bool {
    &&& d.board.len() == 64
    &&& d.turn < 2
    &&& d.cas < 16
    &&& d.fty <= MAX_CLOCK
    &&& one_king(d.board, WHITE)
    &&& one_king(d.board, BLACK)
    &&& (d.ep == NS || d.ep < 64)
}

impl Position {
    /// The position shows what the text said.
    pub open spec fn shows(&self, d: FenModel) -> bool {
        &&& self.board@ == d.board
        &&& self.turn == d.turn
        &&& self.cas.0 == d.cas
        &&& self.ep == d.ep
        &&& self.fty == d.fty
        &&& self.hist_ply == 0
    }

    /// Whether the en-passant square fits the board.
    pub fn ep_fits(&self) -> (r: bool)
        requires
            self.turn < 2,
            forall|i: int| 0 <= i < 64 ==> (#[trigger] self.board[i]).valid(),
        ensures
            r == ep_ok(self.board@, self.turn, self.ep),
    {
        let ep: u8 = self.ep;
        if ep == NS {
            return true;
        }
        if ep >= 64 {
            return false;
        }
        if self.turn == WHITE {
            ep / 8 == 5 && self.board[ep as usize].is_none() && self.board[(ep - 8) as usize]
                == Piece::new(PAWN, BLACK)
        } else {
            ep / 8 == 2 && self.board[ep as usize].is_none() && self.board[(ep + 8) as usize]
                == Piece::new(PAWN, WHITE)
        }
    }

    /// Sets the position up as `d` says, if it can be played from, and
    /// tells whether it did. The undo stack starts empty.
    #[verifier::rlimit(50)]
    pub fn set_up(&mut self, d: &FenData) -> (ok: bool)
        requires
            old(self).consistent(),
            forall|i: int| 0 <= i < 64 ==> (#[trigger] d.board[i]).valid(),
            d.turn < 2,
            d.cas.wf(),
            d.fty <= MAX_CLOCK,
        ensures
            ok == fair(d@),
            ok ==> final(self).wf() && final(self).shows(d@) && final(self).same_scratch(old(self)),
            !ok ==> *final(self) == *old(self),
    {
        let board = self.board;
        let pieces = self.pieces;
        let occupied = self.occupied;
        let material = self.material;
        let (turn, ep, fty, hist_ply): (u8, u8, u16, u16) = (
            self.turn,
            self.ep,
            self.fty,
            self.hist_ply,
        );
        let cas = self.cas;
        let key: u64 = self.key;
        self.board = [Piece::none(); 64];
        self.pieces = [[0u64; 6]; 2];
        self.occupied = [0u64; 2];
        self.material = [0i32; 2];
        proof {
            lemma_bit_ops();
            lemma_empty_material(self.board@, 0, 64);
            lemma_empty_material(self.board@, 1, 64);
        }
        let mut sq: u8 = 0;
        while sq < 64
            invariant
                sq <= 64,
                self.consistent(),
                forall|i: int| 0 <= i < 64 ==> (#[trigger] d.board[i]).valid(),
                forall|i: int| 0 <= i < sq ==> self.board[i] == d.board[i],
                forall|i: int| sq <= i < 64 ==> self.board[i] == empty_sq(),
                self.hist == old(self).hist,
                self.same_scratch(old(self)),
            decreases 64 - sq,
        {
            let p = d.board[sq as usize];
            if p.is_some() {
                self.add_piece(p.get_color() as usize, p.get_type() as usize, sq);
            }
            sq += 1;
        }
        self.turn = d.turn;
        self.cas = d.cas;
        self.ep = d.ep;
        self.fty = d.fty;
        self.hist_ply = 0;
        proof {
            assert(self.board@ =~= d.board@);
            lemma_one_king_bits(self, 0);
            lemma_one_king_bits(self, 1);
        }
        let wk: u64 = self.pieces[0][KINGX];
        let bk: u64 = self.pieces[1][KINGX];
        let ok: bool = wk != 0 && wk & (wk - 1) == 0 && bk != 0 && bk & (bk - 1) == 0 && (self.ep
            == NS || self.ep < 64);
        if ok {
            self.key = self.zobrist.gen_key(self);
            proof {
                assert(self.hist@.take(0).len() == 0);
                assert(sound(self.state()));
                assert(playable(self.state()));
            }
            true
        } else {
            self.board = board;
            self.pieces = pieces;
            self.occupied = occupied;
            self.material = material;
            self.turn = turn;
            self.ep = ep;
            self.fty = fty;
            self.hist_ply = hist_ply;
            self.cas = cas;
            self.key = key;
            false
        }
    }

    /// Sets the position up from its text and tells whether the text was
    /// in order and described a position that can be played from. If not,
    /// the position stays as it was.
    pub fn load_fen(&mut self, fen: &str) -> (ok: bool)
        requires
            old(self).consistent(),
        ensures
            ok == (parse_fen(fen@).is_some() && fair(parse_fen(fen@).unwrap())),
            ok ==> final(self).wf() && final(self).shows(parse_fen(fen@).unwrap()),
            ok ==> final(self).same_scratch(old(self)),
            !ok ==> *final(self) == *old(self),
    {
        let chars = chars_of(fen);
        match parse(&chars) {
            Some(d) => {
                proof {
                    let t = field(fen@, 0);
                    lemma_expand_valid(t);
                    assert forall|i: int| 0 <= i < 64 implies (#[trigger] d.board[i]).valid() by {
                        assert(d.board@[i] == expand(t).unwrap()[fen_index(i)]);
                    }
                }
                self.set_up(&d)
            },
            None => false,
        }
    }

    /// A new position set up from its text, if the text is in order and
    /// describes a position that can be played from.
    pub fn from_fen(fen: &str) -> (r: Option<Self>)
        ensures
            r.is_some() == (parse_fen(fen@).is_some() && fair(parse_fen(fen@).unwrap())),
            r.is_some() ==> r.unwrap().wf() && r.unwrap().shows(parse_fen(fen@).unwrap()) && r.unwrap().ply
                == 0,
            r.is_some() ==> r.unwrap().fresh_scratch(),
    {
        let mut inst = Self::new();
        if inst.load_fen(fen) {
            Some(inst)
        } else {
            None
        }
    }
}

} // verus!
