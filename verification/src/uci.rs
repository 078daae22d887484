//! What the command protocol needs of the engine: setting a position up
//! from a command, making a move given as text, and the limits of a search.

use crate::defs::{MAX_HIST, WHITE};
use crate::fen::{
    chars_of, fair, field, lemma_skips, next_field, parse_fen, skip_spaces, skip_word, FenModel,
};
use crate::model::{
    legal, lemma_make_undoable, lemma_make_unmake, lemma_never_null, pseudo_legal, spec_make,
    State,
};
use crate::defs::KING;
use crate::model::sound;
use crate::movgen::{holds, Move, MoveList, KIND_CASTLE};
use crate::piece::Piece;
use crate::pos::Position;
use crate::pvtable::MAX_DEPTH;
use crate::search::all_pseudo;
use crate::zobrist::{full_key, Zobrist};
use crate::piece::CastlingPerm;
use crate::model::Hist;
use vstd::prelude::*;

verus! {

/// The position from which a game starts.
pub const START_FEN: &'static str = "rnbqkbnr/pppppppp/8/8/8/8/PPPPPPPP/RNBQKBNR w KQkq - 0 1";

/// The numbers that a `go` command gives.
#[derive(Debug, Clone, Copy)]
pub struct GoOptions {
    pub wtime: Option<i32>,
    pub btime: Option<i32>,
    pub winc: Option<i32>,
    pub binc: Option<i32>,
    pub movestogo: Option<i32>,
    pub depth: Option<i32>,
    pub movetime: Option<i32>,
}

/// The limits of a search: its depth and, if it is limited, its time in milliseconds.
#[derive(Debug, Clone, Copy, PartialEq, Eq, Structural)]
pub struct GoLimits {
    pub depth: u8,
    pub move_time: Option<u64>,
}

/// The quotient of `a` by `b`, rounded towards zero.
pub open spec fn trunc_div(a: int, b: int) -> int {
    if a >= 0 && b > 0 {
        a / b
    } else if a < 0 && b > 0 {
        -((-a) / b)
    } else if a >= 0 && b < 0 {
        -(a / (-b))
    } else {
        (-a) / (-b)
    }
}

impl GoOptions {
    /// No option given.
    pub open spec fn none() -> GoOptions {
        GoOptions {
            wtime: None,
            btime: None,
            winc: None,
            binc: None,
            movestogo: None,
            depth: None,
            movetime: None,
        }
    }

    /// The time on the clock of the side to move, or what `movetime`
    /// gives; none if neither is given, and none if what is given is -1.
    pub open spec fn time(self, turn: u8) -> Option<int> {
        match self.movetime {
            Some(t) => if t == -1 {
                None
            } else {
                Some(t as int)
            },
            None => match (if turn == WHITE {
                self.wtime
            } else {
                self.btime
            }) {
                Some(t) => if t == -1 {
                    None
                } else {
                    Some(t as int)
                },
                None => None,
            },
        }
    }

    /// The moves over which the time is spread: one with `movetime`, else `movestogo`, else 30.
    pub open spec fn share(self) -> int {
        if self.movetime.is_some() {
            1
        } else {
            match self.movestogo {
                Some(n) => n as int,
                None => 30,
            }
        }
    }

    /// The increment of the side to move.
    pub open spec fn inc(self, turn: u8) -> int {
        match (if turn == WHITE {
            self.winc
        } else {
            self.binc
        }) {
            Some(i) => i as int,
            None => 0,
        }
    }

    /// The milliseconds granted to a move: the share of the time, plus
    /// the increment, less a margin of 50.
    pub open spec fn budget(self, turn: u8) -> int {
        trunc_div(self.time(turn).unwrap(), self.share()) + self.inc(turn) - 50
    }

    /// The budget can be computed: the share is not zero and the result is a 32-bit number.
    pub open spec fn computable(self, turn: u8) -> bool {
        self.time(turn).is_some() ==> self.share() != 0 && -0x8000_0000 <= trunc_div(
            self.time(turn).unwrap(),
            self.share(),
        ) <= 0x7FFF_FFFF && -0x8000_0000 <= self.budget(turn) <= 0x7FFF_FFFF
    }

    /// The limits that the options set for the side `turn`. The depth is
    /// the low byte of the number given, `MAX_DEPTH` if none is. A
    /// negative budget stands for its two's complement, which is no limit
    /// to speak of.
    pub open spec fn limits(self, turn: u8) -> GoLimits {
        GoLimits {
            depth: match self.depth {
                Some(d) => (d as int % 256) as u8,
                None => MAX_DEPTH as u8,
            },
            move_time: match self.time(turn) {
                Some(_) => Some(
                    if self.budget(turn) >= 0 {
                        self.budget(turn) as u64
                    } else {
                        (0x1_0000_0000_0000_0000 + self.budget(turn)) as u64
                    },
                ),
                None => None,
            },
        }
    }
}

fn tdiv(a: i64, b: i64) -> (r: i64)
    requires
        b != 0,
        -0x8000_0000 <= a <= 0x7FFF_FFFF,
        -0x8000_0000 <= b <= 0x7FFF_FFFF,
    ensures
        r == trunc_div(a as int, b as int),
{
    if a >= 0 && b > 0 {
        a / b
    } else if a < 0 && b > 0 {
        -((-a) / b)
    } else if a >= 0 && b < 0 {
        -(a / (-b))
    } else {
        (-a) / (-b)
    }
}

impl GoOptions {
    /// The time, the share and the increment that the options give the side `turn`.
    fn clock(&self, turn: u8) -> (r: (Option<i64>, i64, i64))
        ensures
            match r.0 {
                Some(t) => self.time(turn) == Some(t as int),
                None => self.time(turn).is_none(),
            },
            r.1 == self.share(),
            r.2 == self.inc(turn),
    {
        let clock: Option<i32> = if turn == WHITE {
            self.wtime
        } else {
            self.btime
        };
        let mut time: i64 = match clock {
            Some(t) => t as i64,
            None => -1,
        };
        let inc: i64 = match (if turn == WHITE {
            self.winc
        } else {
            self.binc
        }) {
            Some(i) => i as i64,
            None => 0,
        };
        let mut share: i64 = match self.movestogo {
            Some(n) => n as i64,
            None => 30,
        };
        match self.movetime {
            Some(t) => {
                time = t as i64;
                share = 1;
            },
            None => {},
        }
        (
            if time != -1 {
                Some(time)
            } else {
                None
            },
            share,
            inc,
        )
    }

    /// Whether the budget can be computed: no time is given, or the share
    /// is not zero and quotient and budget are 32-bit numbers.
    pub fn is_computable(&self, turn: u8) -> (r: bool)
        ensures
            r == self.computable(turn),
    {
        let (time, share, inc) = self.clock(turn);
        match time {
            None => true,
            Some(t) => {
                if share == 0 {
                    false
                } else {
                    let q: i64 = tdiv(t, share);
                    let v: i64 = q + inc - 50;
                    -0x8000_0000 <= q && q <= 0x7FFF_FFFF && -0x8000_0000 <= v && v <= 0x7FFF_FFFF
                }
            },
        }
    }
}

/// The limits of the search that the options ask for, for the side `turn`.
pub fn go_limits(turn: u8, o: &GoOptions) -> (r: GoLimits)
    requires
        o.computable(turn),
    ensures
        r == o.limits(turn),
{
    let (time, share, inc) = o.clock(turn);
    let depth: u8 = match o.depth {
        Some(d) => {
            if d >= 0 {
                (d % 256) as u8
            } else {
                (255 - (-(d + 1)) % 256) as u8
            }
        },
        None => MAX_DEPTH as u8,
    };
    let move_time: Option<u64> = match time {
        Some(t) => {
            let v: i64 = tdiv(t, share) + inc - 50;
            Some(
                if v >= 0 {
                    v as u64
                } else {
                    u64::MAX - ((-(v + 1)) as u64)
                },
            )
        },
        None => None,
    };
    GoLimits { depth, move_time }
}

/// The move of the state `s` that is written as `text`, if there is one.
pub open spec fn move_named(s: State, text: Seq<char>) -> Option<Move> {
    if exists|m: Move| pseudo_legal(s, m) && #[trigger] m.text() == text {
        Some(choose|m: Move| pseudo_legal(s, m) && #[trigger] m.text() == text)
    } else {
        None
    }
}

/// A square is known by its file letter and rank digit.
pub proof fn lemma_square_text(a: u8, b: u8)
    requires
        a < 64,
        b < 64,
        Move::file_char(a) == Move::file_char(b),
        Move::rank_char(a) == Move::rank_char(b),
    ensures
        a == b,
{
}

/// Two pseudo-legal moves of a state that are written alike are the same move.
pub proof fn lemma_text_names_one(s: State, m: Move, n: Move)
    requires
        sound(s),
        pseudo_legal(s, m),
        pseudo_legal(s, n),
        m.text() == n.text(),
    ensures
        m == n,
{
    let a = m.text();
    let b = n.text();
    assert(a[0] == b[0] && a[1] == b[1] && a[2] == b[2] && a[3] == b[3]);
    assert(a[0] == Move::file_char(m.from) && a[1] == Move::rank_char(m.from));
    assert(b[0] == Move::file_char(n.from) && b[1] == Move::rank_char(n.from));
    assert(a[2] == Move::file_char(m.to) && a[3] == Move::rank_char(m.to));
    assert(b[2] == Move::file_char(n.to) && b[3] == Move::rank_char(n.to));
    lemma_square_text(m.from, n.from);
    lemma_square_text(m.to, n.to);
    assert(Move::prom_text(m.prom) =~= Move::prom_text(n.prom)) by {
        assert(a.subrange(4, a.len() as int) =~= Move::prom_text(m.prom));
        assert(b.subrange(4, b.len() as int) =~= Move::prom_text(n.prom));
    }
    assert(m.prom == n.prom) by {
        let x = Move::prom_text(m.prom);
        let y = Move::prom_text(n.prom);
        if x.len() > 0 {
            assert(x[0] == y[0]);
        }
        if m.kind != 0 {
            assert(m.prom == 0);
        }
        if n.kind != 0 {
            assert(n.prom == 0);
        }
    }
    assert(m.kind == n.kind) by {
        reveal(crate::geometry::between);
        if m.kind == KIND_CASTLE || n.kind == KIND_CASTLE {
            assert(s.board[m.from as int] == Piece::of(KING, s.turn));
        }
    }
    assert(m.cap == n.cap);
}

/// The engine as the command protocol drives it.
pub struct UCI {
    pub pos: Position,
}

impl UCI {
    /// An engine with an empty board.
    pub fn new() -> (r: Self)
        ensures
            r.pos.consistent(),
            r.pos.ply == 0,
    {
        Self { pos: Position::new() }
    }

    /// Makes the move that is written as `text`, if the position has a
    /// legal move of that name, and tells which it was. If there is none
    /// the position stays as it was.
    pub fn make_move(&mut self, text: &str) -> (r: Option<Move>)
        requires
            old(self).pos.wf(),
            old(self).pos.ply < MAX_DEPTH,
            old(self).pos.hist_ply < MAX_HIST,
        ensures
            final(self).pos.wf(),
            final(self).pos.same_scratch(&old(self).pos),
            r == match move_named(old(self).pos.state(), text@) {
                Some(m) => if legal(old(self).pos.state(), m) {
                    Some(m)
                } else {
                    None
                },
                None => None,
            },
            match r {
                Some(m) => final(self).pos.state() == spec_make(old(self).pos.state(), m),
                None => final(self).pos.state() == old(self).pos.state(),
            },
    {
        let ghost s0 = self.pos.state();
        let mut moves = MoveList::new();
        self.pos.gen_moves::<false>(&mut moves);
        let want: String = String::from_str(text);
        let mut i: usize = 0;
        while i < moves.len()
            invariant
                i <= moves@.len(),
                want@ == text@,
                s0 == old(self).pos.state(),
                self.pos.wf(),
                self.pos.state() == s0,
                self.pos.ply < MAX_DEPTH,
                self.pos.hist_ply < MAX_HIST,
                self.pos.same_scratch(&old(self).pos),
                all_pseudo(moves@, s0),
                forall|m: Move| pseudo_legal(s0, m) ==> #[trigger] holds(moves@, m),
                forall|j: int| 0 <= j < i ==> (#[trigger] moves@[j]).0.text() != text@,
            decreases moves@.len() - i,
        {
            let m = moves.get(i).0;
            let name = m.to_string();
            if name == want {
                proof {
                    assert(pseudo_legal(s0, m));
                    assert(m.text() =~= text@);
                    assert(move_named(s0, text@).is_some());
                    lemma_text_names_one(s0, m, move_named(s0, text@).unwrap());
                    lemma_never_null(s0, m);
                    lemma_make_unmake(s0, m);
                    lemma_make_undoable(s0, m);
                }
                return if self.pos.make_move(m) {
                    Some(m)
                } else {
                    None
                };
            }
            i += 1;
        }
        proof {
            if move_named(s0, text@).is_some() {
                let m = move_named(s0, text@).unwrap();
                assert(holds(moves@, m));
            }
        }
        None
    }
}

/// The number that a run of decimal digits writes, if it is one and no prefix of it exceeds `limit`.
pub open spec fn digits(t: Seq<char>, limit: int) -> Option<int>
    decreases t.len(),
{
    if t.len() == 0 {
        None
    } else {
        let d = crate::fen::digit(t.last());
        if t.len() == 1 {
            d
        } else {
            match (digits(t.drop_last(), limit), d) {
                (Some(a), Some(b)) => if a * 10 + b <= limit {
                    Some(a * 10 + b)
                } else {
                    None
                },
                _ => None,
            }
        }
    }
}

/// The 32-bit number that the text writes: digits, with a sign before them or without.
pub open spec fn signed(t: Seq<char>) -> Option<int> {
    if t.len() > 0 && t[0] == '-' {
        match digits(t.skip(1), 0x8000_0000) {
            Some(v) => Some(-v),
            None => None,
        }
    } else if t.len() > 0 && t[0] == '+' {
        digits(t.skip(1), 0x7FFF_FFFF)
    } else {
        digits(t, 0x7FFF_FFFF)
    }
}

proof fn lemma_digits_prefix(t: Seq<char>, k: int, limit: int)
    requires
        1 <= k <= t.len(),
        digits(t.take(k), limit).is_none(),
    ensures
        digits(t, limit).is_none(),
    decreases t.len() - k,
{
    if k < t.len() {
        assert(t.take(k + 1).drop_last() =~= t.take(k));
        lemma_digits_prefix(t, k + 1, limit);
    } else {
        assert(t.take(k) =~= t);
    }
}

fn digit_of(c: char) -> (r: Option<u8>)
    ensures
        match r {
            Some(d) => crate::fen::digit(c) == Some(d as int),
            None => crate::fen::digit(c).is_none(),
        },
{
    if c == '0' {
        Some(0)
    } else if c == '1' {
        Some(1)
    } else if c == '2' {
        Some(2)
    } else if c == '3' {
        Some(3)
    } else if c == '4' {
        Some(4)
    } else if c == '5' {
        Some(5)
    } else if c == '6' {
        Some(6)
    } else if c == '7' {
        Some(7)
    } else if c == '8' {
        Some(8)
    } else if c == '9' {
        Some(9)
    } else {
        None
    }
}

/// Reads a run of digits from `s[start..end]`.
fn parse_digits(s: &Vec<char>, start: usize, end: usize, limit: i64) -> (r: Option<i64>)
    requires
        start <= end <= s.len(),
        9 <= limit <= 0x8000_0000,
    ensures
        match r {
            Some(v) => digits(s@.subrange(start as int, end as int), limit as int) == Some(v as int)
                && 0 <= v <= limit,
            None => digits(s@.subrange(start as int, end as int), limit as int).is_none(),
        },
{
    let ghost t = s@.subrange(start as int, end as int);
    if start == end {
        return None;
    }
    proof {
        assert(t.take(1) =~= seq![s@[start as int]]);
    }
    let mut v: i64 = match digit_of(s[start]) {
        Some(d) => d as i64,
        None => {
            proof {
                lemma_digits_prefix(t, 1, limit as int);
            }
            return None;
        },
    };
    let mut i: usize = start + 1;
    while i < end
        invariant
            start < i <= end <= s.len(),
            t == s@.subrange(start as int, end as int),
            digits(t.take(i - start), limit as int) == Some(v as int),
            0 <= v <= limit,
            9 <= limit <= 0x8000_0000,
        decreases end - i,
    {
        let ghost k = i - start;
        proof {
            assert(t.take(k + 1).drop_last() =~= t.take(k));
            assert(t.take(k + 1).last() == s[i as int]);
        }
        let d: u8 = match digit_of(s[i]) {
            Some(d) => d,
            None => {
                proof {
                    lemma_digits_prefix(t, k + 1, limit as int);
                }
                return None;
            },
        };
        let w: i64 = v * 10 + d as i64;
        if w > limit {
            proof {
                lemma_digits_prefix(t, k + 1, limit as int);
            }
            return None;
        }
        v = w;
        i += 1;
    }
    proof {
        assert(t.take(end - start) =~= t);
    }
    Some(v)
}

/// Reads a 32-bit number from `s[start..end]`.
pub fn parse_signed(s: &Vec<char>, start: usize, end: usize) -> (r: Option<i32>)
    requires
        start <= end <= s.len(),
    ensures
        match r {
            Some(v) => signed(s@.subrange(start as int, end as int)) == Some(v as int),
            None => signed(s@.subrange(start as int, end as int)).is_none(),
        },
{
    let ghost t = s@.subrange(start as int, end as int);
    if start < end && s[start] == '-' {
        proof {
            assert(t.skip(1) =~= s@.subrange(start + 1, end as int));
        }
        match parse_digits(s, start + 1, end, 0x8000_0000) {
            Some(v) => Some((-v) as i32),
            None => None,
        }
    } else if start < end && s[start] == '+' {
        proof {
            assert(t.skip(1) =~= s@.subrange(start + 1, end as int));
        }
        match parse_digits(s, start + 1, end, 0x7FFF_FFFF) {
            Some(v) => Some(v as i32),
            None => None,
        }
    } else {
        match parse_digits(s, start, end, 0x7FFF_FFFF) {
            Some(v) => Some(v as i32),
            None => None,
        }
    }
}

impl GoOptions {
    /// The options with the number `v` given under `name`; names that are not known change nothing.
    pub open spec fn with(self, name: Seq<char>, v: i32) -> GoOptions {
        if name == "wtime"@ {
            GoOptions { wtime: Some(v), ..self }
        } else if name == "btime"@ {
            GoOptions { btime: Some(v), ..self }
        } else if name == "winc"@ {
            GoOptions { winc: Some(v), ..self }
        } else if name == "binc"@ {
            GoOptions { binc: Some(v), ..self }
        } else if name == "movestogo"@ {
            GoOptions { movestogo: Some(v), ..self }
        } else if name == "depth"@ {
            GoOptions { depth: Some(v), ..self }
        } else if name == "movetime"@ {
            GoOptions { movetime: Some(v), ..self }
        } else {
            self
        }
    }
}

/// Where the scan goes on after the word that ends at `b`, having stood at `i`.
pub open spec fn advance(s: Seq<char>, i: int, b: int) -> int {
    if i < b <= s.len() {
        b
    } else {
        i + 1
    }
}

/// The options that the text gives from index `i` on: pairs of a name and
/// a number, each pair added to `acc`. Nothing if a name has no number after it.
pub open spec fn options_from(s: Seq<char>, i: int, acc: GoOptions) -> Option<GoOptions>
    decreases s.len() - i,
{
    let a = skip_spaces(s, i);
    if i < 0 || i >= s.len() || a >= s.len() {
        Some(acc)
    } else {
        let b = skip_word(s, a);
        let c = skip_spaces(s, b);
        let d = skip_word(s, c);
        match signed(s.subrange(c, d)) {
            Some(v) => options_from(
                s,
                advance(s, i, d),
                acc.with(s.subrange(a, b), v as i32),
            ),
            None => None,
        }
    }
}

/// The words of `s[start..end]`, as a string.
fn word_of(s: &Vec<char>, start: usize, end: usize) -> (w: String)
    requires
        start <= end <= s.len(),
    ensures
        w@ == s@.subrange(start as int, end as int),
{
    let mut w: String = String::new();
    let mut i: usize = start;
    while i < end
        invariant
            start <= i <= end <= s.len(),
            w@ == s@.subrange(start as int, i as int),
        decreases end - i,
    {
        w.push(s[i]);
        proof {
            assert(s@.subrange(start as int, i + 1) =~= s@.subrange(start as int, i as int).push(
                s@[i as int],
            ));
        }
        i += 1;
    }
    w
}

fn set_option(o: GoOptions, name: &String, v: i32) -> (r: GoOptions)
    ensures
        r == o.with(name@, v),
{
    let mut r = o;
    if *name == String::from_str("wtime") {
        r.wtime = Some(v);
    } else if *name == String::from_str("btime") {
        r.btime = Some(v);
    } else if *name == String::from_str("winc") {
        r.winc = Some(v);
    } else if *name == String::from_str("binc") {
        r.binc = Some(v);
    } else if *name == String::from_str("movestogo") {
        r.movestogo = Some(v);
    } else if *name == String::from_str("depth") {
        r.depth = Some(v);
    } else if *name == String::from_str("movetime") {
        r.movetime = Some(v);
    }
    r
}

/// Reads the options of a `go` command: names, each followed by a number.
pub fn parse_go_options(line: &str) -> (r: Option<GoOptions>)
    ensures
        r == options_from(line@, 0, GoOptions::none()),
{
    let s = chars_of(line);
    let mut acc = GoOptions {
        wtime: None,
        btime: None,
        winc: None,
        binc: None,
        movestogo: None,
        depth: None,
        movetime: None,
    };
    let mut i: usize = 0;
    loop
        invariant
            i <= s.len(),
            s@ == line@,
            options_from(line@, 0, GoOptions::none()) == options_from(s@, i as int, acc),
        decreases s.len() - i,
    {
        let (a, b) = next_field(&s, i);
        if i >= s.len() || a >= s.len() {
            return Some(acc);
        }
        let (c, d) = next_field(&s, b);
        proof {
            lemma_skips(s@, i as int);
        }
        let v: i32 = match parse_signed(&s, c, d) {
            Some(v) => v,
            None => {
                return None;
            },
        };
        let name = word_of(&s, a, b);
        acc = set_option(acc, &name, v);
        i = d;
    }
}

/// The state of a position that was set up as a position text says.
pub open spec fn loaded(z: Zobrist, d: FenModel) -> State {
    State {
        zobrist: z,
        board: d.board,
        turn: d.turn,
        cas: CastlingPerm(d.cas),
        ep: d.ep,
        fty: d.fty,
        key: full_key(z, d.board, d.turn, d.ep, CastlingPerm(d.cas)),
        hist: Seq::<Hist>::empty(),
    }
}

/// Where the word `moves` ends, looking from index `i` on; the length if there is no such word.
pub open spec fn moves_end(s: Seq<char>, i: int) -> int
    decreases s.len() - i,
{
    let a = skip_spaces(s, i);
    if i < 0 || i >= s.len() || a >= s.len() {
        s.len() as int
    } else {
        let b = skip_word(s, a);
        if s.subrange(a, b) == "moves"@ {
            b
        } else {
            moves_end(
                s,
                advance(s, i, b),
            )
        }
    }
}

/// Where the word `moves` starts, looking from index `i` on; the length if there is no such word.
pub open spec fn moves_start(s: Seq<char>, i: int) -> int
    decreases s.len() - i,
{
    let a = skip_spaces(s, i);
    if i < 0 || i >= s.len() || a >= s.len() {
        s.len() as int
    } else {
        let b = skip_word(s, a);
        if s.subrange(a, b) == "moves"@ {
            a
        } else {
            moves_start(
                s,
                advance(s, i, b),
            )
        }
    }
}

/// The state reached from `st` by making the moves that the text names
/// from index `i` on, and whether every one of them could be made: the
/// play ends with the first word that names no legal move, or when the
/// undo stack is full.
pub open spec fn play_from(st: State, s: Seq<char>, i: int) -> (State, bool)
    decreases s.len() - i,
{
    let a = skip_spaces(s, i);
    if i < 0 || i >= s.len() || a >= s.len() {
        (st, true)
    } else {
        let b = skip_word(s, a);
        match move_named(st, s.subrange(a, b)) {
            Some(m) => if legal(st, m) && st.hist.len() < MAX_HIST {
                play_from(
                    spec_make(st, m),
                    s,
                    advance(s, i, b),
                )
            } else {
                (st, false)
            },
            None => (st, false),
        }
    }
}

/// What a `position` command says of the position to start from:
/// `startpos`, or `fen` and a position text that ends before the word `moves`.
pub open spec fn position_base(s: Seq<char>) -> Option<FenModel> {
    let head = field(s, 0);
    let rest = skip_word(s, skip_spaces(s, 0));
    if head == "fen"@ {
        parse_fen(s.subrange(rest, moves_start(s, rest)))
    } else if head == "startpos"@ {
        parse_fen(START_FEN@)
    } else {
        None
    }
}

fn find_moves(s: &Vec<char>, from: usize) -> (r: (usize, usize))
    requires
        from <= s.len(),
    ensures
        r.0 == moves_start(s@, from as int),
        r.1 == moves_end(s@, from as int),
        from <= r.0 <= r.1 <= s.len(),
{
    let mut i: usize = from;
    let moves: String = String::from_str("moves");
    loop
        invariant
            from <= i <= s.len(),
            moves@ == "moves"@,
            moves_start(s@, from as int) == moves_start(s@, i as int),
            moves_end(s@, from as int) == moves_end(s@, i as int),
        decreases s.len() - i,
    {
        let (a, b) = next_field(s, i);
        if i >= s.len() || a >= s.len() {
            return (s.len(), s.len());
        }
        proof {
            lemma_skips(s@, i as int);
        }
        let w = word_of(s, a, b);
        if w == moves {
            return (a, b);
        }
        i = b;
    }
}

impl UCI {
    /// Carries out a `position` command, given without its first word:
    /// sets the position up and makes the moves listed after the word
    /// `moves`. Tells whether the position could be set up and every move
    /// made. A failed set-up leaves the position as it was; a move that
    /// cannot be made ends the play where it stands.
    #[verifier::rlimit(50)]
    pub fn parse_position(&mut self, line: &str) -> (ok: bool)
        requires
            old(self).pos.consistent(),
            old(self).pos.ply < MAX_DEPTH,
        ensures
            final(self).pos.consistent(),
            final(self).pos.same_scratch(&old(self).pos),
            match position_base(line@) {
                Some(d) => if fair(d) {
                    let rest = skip_word(line@, skip_spaces(line@, 0));
                    let played = play_from(
                        loaded(old(self).pos.zobrist, d),
                        line@,
                        moves_end(line@, rest),
                    );
                    final(self).pos.wf() && final(self).pos.state() == played.0 && ok == played.1
                } else {
                    !ok && final(self).pos == old(self).pos
                },
                None => !ok && final(self).pos == old(self).pos,
            },
    {
        let s = chars_of(line);
        let (a0, b0) = next_field(&s, 0);
        let head = word_of(&s, a0, b0);
        let (m0, m1) = find_moves(&s, b0);
        let loaded_ok: bool = if head == String::from_str("fen") {
            let text = word_of(&s, b0, m0);
            self.pos.load_fen(text.as_str())
        } else if head == String::from_str("startpos") {
            self.pos.load_fen(START_FEN)
        } else {
            false
        };
        if !loaded_ok {
            return false;
        }
        let ghost st0 = self.pos.state();
        proof {
            let d = position_base(line@).unwrap();
            assert(self.pos.shows(d));
            assert(self.pos.hist@.take(0) =~= Seq::<Hist>::empty());
            assert(st0 == loaded(old(self).pos.zobrist, d));
        }
        let mut i: usize = m1;
        loop
            invariant
                m1 <= i <= s.len(),
                s@ == line@,
                self.pos.wf(),
                self.pos.ply < MAX_DEPTH,
                self.pos.same_scratch(&old(self).pos),
                position_base(line@).is_some(),
                fair(position_base(line@).unwrap()),
                st0 == loaded(old(self).pos.zobrist, position_base(line@).unwrap()),
                m1 == moves_end(line@, skip_word(line@, skip_spaces(line@, 0))),
                play_from(st0, s@, m1 as int) == play_from(self.pos.state(), s@, i as int),
            decreases s.len() - i,
        {
            let (a, b) = next_field(&s, i);
            if i >= s.len() || a >= s.len() {
                return true;
            }
            proof {
                lemma_skips(s@, i as int);
            }
            if self.pos.hist_ply as usize >= MAX_HIST {
                return false;
            }
            let w = word_of(&s, a, b);
            match self.make_move(w.as_str()) {
                Some(_) => {},
                None => {
                    return false;
                },
            }
            i = b;
        }
    }
}

} // verus!
