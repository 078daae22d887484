//! What the search is worth at and next to its leaves: the value of a
//! position once the captures and promotions are played out, and that of
//! the best move one ply before, whatever the order in which the moves
//! are tried.

use crate::defs::MAX_HIST;
use crate::eval::lemma_eval_same;
use crate::model::{legal, pseudo_legal, spec_make, State};
use crate::movgen::{holds, Move, OrderedMove};
use crate::perft::{code, decode, lemma_place, lemma_writable, writable, CODES};
use crate::pos::{lemma_state_fixes_board, Position};
use crate::pvtable::MAX_DEPTH;
use crate::search::FIFTY_MOVES;
use vstd::prelude::*;

verus! {

/// Below every score.
pub const NO_SCORE: i32 = -32768;

/// The evaluation of a position that stands for the state `s`.
pub open spec fn state_eval(s: State) -> int {
    (choose|p: Position| p.consistent() && p.state() == s).spec_eval()
}

/// Every consistent position is evaluated as its state is.
pub proof fn lemma_state_eval(p: &Position)
    requires
        p.consistent(),
    ensures
        p.spec_eval() == state_eval(p.state()),
{
    let s = p.state();
    let q = choose|q: Position| q.consistent() && q.state() == s;
    assert(p.consistent() && p.state() == s);
    lemma_state_fixes_board(&q, p);
    lemma_eval_same(&q, p);
}

/// The larger of two numbers.
pub open spec fn larger(a: int, b: int) -> int {
    if a >= b {
        a
    } else {
        b
    }
}

/// The number `v` brought into the window from `lo` to `hi`.
pub open spec fn clamp(v: int, lo: int, hi: int) -> int {
    if v <= lo {
        lo
    } else if v >= hi {
        hi
    } else {
        v
    }
}

/// The move `m` is a capture or a promotion.
pub open spec fn loud(m: Move) -> bool {
    m.cap || m.prom != 0
}

/// The value of the state `s` at ply `ply` with the captures and
/// promotions played out: at the deepest ply the evaluation, else the
/// better of the evaluation and the best reply by a capture or promotion.
pub open spec fn quiet_value(s: State, ply: nat) -> int
    decreases MAX_DEPTH - ply, CODES + 2,
{
    if ply >= MAX_DEPTH {
        state_eval(s)
    } else {
        larger(state_eval(s), best_loud(s, ply, CODES as nat))
    }
}

/// What the legal capture or promotion `m` is worth to the side that makes it, `NO_SCORE` for any other move.
pub open spec fn loud_worth(s: State, ply: nat, m: Move) -> int
    decreases MAX_DEPTH - ply, 0nat,
{
    if ply < MAX_DEPTH && pseudo_legal(s, m) && loud(m) && legal(s, m) {
        -quiet_value(spec_make(s, m), ply + 1)
    } else {
        NO_SCORE as int
    }
}

/// The worth of the best legal capture or promotion among the first `n`
/// moves that can be written down; `NO_SCORE` if there is none.
pub open spec fn best_loud(s: State, ply: nat, n: nat) -> int
    decreases MAX_DEPTH - ply, n + 1,
{
    if n == 0 {
        NO_SCORE as int
    } else {
        larger(best_loud(s, ply, (n - 1) as nat), loud_worth(s, ply, decode(n - 1)))
    }
}

/// The greatest worth among the first `n` moves that can be written down; `NO_SCORE` if `n` is 0.
pub open spec fn best_by(w: spec_fn(Move) -> int, n: nat) -> int
    decreases n,
{
    if n == 0 {
        NO_SCORE as int
    } else {
        larger(best_by(w, (n - 1) as nat), w(decode(n - 1)))
    }
}

/// The greatest worth among the first `k` moves of the list.
pub open spec fn list_best_by(list: Seq<OrderedMove>, w: spec_fn(Move) -> int, k: int) -> int
    decreases k,
{
    if k <= 0 {
        NO_SCORE as int
    } else {
        larger(list_best_by(list, w, k - 1), w(list[k - 1].0))
    }
}

/// No list of moves has a best worth below `NO_SCORE`.
pub proof fn lemma_list_by_low(list: Seq<OrderedMove>, w: spec_fn(Move) -> int, k: int)
    ensures
        list_best_by(list, w, k) >= NO_SCORE,
    decreases k,
{
    if k > 0 {
        lemma_list_by_low(list, w, k - 1);
    }
}

/// No set of moves has a best worth below `NO_SCORE`.
proof fn lemma_best_by_low(w: spec_fn(Move) -> int, n: nat)
    ensures
        best_by(w, n) >= NO_SCORE,
    decreases n,
{
    if n > 0 {
        lemma_best_by_low(w, (n - 1) as nat);
    }
}

proof fn lemma_list_by_bounds(list: Seq<OrderedMove>, w: spec_fn(Move) -> int, k: int, bound: int)
    requires
        0 <= k <= list.len(),
        NO_SCORE <= bound,
        forall|j: int| 0 <= j < k ==> w((#[trigger] list[j]).0) <= bound,
    ensures
        list_best_by(list, w, k) <= bound,
    decreases k,
{
    if k > 0 {
        lemma_list_by_bounds(list, w, k - 1, bound);
        assert(w(list[k - 1].0) <= bound);
    }
}

proof fn lemma_list_by_reaches(list: Seq<OrderedMove>, w: spec_fn(Move) -> int, k: int, j: int)
    requires
        0 <= j < k <= list.len(),
    ensures
        list_best_by(list, w, k) >= w(list[j].0),
    decreases k,
{
    if j < k - 1 {
        lemma_list_by_reaches(list, w, k - 1, j);
    }
}

proof fn lemma_best_by_bounds(w: spec_fn(Move) -> int, n: nat, bound: int)
    requires
        NO_SCORE <= bound,
        forall|i: int| 0 <= i < n ==> w(#[trigger] decode(i)) <= bound,
    ensures
        best_by(w, n) <= bound,
    decreases n,
{
    if n > 0 {
        lemma_best_by_bounds(w, (n - 1) as nat, bound);
        assert(w(decode(n - 1)) <= bound);
    }
}

proof fn lemma_best_by_reaches(w: spec_fn(Move) -> int, n: nat, i: int)
    requires
        0 <= i < n,
    ensures
        best_by(w, n) >= w(decode(i)),
    decreases n,
{
    if i < n - 1 {
        lemma_best_by_reaches(w, (n - 1) as nat, i);
    }
}

/// The best move is worth at least what any one move that can be written down is worth.
proof fn lemma_best_by_covers(w: spec_fn(Move) -> int, m: Move)
    requires
        writable(m),
    ensures
        best_by(w, CODES as nat) >= w(m),
{
    lemma_place(m);
    lemma_best_by_reaches(w, CODES as nat, code(m));
}

/// The moves of a list that have been tried are worth the same whatever comes after them.
pub proof fn lemma_list_by_prefix(
    a: Seq<OrderedMove>,
    b: Seq<OrderedMove>,
    w: spec_fn(Move) -> int,
    k: int,
)
    requires
        0 <= k <= a.len(),
        k <= b.len(),
        forall|j: int| 0 <= j < k ==> (#[trigger] a[j]).0 == b[j].0,
    ensures
        list_best_by(a, w, k) == list_best_by(b, w, k),
    decreases k,
{
    if k > 0 {
        lemma_list_by_prefix(a, b, w, k - 1);
        assert(a[k - 1].0 == b[k - 1].0);
    }
}

/// A list of moves that can be written down which holds every move that
/// is worth anything has the best move among its moves.
proof fn lemma_list_by_is_all(list: Seq<OrderedMove>, w: spec_fn(Move) -> int)
    requires
        forall|j: int| 0 <= j < list.len() ==> writable((#[trigger] list[j]).0),
        forall|m: Move| #[trigger] w(m) > NO_SCORE ==> holds(list, m),
    ensures
        list_best_by(list, w, list.len() as int) == best_by(w, CODES as nat),
{
    let lb = list_best_by(list, w, list.len() as int);
    let cb = best_by(w, CODES as nat);
    lemma_list_by_low(list, w, list.len() as int);
    lemma_best_by_low(w, CODES as nat);
    assert forall|j: int| 0 <= j < list.len() implies w((#[trigger] list[j]).0) <= cb by {
        lemma_best_by_covers(w, list[j].0);
    }
    lemma_list_by_bounds(list, w, list.len() as int, cb);
    assert forall|i: int| 0 <= i < CODES implies w(#[trigger] decode(i)) <= lb by {
        let m = decode(i);
        if w(m) > NO_SCORE {
            assert(holds(list, m));
            let j = choose|j: int| 0 <= j < list.len() && (#[trigger] list[j]).0 == m;
            lemma_list_by_reaches(list, w, list.len() as int, j);
        }
    }
    lemma_best_by_bounds(w, CODES as nat, lb);
}

/// The worth of each move of the state `s` as a reply by a capture or promotion.
pub open spec fn loud_fn(s: State, ply: nat) -> spec_fn(Move) -> int {
    |m: Move| loud_worth(s, ply, m)
}

proof fn lemma_best_loud_is(s: State, ply: nat, n: nat)
    ensures
        best_loud(s, ply, n) == best_by(loud_fn(s, ply), n),
    decreases n,
{
    if n > 0 {
        lemma_best_loud_is(s, ply, (n - 1) as nat);
    }
}

/// The best reply by a capture or promotion is worth at least what any one move is worth.
pub proof fn lemma_loud_covers(s: State, ply: nat, m: Move)
    ensures
        best_loud(s, ply, CODES as nat) >= loud_worth(s, ply, m),
        best_loud(s, ply, CODES as nat) >= NO_SCORE,
{
    lemma_best_loud_is(s, ply, CODES as nat);
    lemma_best_by_low(loud_fn(s, ply), CODES as nat);
    if pseudo_legal(s, m) {
        lemma_writable(s, m);
        lemma_best_by_covers(loud_fn(s, ply), m);
    }
}

/// A list of pseudo-legal moves of a state that holds its captures and
/// promotions has the best reply by one of them among its moves.
pub proof fn lemma_loud_is_all(list: Seq<OrderedMove>, s: State, ply: nat)
    requires
        forall|j: int| 0 <= j < list.len() ==> pseudo_legal(s, (#[trigger] list[j]).0),
        forall|m: Move| #[trigger] pseudo_legal(s, m) && loud(m) ==> holds(list, m),
    ensures
        list_best_by(list, loud_fn(s, ply), list.len() as int) == best_loud(s, ply, CODES as nat),
{
    let w = loud_fn(s, ply);
    assert forall|j: int| 0 <= j < list.len() implies writable((#[trigger] list[j]).0) by {
        lemma_writable(s, list[j].0);
    }
    assert forall|m: Move| #[trigger] w(m) > NO_SCORE implies holds(list, m) by {
        assert(pseudo_legal(s, m) && loud(m));
    }
    lemma_list_by_is_all(list, w);
    lemma_best_loud_is(s, ply, CODES as nat);
}

/// The hash key of the state is that of an earlier one since the last pawn move or capture.
pub open spec fn state_repeats(s: State) -> bool {
    exists|i: int|
        (if s.fty <= s.hist.len() {
            s.hist.len() - s.fty
        } else {
            0
        }) <= i < s.hist.len() && (#[trigger] s.hist[i]).key == s.key
}

/// The state is drawn at ply `ply`: by repetition away from the root, or by the fifty-move rule.
pub open spec fn state_drawn(s: State, ply: nat) -> bool {
    (ply > 0 && state_repeats(s)) || s.fty >= FIFTY_MOVES
}

/// A position is drawn if and only if its state is.
pub proof fn lemma_state_drawn(p: &Position)
    requires
        p.hist_ply <= MAX_HIST,
    ensures
        p.drawn() == state_drawn(p.state(), p.ply as nat),
{
    let s = p.state();
    assert(s.hist.len() == p.hist_ply);
    if p.spec_is_repetition() {
        let i = choose|i: int| p.window_start() <= i < p.hist_ply && (#[trigger] p.hist[i]).key == p.key;
        assert(s.hist[i] == p.hist[i]);
    }
    if state_repeats(s) {
        let i = choose|i: int|
            (if s.fty <= s.hist.len() {
                s.hist.len() - s.fty
            } else {
                0
            }) <= i < s.hist.len() && (#[trigger] s.hist[i]).key == s.key;
        assert(s.hist[i] == p.hist[i]);
    }
}

/// What a state is worth where the search ends: nothing if it is drawn,
/// else its value with the captures and promotions played out.
pub open spec fn leaf_value(s: State, ply: nat) -> int {
    if state_drawn(s, ply) {
        0
    } else {
        quiet_value(s, ply)
    }
}

/// What the search returns for a state with no ply left to search: the
/// leaf's value, brought into the window unless the state is drawn or
/// stands at the deepest ply.
pub open spec fn leaf_result(s: State, ply: nat, alpha: int, beta: int) -> int {
    if state_drawn(s, ply) {
        0
    } else if ply >= MAX_DEPTH {
        quiet_value(s, ply)
    } else {
        clamp(quiet_value(s, ply), alpha, beta)
    }
}

/// What the legal move `m` is worth to the side that makes it, one ply
/// before the search ends; `NO_SCORE` for any other move.
pub open spec fn front_worth(s: State, ply: nat, m: Move) -> int {
    if pseudo_legal(s, m) && legal(s, m) {
        -leaf_value(spec_make(s, m), ply + 1)
    } else {
        NO_SCORE as int
    }
}

/// The worth of each move of the state `s`, one ply before the search ends.
pub open spec fn front_fn(s: State, ply: nat) -> spec_fn(Move) -> int {
    |m: Move| front_worth(s, ply, m)
}

/// What the state `s` is worth one ply before the search ends: the worth of its best legal move.
pub open spec fn front_value(s: State, ply: nat) -> int {
    best_by(front_fn(s, ply), CODES as nat)
}

/// The score `score` that a search within the window from `lo` to `hi`
/// gave a move tells its worth `w` as far as the window lets it: whether
/// the worth lies above `lo`, whether it reaches `hi`, and the worth itself inside the window.
pub open spec fn scored(score: int, w: int, lo: int, hi: int) -> bool {
    &&& score > lo <==> w > lo
    &&& score >= hi <==> w >= hi
    &&& lo < score < hi ==> score == w
}

/// One ply before the search ends a state is worth at least what any one of its moves is worth.
pub proof fn lemma_front_covers(s: State, ply: nat, m: Move)
    ensures
        front_value(s, ply) >= front_worth(s, ply, m),
        front_value(s, ply) >= NO_SCORE,
{
    lemma_best_by_low(front_fn(s, ply), CODES as nat);
    if pseudo_legal(s, m) {
        lemma_writable(s, m);
        lemma_best_by_covers(front_fn(s, ply), m);
    }
}

/// A list of pseudo-legal moves of a state that holds them all has the state's best move among its moves.
pub proof fn lemma_front_is_all(list: Seq<OrderedMove>, s: State, ply: nat)
    requires
        forall|j: int| 0 <= j < list.len() ==> pseudo_legal(s, (#[trigger] list[j]).0),
        forall|m: Move| #[trigger] pseudo_legal(s, m) ==> holds(list, m),
    ensures
        list_best_by(list, front_fn(s, ply), list.len() as int) == front_value(s, ply),
{
    let w = front_fn(s, ply);
    assert forall|j: int| 0 <= j < list.len() implies writable((#[trigger] list[j]).0) by {
        lemma_writable(s, list[j].0);
    }
    assert forall|m: Move| #[trigger] w(m) > NO_SCORE implies holds(list, m) by {
        assert(pseudo_legal(s, m));
    }
    lemma_list_by_is_all(list, w);
}

} // verus!
