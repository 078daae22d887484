//! Counting the positions that legal play reaches in a given number of plies.

use crate::defs::MAX_HIST;
use crate::model::{
    legal, lemma_make_undoable, lemma_make_unmake, lemma_never_null, pseudo_legal, spec_make,
    State,
};
use crate::movgen::{
    distinct_in, holds, Move, MoveList, OrderedMove, KIND_CASTLE, KIND_EN_PASSANT, KIND_LONG_PUSH,
};
use crate::pos::Position;
use crate::pvtable::MAX_DEPTH;
use crate::search::all_pseudo;
use vstd::prelude::*;

verus! {

/// Six well-known positions for counting.
pub const POSITIONS: [&'static str; 6] = [
    "rnbqkbnr/pppppppp/8/8/8/8/PPPPPPPP/RNBQKBNR w KQkq - 0 1",
    "r3k2r/p1ppqpb1/bn2pnp1/3PN3/1p2P3/2N2Q1p/PPPBBPPP/R3K2R w KQkq - 0 1",
    "8/2p5/3p4/KP5r/1R3p1k/8/4P1P1/8 w - - 0 1",
    "r3k2r/Pppp1ppp/1b3nbN/nP6/BBP1P3/q4N2/Pp1P2PP/R2Q1RK1 w kq - 0 1",
    "rnbq1k1r/pp1Pbppp/2p5/8/2B5/8/PPP1NnPP/RNBQK2R w KQ - 1 8",
    "r4rk1/1pp1qppp/p1np1n2/2b1p1B1/2B1P1b1/P1NP1N2/1PP1QPPP/R4RK1 w - - 0 10",
];

/// The counts known for each of `POSITIONS` at depths 1 to 6; 0 where none is known.
pub const RESULTS: [[u64; 6]; 6] = [
    [20, 400, 8902, 197281, 4865609, 119060324],
    [48, 2039, 97862, 4085603, 193690690, 8031647685],
    [14, 191, 2812, 43238, 674624, 11030083],
    [6, 264, 9467, 422333, 15833292, 706045033],
    [44, 1486, 62379, 2103487, 89941194, 0],
    [46, 2079, 89890, 3894594, 164075551, 6923051137],
];

/// The number of moves that can be written down, pseudo-legal or not.
pub const CODES: u32 = 163840;

/// The place of a move in the list of all moves that can be written down.
pub open spec fn code(m: Move) -> int {
    m.from + 64 * m.to + 4096 * (if m.kind == 0 {
        0int
    } else if m.kind == KIND_CASTLE {
        1int
    } else if m.kind == KIND_EN_PASSANT {
        2int
    } else {
        3int
    }) + 16384 * m.prom + 81920 * (if m.cap {
        1int
    } else {
        0int
    })
}

/// The move at place `i` of that list.
pub open spec fn decode(i: int) -> Move {
    let k = i / 4096 % 4;
    Move {
        from: (i % 64) as u8,
        to: (i / 64 % 64) as u8,
        kind: if k == 0 {
            0
        } else if k == 1 {
            KIND_CASTLE
        } else if k == 2 {
            KIND_EN_PASSANT
        } else {
            KIND_LONG_PUSH
        },
        prom: (i / 16384 % 5) as u8,
        cap: i / 81920 % 2 == 1,
    }
}

/// The number of lines of legal play of `depth` plies from the state `s`.
pub open spec fn spec_perft(s: State, depth: nat) -> nat
    decreases depth, CODES + 1,
{
    if depth == 0 {
        1
    } else {
        lines_upto(s, (depth - 1) as nat, CODES as nat)
    }
}

/// The number of lines of legal play from the state `s` that begin with
/// one of the first `n` moves that can be written down and go on for
/// `rest` plies more.
pub open spec fn lines_upto(s: State, rest: nat, n: nat) -> nat
    decreases rest + 1, n,
{
    if n == 0 {
        0
    } else {
        let m = decode(n - 1);
        lines_upto(s, rest, (n - 1) as nat) + if pseudo_legal(s, m) && legal(s, m) {
            spec_perft(spec_make(s, m), rest)
        } else {
            0
        }
    }
}

/// The number of lines of legal play of `rest + 1` plies that begin with the move `m`.
pub open spec fn weight(s: State, m: Move, rest: nat) -> nat {
    if pseudo_legal(s, m) && legal(s, m) {
        spec_perft(spec_make(s, m), rest)
    } else {
        0
    }
}

/// The lines that begin with one of the first `k` moves of the list.
pub open spec fn list_sum(list: Seq<OrderedMove>, s: State, rest: nat, k: int) -> nat
    decreases k,
{
    if k <= 0 {
        0
    } else {
        list_sum(list, s, rest, k - 1) + weight(s, list[k - 1].0, rest)
    }
}

/// The lines that begin with one of the first `k` moves of the list whose place is below `n`.
pub open spec fn sum_below(list: Seq<OrderedMove>, s: State, rest: nat, k: int, n: int) -> nat
    decreases k,
{
    if k <= 0 {
        0
    } else {
        sum_below(list, s, rest, k - 1, n) + if code(list[k - 1].0) < n {
            weight(s, list[k - 1].0, rest)
        } else {
            0
        }
    }
}

/// The lines that begin with one of the first `k` moves of the list whose place is `n`.
pub open spec fn sum_at(list: Seq<OrderedMove>, s: State, rest: nat, k: int, n: int) -> nat
    decreases k,
{
    if k <= 0 {
        0
    } else {
        sum_at(list, s, rest, k - 1, n) + if code(list[k - 1].0) == n {
            weight(s, list[k - 1].0, rest)
        } else {
            0
        }
    }
}

/// The move `m` is one that can be written down: its squares are on the
/// board, its kind is one of the four and it promotes to a piece or not at all.
pub open spec fn writable(m: Move) -> bool {
    m.from < 64 && m.to < 64 && m.prom <= 4 && (m.kind == 0 || m.kind == KIND_CASTLE || m.kind
        == KIND_EN_PASSANT || m.kind == KIND_LONG_PUSH)
}

/// Every pseudo-legal move can be written down.
pub proof fn lemma_writable(s: State, m: Move)
    requires
        pseudo_legal(s, m),
    ensures
        writable(m),
{
}

/// Every move that can be written down has its place in the list of all
/// moves, and only it stands there.
pub proof fn lemma_place(m: Move)
    requires
        writable(m),
    ensures
        0 <= code(m) < CODES,
        decode(code(m)) == m,
{
    let k = if m.kind == 0 {
        0int
    } else if m.kind == KIND_CASTLE {
        1int
    } else if m.kind == KIND_EN_PASSANT {
        2int
    } else {
        3int
    };
    let c = if m.cap {
        1int
    } else {
        0int
    };
    let i = code(m);
    assert(i == m.from + 64 * (m.to + 64 * (k + 4 * (m.prom + 5 * c))));
    let a = m.to + 64 * (k + 4 * (m.prom + 5 * c));
    assert(i % 64 == m.from && i / 64 == a);
    let b = k + 4 * (m.prom + 5 * c);
    assert(a % 64 == m.to && a / 64 == b);
    assert(i / 4096 == b);
    let d = m.prom + 5 * c;
    assert(b % 4 == k && b / 4 == d);
    assert(i / 16384 == d);
    assert(d % 5 == m.prom && d / 5 == c);
    assert(i / 81920 == c);
}

/// Every pseudo-legal move has its place in the list of all moves, and only it stands there.
pub proof fn lemma_code(s: State, m: Move)
    requires
        pseudo_legal(s, m),
    ensures
        0 <= code(m) < CODES,
        decode(code(m)) == m,
{
    lemma_writable(s, m);
    lemma_place(m);
}

/// The place of the move at place `i` is `i`.
pub proof fn lemma_decode(i: int)
    requires
        0 <= i < CODES,
    ensures
        code(decode(i)) == i,
{
    let a = i / 64;
    let b = a / 64;
    let d = b / 4;
    let c = d / 5;
    assert(i == i % 64 + 64 * a);
    assert(a == a % 64 + 64 * b);
    assert(b == b % 4 + 4 * d);
    assert(d == d % 5 + 5 * c);
    assert(i / 4096 == b);
    assert(i / 16384 == d);
    assert(i / 81920 == c);
    assert(0 <= c < 2);
}

proof fn lemma_split(list: Seq<OrderedMove>, s: State, rest: nat, k: int, n: int)
    requires
        0 <= k <= list.len(),
    ensures
        sum_below(list, s, rest, k, n + 1) == sum_below(list, s, rest, k, n) + sum_at(
            list,
            s,
            rest,
            k,
            n,
        ),
    decreases k,
{
    if k > 0 {
        lemma_split(list, s, rest, k - 1, n);
    }
}

proof fn lemma_at(list: Seq<OrderedMove>, s: State, rest: nat, k: int, n: int)
    requires
        0 <= k <= list.len(),
        distinct_in(list, 0, k),
        all_pseudo(list, s),
    ensures
        sum_at(list, s, rest, k, n) == if exists|j: int| 0 <= j < k && code(#[trigger] list[j].0) == n {
            weight(s, decode(n), rest)
        } else {
            0
        },
    decreases k,
{
    if k > 0 {
        lemma_at(list, s, rest, k - 1, n);
        let last = list[k - 1].0;
        assert(pseudo_legal(s, last));
        lemma_code(s, last);
        if code(last) == n {
            assert(last == decode(n));
            if exists|j: int| 0 <= j < k - 1 && code(#[trigger] list[j].0) == n {
                let j = choose|j: int| 0 <= j < k - 1 && code(#[trigger] list[j].0) == n;
                assert(pseudo_legal(s, list[j].0));
                lemma_code(s, list[j].0);
                assert(list[j].0 == list[k - 1].0);
            }
        } else {
            if exists|j: int| 0 <= j < k && code(#[trigger] list[j].0) == n {
                let j = choose|j: int| 0 <= j < k && code(#[trigger] list[j].0) == n;
                assert(j < k - 1);
            }
        }
    }
}

/// The lines counted along a list that holds every pseudo-legal move
/// once are the lines counted along the list of all moves.
proof fn lemma_count(list: Seq<OrderedMove>, s: State, rest: nat, n: nat)
    requires
        n <= CODES,
        distinct_in(list, 0, list.len() as int),
        all_pseudo(list, s),
        forall|m: Move| pseudo_legal(s, m) ==> #[trigger] holds(list, m),
    ensures
        sum_below(list, s, rest, list.len() as int, n as int) == lines_upto(s, rest, n),
    decreases n,
{
    let len = list.len() as int;
    if n == 0 {
        lemma_below_zero(list, s, rest, len);
    } else {
        let i = (n - 1) as int;
        lemma_count(list, s, rest, (n - 1) as nat);
        lemma_split(list, s, rest, len, i);
        lemma_at(list, s, rest, len, i);
        let m = decode(i);
        lemma_decode(i);
        if !(exists|j: int| 0 <= j < len && code(#[trigger] list[j].0) == i) {
            if pseudo_legal(s, m) {
                assert(holds(list, m));
                let j = choose|j: int| 0 <= j < list.len() && (#[trigger] list[j]).0 == m;
                assert(code(list[j].0) == i);
            }
        }
    }
}

proof fn lemma_below_zero(list: Seq<OrderedMove>, s: State, rest: nat, k: int)
    requires
        0 <= k <= list.len(),
        all_pseudo(list, s),
    ensures
        sum_below(list, s, rest, k, 0) == 0,
    decreases k,
{
    if k > 0 {
        lemma_below_zero(list, s, rest, k - 1);
        assert(pseudo_legal(s, list[k - 1].0));
        lemma_code(s, list[k - 1].0);
    }
}

proof fn lemma_below_all(list: Seq<OrderedMove>, s: State, rest: nat, k: int)
    requires
        0 <= k <= list.len(),
        all_pseudo(list, s),
    ensures
        sum_below(list, s, rest, k, CODES as int) == list_sum(list, s, rest, k),
    decreases k,
{
    if k > 0 {
        lemma_below_all(list, s, rest, k - 1);
        assert(pseudo_legal(s, list[k - 1].0));
        lemma_code(s, list[k - 1].0);
    }
}

/// The number of lines of legal play of `depth` plies from the position,
/// which is the same afterwards as before. A count too large for 64 bits
/// is given as the largest number.
pub fn perft(p: &mut Position, depth: u8) -> (nodes: u64)
    requires
        old(p).wf(),
        old(p).ply < MAX_DEPTH,
        old(p).hist_ply + depth <= MAX_HIST,
    ensures
        final(p).wf(),
        final(p).state() == old(p).state(),
        final(p).same_scratch(old(p)),
        nodes == if spec_perft(old(p).state(), depth as nat) <= u64::MAX {
            spec_perft(old(p).state(), depth as nat)
        } else {
            u64::MAX as nat
        },
    decreases depth,
{
    if depth == 0 {
        return 1;
    }
    let ghost s = p.state();
    let ghost rest = (depth - 1) as nat;
    let mut moves = MoveList::new();
    let mut nodes: u64 = 0;
    p.gen_moves::<false>(&mut moves);
    let n: usize = moves.len();
    let mut i: usize = 0;
    let ghost mut total: nat = 0;
    proof {
        assert(all_pseudo(moves@, s));
    }
    while i < n
        invariant
            i <= n,
            n == moves@.len(),
            depth > 0,
            rest == depth - 1,
            p.wf(),
            p.state() == s,
            s == old(p).state(),
            p.same_scratch(old(p)),
            old(p).ply < MAX_DEPTH,
            old(p).hist_ply + depth <= MAX_HIST,
            all_pseudo(moves@, s),
            total == list_sum(moves@, s, rest, i as int),
            nodes == if total <= u64::MAX {
                total
            } else {
                u64::MAX as nat
            },
        decreases n - i,
    {
        let m = moves.get(i).0;
        proof {
            assert(pseudo_legal(s, moves@[i as int].0));
            lemma_never_null(s, m);
            lemma_make_unmake(s, m);
            lemma_make_undoable(s, m);
        }
        if p.make_move(m) {
            let sub: u64 = perft(p, depth - 1);
            nodes = nodes.saturating_add(sub);
            p.unmake_move();
            proof {
                total = total + spec_perft(spec_make(s, m), rest);
            }
        }
        i += 1;
    }
    proof {
        lemma_below_all(moves@, s, rest, n as int);
        lemma_count(moves@, s, rest, CODES as nat);
    }
    nodes
}

} // verus!
