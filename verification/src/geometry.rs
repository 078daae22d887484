//! The geometry of the board: which squares a piece reaches from where.

use crate::bitbrd::{bit_at, lemma_bit_logic};
use vstd::prelude::*;

verus! {

/// The rank of a square, from 0 to 7.
pub open spec fn rank_of(sq: u8) -> int {
    sq as int / 8
}

/// The file of a square, from 0 to 7.
pub open spec fn file_of(sq: u8) -> int {
    sq as int % 8
}

/// The distance between two coordinates.
pub open spec fn dist(a: int, b: int) -> int {
    if a < b {
        b - a
    } else {
        a - b
    }
}

/// A knight on `a` attacks `b`.
pub open spec fn knight_reach(a: u8, b: u8) -> bool {
    let dr = dist(rank_of(a), rank_of(b));
    let df = dist(file_of(a), file_of(b));
    a < 64 && b < 64 && ((dr == 1 && df == 2) || (dr == 2 && df == 1))
}

/// A king on `a` attacks `b`.
pub open spec fn king_reach(a: u8, b: u8) -> bool {
    let dr = dist(rank_of(a), rank_of(b));
    let df = dist(file_of(a), file_of(b));
    a < 64 && b < 64 && a != b && dr <= 1 && df <= 1
}

/// `a` and `b` lie on one rank.
pub open spec fn same_rank(a: u8, b: u8) -> bool {
    rank_of(a) == rank_of(b)
}

/// `a` and `b` lie on one file.
pub open spec fn same_file(a: u8, b: u8) -> bool {
    file_of(a) == file_of(b)
}

/// `a` and `b` lie on a diagonal that rises to the right.
pub open spec fn same_diag(a: u8, b: u8) -> bool {
    rank_of(a) - file_of(a) == rank_of(b) - file_of(b)
}

/// `a` and `b` lie on a diagonal that falls to the right.
pub open spec fn same_anti(a: u8, b: u8) -> bool {
    rank_of(a) + file_of(a) == rank_of(b) + file_of(b)
}

/// `x` lies strictly between `lo` and `hi`, whichever of them is the larger.
pub open spec fn strictly_inside(x: int, lo: int, hi: int) -> bool {
    (lo < x && x < hi) || (hi < x && x < lo)
}

/// `t` lies on the straight or diagonal line from `a` to `b`, strictly between them.
#[verifier::opaque]
pub open spec fn between(a: u8, t: u8, b: u8) -> bool {
    ||| (same_rank(a, b) && same_rank(a, t) && strictly_inside(file_of(t), file_of(a), file_of(b)))
    ||| (same_file(a, b) && same_file(a, t) && strictly_inside(rank_of(t), rank_of(a), rank_of(b)))
    ||| (same_diag(a, b) && same_diag(a, t) && strictly_inside(rank_of(t), rank_of(a), rank_of(b)))
    ||| (same_anti(a, b) && same_anti(a, t) && strictly_inside(rank_of(t), rank_of(a), rank_of(b)))
}

/// No member of `occ` stands strictly between `a` and `b`.
pub open spec fn clear_path(a: u8, b: u8, occ: u64) -> bool {
    forall|t: u8| t < 64 && #[trigger] between(a, t, b) ==> !bit_at(occ, t)
}

/// A rook on `a` attacks `b` when the squares in `occ` block its way. The
/// first blocker on each line is itself attacked.
pub open spec fn rook_reach(a: u8, b: u8, occ: u64) -> bool {
    a < 64 && b < 64 && a != b && (same_rank(a, b) || same_file(a, b)) && clear_path(a, b, occ)
}

/// A bishop on `a` attacks `b` when the squares in `occ` block its way.
pub open spec fn bishop_reach(a: u8, b: u8, occ: u64) -> bool {
    a < 64 && b < 64 && a != b && (same_diag(a, b) || same_anti(a, b)) && clear_path(a, b, occ)
}

/// A queen on `a` attacks `b` when the squares in `occ` block its way.
pub open spec fn queen_reach(a: u8, b: u8, occ: u64) -> bool {
    rook_reach(a, b, occ) || bishop_reach(a, b, occ)
}

/// A pawn of colour `clr` on `a` attacks `b`.
pub open spec fn pawn_reach(clr: u8, a: u8, b: u8) -> bool {
    a < 64 && b < 64 && dist(file_of(a), file_of(b)) == 1 && if clr == 0 {
        rank_of(b) == rank_of(a) + 1
    } else {
        rank_of(b) == rank_of(a) - 1
    }
}

/// The squares whose occupancy can change what a rook on `a` attacks: its lines without their ends.
pub open spec fn rook_relevant(a: u8, t: u8) -> bool {
    a < 64 && t < 64 && t != a && ((same_rank(a, t) && 1 <= file_of(t) <= 6) || (same_file(a, t) && 1
        <= rank_of(t) <= 6))
}

/// The squares whose occupancy can change what a bishop on `a` attacks.
pub open spec fn bishop_relevant(a: u8, t: u8) -> bool {
    a < 64 && t < 64 && t != a && (same_diag(a, t) || same_anti(a, t)) && 1 <= file_of(t) <= 6 && 1
        <= rank_of(t) <= 6
}

/// Lying between two squares does not depend on the direction.
pub proof fn lemma_between_sym(a: u8, t: u8, b: u8)
    ensures
        between(a, t, b) == between(b, t, a),
{
    reveal(between);
}

/// The sign of a number: -1, 0 or 1.
pub open spec fn sign(x: int) -> int {
    if x > 0 {
        1
    } else if x < 0 {
        -1
    } else {
        0
    }
}

/// The coordinate reached from `x` after `k` steps in direction `d`.
pub open spec fn step(x: int, d: int, k: int) -> int {
    if d > 0 {
        x + k
    } else if d < 0 {
        x - k
    } else {
        x
    }
}

/// `t` lies on the ray that leaves `a` in the direction `(dr, df)`, each of them -1, 0 or 1.
#[verifier::opaque]
pub open spec fn on_ray(a: u8, t: u8, dr: int, df: int) -> bool {
    let r = rank_of(t) - rank_of(a);
    let f = file_of(t) - file_of(a);
    a < 64 && t < 64 && t != a && sign(r) == dr && sign(f) == df && (dr == 0 || df == 0 || dist(
        rank_of(a),
        rank_of(t),
    ) == dist(file_of(a), file_of(t)))
}

/// The number of king steps from `a` to `t`.
#[verifier::opaque]
pub open spec fn ray_len(a: u8, t: u8) -> int {
    let dr = dist(rank_of(a), rank_of(t));
    let df = dist(file_of(a), file_of(t));
    if dr > df {
        dr
    } else {
        df
    }
}

/// What lies strictly between `a` and a square on one of its rays lies on that ray, nearer to `a`.
pub proof fn lemma_between_on_ray(a: u8, x: u8, t: u8, dr: int, df: int)
    requires
        on_ray(a, t, dr, df),
        x < 64,
    ensures
        between(a, x, t) <==> (on_ray(a, x, dr, df) && ray_len(a, x) < ray_len(a, t)),
{
    reveal(between);
    reveal(on_ray);
    reveal(ray_len);
}

/// The square `k` steps from `a` in a direction lies on that ray, at length `k`.
pub proof fn lemma_step_on_ray(a: u8, t: u8, dr: int, df: int, k: int)
    requires
        a < 64,
        -1 <= dr <= 1,
        -1 <= df <= 1,
        dr != 0 || df != 0,
        k >= 1,
        0 <= step(rank_of(a), dr, k) < 8,
        0 <= step(file_of(a), df, k) < 8,
        t == step(rank_of(a), dr, k) * 8 + step(file_of(a), df, k),
    ensures
        on_ray(a, t, dr, df),
        ray_len(a, t) == k,
        k <= 7,
{
    reveal(on_ray);
    reveal(ray_len);
}

/// Every square of a ray is at least one step away.
pub proof fn lemma_ray_len_pos(a: u8, x: u8, dr: int, df: int)
    requires
        on_ray(a, x, dr, df),
    ensures
        ray_len(a, x) >= 1,
{
    reveal(on_ray);
    reveal(ray_len);
}

/// A ray holds one square of each length.
pub proof fn lemma_ray_unique(a: u8, x: u8, t: u8, dr: int, df: int)
    requires
        on_ray(a, x, dr, df),
        on_ray(a, t, dr, df),
        ray_len(a, x) == ray_len(a, t),
    ensures
        x == t,
{
    reveal(on_ray);
    reveal(ray_len);
}

/// Once the `k`-th step leaves the board, every square of the ray is nearer than `k`.
pub proof fn lemma_ray_ends(a: u8, x: u8, dr: int, df: int, k: int)
    requires
        -1 <= dr <= 1,
        -1 <= df <= 1,
        k >= 1,
        !(0 <= step(rank_of(a), dr, k) < 8 && 0 <= step(file_of(a), df, k) < 8),
        on_ray(a, x, dr, df),
    ensures
        ray_len(a, x) < k,
{
    reveal(on_ray);
    reveal(ray_len);
}

/// The squares that a slider attacks: a rook if `rook` holds, else a bishop.
pub open spec fn slider_reach(rook: bool, a: u8, b: u8, occ: u64) -> bool {
    if rook {
        rook_reach(a, b, occ)
    } else {
        bishop_reach(a, b, occ)
    }
}

/// The squares whose occupancy matters to a slider on `a`.
pub open spec fn slider_relevant(rook: bool, a: u8, t: u8) -> bool {
    if rook {
        rook_relevant(a, t)
    } else {
        bishop_relevant(a, t)
    }
}

/// The squares in line with a rook are those on its four rays.
pub proof fn lemma_rook_rays(a: u8, t: u8)
    requires
        a < 64,
        t < 64,
    ensures
        (a != t && (same_rank(a, t) || same_file(a, t))) <==> (on_ray(a, t, 1, 0) || on_ray(
            a,
            t,
            -1,
            0,
        ) || on_ray(a, t, 0, 1) || on_ray(a, t, 0, -1)),
{
    reveal(on_ray);
}

/// The squares in line with a bishop are those on its four rays.
pub proof fn lemma_bishop_rays(a: u8, t: u8)
    requires
        a < 64,
        t < 64,
    ensures
        (a != t && (same_diag(a, t) || same_anti(a, t))) <==> (on_ray(a, t, 1, 1) || on_ray(
            a,
            t,
            -1,
            -1,
        ) || on_ray(a, t, 1, -1) || on_ray(a, t, -1, 1)),
{
    reveal(on_ray);
}

/// Whatever stands between a slider and a square in its line is relevant to it.
pub proof fn lemma_between_relevant(rook: bool, a: u8, y: u8, t: u8)
    requires
        a < 64,
        y < 64,
        t < 64,
        a != t,
        if rook {
            same_rank(a, t) || same_file(a, t)
        } else {
            same_diag(a, t) || same_anti(a, t)
        },
        between(a, y, t),
    ensures
        slider_relevant(rook, a, y),
{
    reveal(between);
}

/// Blockers outside the relevant squares do not change what a slider attacks.
pub proof fn lemma_relevant_only(rook: bool, a: u8, mask: u64, occ: u64)
    requires
        a < 64,
        forall|t: u8| t < 64 ==> (bit_at(mask, t) <==> slider_relevant(rook, a, t)),
    ensures
        forall|t: u8|
            t < 64 ==> (#[trigger] slider_reach(rook, a, t, occ & mask) <==> slider_reach(
                rook,
                a,
                t,
                occ,
            )),
{
    lemma_bit_logic();
    assert forall|t: u8| t < 64 implies (#[trigger] slider_reach(rook, a, t, occ & mask)
        <==> slider_reach(rook, a, t, occ)) by {
        if a != t && if rook {
            same_rank(a, t) || same_file(a, t)
        } else {
            same_diag(a, t) || same_anti(a, t)
        } {
            assert forall|y: u8| y < 64 && #[trigger] between(a, y, t) implies (bit_at(
                occ & mask,
                y,
            ) <==> bit_at(occ, y)) by {
                lemma_between_relevant(rook, a, y, t);
            }
        }
    }
}

/// Every slider attacks a neighbouring square, whatever the blockers.
pub proof fn lemma_slider_neighbour(rook: bool, a: u8, occ: u64) -> (t: u8)
    requires
        a < 64,
    ensures
        t < 64,
        slider_reach(rook, a, t, occ),
{
    reveal(between);
    let f = file_of(a);
    let r = rank_of(a);
    if rook {
        if f < 7 {
            (a + 1) as u8
        } else {
            (a - 1) as u8
        }
    } else {
        if f < 7 && r < 7 {
            (a + 9) as u8
        } else if f < 7 {
            (a - 7) as u8
        } else if r < 7 {
            (a + 7) as u8
        } else {
            (a - 9) as u8
        }
    }
}

} // verus!
