//! Precomputed attack sets: leapers by square, sliders by square and blockers.

use crate::bitbrd::{
    bit_at, lemma_bit_logic, lemma_bit_ops, lemma_member_nonzero, BitBoard, BitHelpers,
};
use crate::geometry::{
    between, bishop_reach, clear_path, file_of, king_reach, knight_reach, lemma_between_on_ray,
    lemma_bishop_rays, lemma_ray_ends, lemma_ray_len_pos, lemma_ray_unique, lemma_relevant_only,
    lemma_rook_rays, lemma_slider_neighbour, lemma_step_on_ray, on_ray, queen_reach, rank_of,
    ray_len, rook_reach, slider_reach, slider_relevant, step,
};
use crate::magics::{
    deposit, lemma_deposit_onto, low_ones, pdep, slot, slot_of, spec_pdep, BISHOP_SLOTS,
    ROOK_SLOTS, TABLE_SIZE,
};
use vstd::prelude::*;

verus! {

/// `b` holds exactly the squares that a knight on `sq` attacks.
pub open spec fn is_knight_set(b: u64, sq: u8) -> bool {
    forall|t: u8| t < 64 ==> (#[trigger] bit_at(b, t) <==> knight_reach(sq, t))
}

/// `b` holds exactly the squares that a king on `sq` attacks.
pub open spec fn is_king_set(b: u64, sq: u8) -> bool {
    forall|t: u8| t < 64 ==> (#[trigger] bit_at(b, t) <==> king_reach(sq, t))
}

/// `b` holds exactly the squares that a rook on `sq` attacks past the blockers `occ`.
pub open spec fn is_rook_set(b: u64, sq: u8, occ: u64) -> bool {
    forall|t: u8| t < 64 ==> (#[trigger] bit_at(b, t) <==> rook_reach(sq, t, occ))
}

/// `b` holds exactly the squares that a bishop on `sq` attacks past the blockers `occ`.
pub open spec fn is_bishop_set(b: u64, sq: u8, occ: u64) -> bool {
    forall|t: u8| t < 64 ==> (#[trigger] bit_at(b, t) <==> bishop_reach(sq, t, occ))
}

/// `b` holds exactly the squares that a queen on `sq` attacks past the blockers `occ`.
pub open spec fn is_queen_set(b: u64, sq: u8, occ: u64) -> bool {
    forall|t: u8| t < 64 ==> (#[trigger] bit_at(b, t) <==> queen_reach(sq, t, occ))
}

/// `b` holds exactly the squares on the ray from `sq` in direction `(dr, df)`
/// up to and including the first blocker.
pub open spec fn is_ray_set(b: u64, sq: u8, dr: int, df: int, occ: u64) -> bool {
    forall|t: u8|
        t < 64 ==> (#[trigger] bit_at(b, t) <==> (on_ray(sq, t, dr, df) && clear_path(sq, t, occ)))
}

/// Walks from `sq` in one direction until the edge or the first blocker, which is included.
pub fn slide(sq: u8, dr: i8, df: i8, blockers: u64) -> (atks: u64)
    requires
        sq < 64,
        -1 <= dr <= 1,
        -1 <= df <= 1,
        dr != 0 || df != 0,
    ensures
        is_ray_set(atks, sq, dr as int, df as int, blockers),
{
    let mut atks: u64 = 0;
    let mut r: i8 = (sq / 8) as i8 + dr;
    let mut f: i8 = (sq % 8) as i8 + df;
    let mut open: bool = true;
    let ghost mut k: int = 1;
    proof {
        lemma_bit_ops();
        assert forall|t: u8| t < 64 && #[trigger] on_ray(sq, t, dr as int, df as int) implies ray_len(
            sq,
            t,
        ) >= 1 by {
            lemma_ray_len_pos(sq, t, dr as int, df as int);
        }
    }
    while open && 0 <= r && r < 8 && 0 <= f && f < 8
        invariant
            sq < 64,
            -1 <= dr <= 1,
            -1 <= df <= 1,
            dr != 0 || df != 0,
            1 <= k <= 8,
            open ==> r == step(rank_of(sq), dr as int, k) && f == step(file_of(sq), df as int, k),
            open ==> forall|t: u8|
                t < 64 && #[trigger] on_ray(sq, t, dr as int, df as int) && ray_len(sq, t) < k
                    ==> !bit_at(blockers, t),
            open ==> forall|t: u8|
                t < 64 ==> (#[trigger] bit_at(atks, t) <==> (on_ray(sq, t, dr as int, df as int)
                    && ray_len(sq, t) < k)),
            !open ==> is_ray_set(atks, sq, dr as int, df as int, blockers),
        decreases (if open { 1int } else { 0int }), 8 - k,
    {
        let t: u8 = (r * 8 + f) as u8;
        let ghost before = atks;
        proof {
            lemma_bit_ops();
            lemma_step_on_ray(sq, t, dr as int, df as int, k);
        }
        atks.set(t);
        proof {
            assert forall|x: u8| x < 64 implies (#[trigger] bit_at(atks, x) <==> (on_ray(
                sq,
                x,
                dr as int,
                df as int,
            ) && ray_len(sq, x) < k + 1)) by {
                if on_ray(sq, x, dr as int, df as int) && ray_len(sq, x) == k {
                    lemma_ray_unique(sq, x, t, dr as int, df as int);
                }
            }
        }
        if blockers.chk(t) {
            open = false;
            proof {
                assert forall|x: u8| x < 64 implies (#[trigger] bit_at(atks, x) <==> (on_ray(
                    sq,
                    x,
                    dr as int,
                    df as int,
                ) && clear_path(sq, x, blockers))) by {
                    if on_ray(sq, x, dr as int, df as int) {
                        if ray_len(sq, x) <= k {
                            assert forall|y: u8| y < 64 && #[trigger] between(
                                sq,
                                y,
                                x,
                            ) implies !bit_at(blockers, y) by {
                                lemma_between_on_ray(sq, y, x, dr as int, df as int);
                            }
                        } else {
                            lemma_between_on_ray(sq, t, x, dr as int, df as int);
                            assert(between(sq, t, x));
                        }
                    }
                }
            }
        } else {
            r = r + dr;
            f = f + df;
            proof {
                assert forall|x: u8|
                    x < 64 && #[trigger] on_ray(sq, x, dr as int, df as int) && ray_len(sq, x) < k
                        + 1 implies !bit_at(blockers, x) by {
                    if ray_len(sq, x) == k {
                        lemma_ray_unique(sq, x, t, dr as int, df as int);
                    }
                }
                k = k + 1;
            }
        }
    }
    proof {
        if open {
            assert forall|x: u8| x < 64 implies (#[trigger] bit_at(atks, x) <==> (on_ray(
                sq,
                x,
                dr as int,
                df as int,
            ) && clear_path(sq, x, blockers))) by {
                if on_ray(sq, x, dr as int, df as int) {
                    lemma_ray_ends(sq, x, dr as int, df as int, k);
                    assert forall|y: u8| y < 64 && #[trigger] between(sq, y, x) implies !bit_at(
                        blockers,
                        y,
                    ) by {
                        lemma_between_on_ray(sq, y, x, dr as int, df as int);
                    }
                }
            }
        }
    }
    atks
}

/// `b` holds exactly the squares that a slider on `sq` attacks past the blockers `occ`.
pub open spec fn is_slider_set(rook: bool, b: u64, sq: u8, occ: u64) -> bool {
    forall|t: u8| t < 64 ==> (#[trigger] bit_at(b, t) <==> slider_reach(rook, sq, t, occ))
}

/// `mask` holds exactly the squares whose occupancy matters to a slider on `sq`.
pub open spec fn is_relevant_set(rook: bool, mask: u64, sq: u8) -> bool {
    forall|t: u8| t < 64 ==> (#[trigger] bit_at(mask, t) <==> slider_relevant(rook, sq, t))
}

/// The table holds, in its slot, what a slider on `sq` attacks past the blockers `sub`.
pub open spec fn covered(table: Seq<u64>, rook: bool, sq: u8, sub: u64) -> bool {
    sq < 64 && 0 <= slot(rook, sq, sub) < table.len() && is_slider_set(
        rook,
        table[slot(rook, sq, sub)],
        sq,
        sub,
    )
}

/// The table answers for a slider on `sq` and any blockers `occ`, once cut down to `mask`.
pub open spec fn entry_ok(table: Seq<u64>, rook: bool, sq: int, mask: u64, occ: u64) -> bool {
    covered(table, rook, sq as u8, occ & mask)
}

/// No set of attacked squares of a slider is empty.
pub proof fn lemma_slider_nonzero(rook: bool, b: u64, sq: u8, occ: u64)
    requires
        sq < 64,
        is_slider_set(rook, b, sq, occ),
    ensures
        b != 0,
{
    let t = lemma_slider_neighbour(rook, sq, occ);
    assert(bit_at(b, t));
    lemma_member_nonzero(b, t);
}

/// Writing a set into a slot that was empty or held the same set undoes nothing.
pub proof fn lemma_write_keeps(before: Seq<u64>, j: int, v: u64, rook: bool, sq: u8, sub: u64)
    requires
        0 <= j < before.len(),
        before[j] == 0 || before[j] == v,
        covered(before, rook, sq, sub),
    ensures
        covered(before.update(j, v), rook, sq, sub),
{
    if slot(rook, sq, sub) == j {
        lemma_slider_nonzero(rook, before[j], sq, sub);
    }
}

/// The slots that the table holds for one square of a slider.
pub open spec fn slots_of(rook: bool) -> int {
    if rook {
        4096
    } else {
        512
    }
}

/// The bits of a slot number within a square: twelve for a rook, nine for a bishop.
pub open spec fn width_of(rook: bool) -> u8 {
    if rook {
        12
    } else {
        9
    }
}

/// The square of the `n`-th pair of a square and a subset of its relevant
/// squares, in the order in which the table is filled.
pub open spec fn pair_sq(rook: bool, n: int) -> int {
    if rook {
        n / 4096
    } else {
        n / 512
    }
}

/// The subset of blockers of the `n`-th pair.
pub open spec fn pair_sub(rook: bool, masks: Seq<u64>, n: int) -> u64 {
    let i = if rook {
        n % 4096
    } else {
        n % 512
    };
    deposit(i as u64, masks[pair_sq(rook, n)], 0)
}

/// The slot to which the multiplier sends the `n`-th pair.
pub open spec fn pair_slot(rook: bool, masks: Seq<u64>, n: int) -> int {
    slot(rook, pair_sq(rook, n) as u8, pair_sub(rook, masks, n))
}

/// `a` is what the slider of the `n`-th pair attacks past its blockers.
pub open spec fn pair_set(rook: bool, masks: Seq<u64>, n: int, a: u64) -> bool {
    is_slider_set(rook, a, pair_sq(rook, n) as u8, pair_sub(rook, masks, n))
}

/// The sliders of the pairs `m` and `n` attack the same squares.
pub open spec fn same_set(rook: bool, masks: Seq<u64>, m: int, n: int) -> bool {
    forall|t: u8|
        t < 64 ==> #[trigger] slider_reach(rook, pair_sq(rook, m) as u8, t, pair_sub(rook, masks, m))
            == slider_reach(rook, pair_sq(rook, n) as u8, t, pair_sub(rook, masks, n))
}

/// The slots suffice for the square `sq`: as many one bits as the slot
/// number has fill the relevant squares.
pub open spec fn slots_cover(rook: bool, masks: Seq<u64>, sq: int) -> bool {
    spec_pdep(low_ones(width_of(rook)), masks[sq]) == masks[sq]
}

/// The `n`-th pair can be stored: the slots suffice for its square, and
/// its slot was empty in the table `old` or held its set already.
pub open spec fn pair_fits(old: Seq<u64>, rook: bool, masks: Seq<u64>, n: int) -> bool {
    slots_cover(rook, masks, pair_sq(rook, n)) && (old[pair_slot(rook, masks, n)] == 0 || pair_set(
        rook,
        masks,
        n,
        old[pair_slot(rook, masks, n)],
    ))
}

/// The pairs `m` and `n` do not collide: if the multiplier sends them to
/// one slot, their sliders attack the same squares.
pub open spec fn pair_agrees(rook: bool, masks: Seq<u64>, m: int, n: int) -> bool {
    pair_slot(rook, masks, m) == pair_slot(rook, masks, n) ==> same_set(rook, masks, m, n)
}

/// The first `count` pairs can all be stored in the table `old`, and no
/// two of them collide.
pub open spec fn fits_upto(old: Seq<u64>, rook: bool, masks: Seq<u64>, count: int) -> bool {
    &&& forall|n: int| 0 <= n < count ==> #[trigger] pair_fits(old, rook, masks, n)
    &&& forall|m: int, n: int|
        0 <= m < count && 0 <= n < count ==> #[trigger] pair_agrees(rook, masks, m, n)
}

/// Each slot of the table `cur` holds what it held in `old`, or the set
/// of the pair that `writer` names, one of the first `count` pairs whose slot it is.
pub open spec fn accounted(
    old: Seq<u64>,
    cur: Seq<u64>,
    writer: Seq<int>,
    rook: bool,
    masks: Seq<u64>,
    count: int,
) -> bool {
    &&& writer.len() == cur.len()
    &&& old.len() == cur.len()
    &&& forall|j: int|
        0 <= j < cur.len() ==> if #[trigger] writer[j] == -1 {
            cur[j] == old[j]
        } else {
            0 <= writer[j] < count && pair_slot(rook, masks, writer[j]) == j && pair_set(
                rook,
                masks,
                writer[j],
                cur[j],
            )
        }
}

/// The table holds the set of each of the first `count` pairs in its slot.
pub open spec fn kept(cur: Seq<u64>, rook: bool, masks: Seq<u64>, count: int) -> bool {
    forall|m: int|
        0 <= m < count ==> 0 <= #[trigger] pair_slot(rook, masks, m) < cur.len() && pair_set(
            rook,
            masks,
            m,
            cur[pair_slot(rook, masks, m)],
        )
}

/// Two sets of the same pair are one set, and sets of pairs that attack alike are alike.
pub proof fn lemma_pair_sets(rook: bool, masks: Seq<u64>, m: int, n: int, a: u64, b: u64)
    requires
        pair_set(rook, masks, m, a),
        pair_set(rook, masks, n, b),
        0 <= pair_sq(rook, m) < 64,
        0 <= pair_sq(rook, n) < 64,
    ensures
        a != 0,
        same_set(rook, masks, m, n) <==> a == b,
{
    lemma_slider_nonzero(rook, a, pair_sq(rook, m) as u8, pair_sub(rook, masks, m));
    if same_set(rook, masks, m, n) {
        assert forall|t: u8| t < 64 implies bit_at(a, t) == bit_at(b, t) by {
            assert(slider_reach(rook, pair_sq(rook, m) as u8, t, pair_sub(rook, masks, m))
                == slider_reach(rook, pair_sq(rook, n) as u8, t, pair_sub(rook, masks, n)));
        }
        crate::bitbrd::lemma_bit_ext(a, b);
    }
    if a == b {
        assert forall|t: u8| t < 64 implies #[trigger] slider_reach(
            rook,
            pair_sq(rook, m) as u8,
            t,
            pair_sub(rook, masks, m),
        ) == slider_reach(rook, pair_sq(rook, n) as u8, t, pair_sub(rook, masks, n)) by {
            assert(bit_at(a, t) == slider_reach(
                rook,
                pair_sq(rook, m) as u8,
                t,
                pair_sub(rook, masks, m),
            ));
            assert(bit_at(b, t) == slider_reach(
                rook,
                pair_sq(rook, n) as u8,
                t,
                pair_sub(rook, masks, n),
            ));
        }
    }
}

/// A pair has one set only.
pub proof fn lemma_one_set(rook: bool, masks: Seq<u64>, n: int, a: u64, b: u64)
    requires
        pair_set(rook, masks, n, a),
        pair_set(rook, masks, n, b),
    ensures
        a == b,
{
    assert forall|t: u8| t < 64 implies bit_at(a, t) == bit_at(b, t) by {
        assert(bit_at(a, t) == slider_reach(rook, pair_sq(rook, n) as u8, t, pair_sub(rook, masks, n)));
    }
    crate::bitbrd::lemma_bit_ext(a, b);
}

/// Storing the set of the next pair in a slot that is empty or holds it
/// already keeps the account of the table, and the pairs fit with this
/// one if and only if they did without it.
pub proof fn lemma_fill_stores(
    old: Seq<u64>,
    before: Seq<u64>,
    writer: Seq<int>,
    rook: bool,
    masks: Seq<u64>,
    n: int,
    a: u64,
    fine: bool,
)
    requires
        0 <= n < 64 * slots_of(rook),
        accounted(old, before, writer, rook, masks, n),
        fine ==> kept(before, rook, masks, n),
        fine == (fits_upto(old, rook, masks, n) && slots_cover(rook, masks, pair_sq(rook, n))),
        0 <= pair_slot(rook, masks, n) < before.len(),
        pair_set(rook, masks, n, a),
        before[pair_slot(rook, masks, n)] == 0 || before[pair_slot(rook, masks, n)] == a,
    ensures
        accounted(
            old,
            before.update(pair_slot(rook, masks, n), a),
            writer.update(pair_slot(rook, masks, n), n),
            rook,
            masks,
            n + 1,
        ),
        fine ==> kept(before.update(pair_slot(rook, masks, n), a), rook, masks, n + 1),
        fine == (fits_upto(old, rook, masks, n + 1) && slots_cover(rook, masks, pair_sq(rook, n))),
{
    let j = pair_slot(rook, masks, n);
    let after = before.update(j, a);
    let cur = before[j];
    assert(pair_sq(rook, n) < 64);
    if fine {
        assert forall|m: int| 0 <= m < n + 1 implies 0 <= #[trigger] pair_slot(rook, masks, m)
            < after.len() && pair_set(rook, masks, m, after[pair_slot(rook, masks, m)]) by {
            if m < n && pair_slot(rook, masks, m) == j {
                lemma_pair_sets(rook, masks, m, n, cur, a);
            }
        }
        assert forall|k: int| 0 <= k < n + 1 implies #[trigger] pair_fits(old, rook, masks, k) by {
            if k == n {
                let w = writer[j];
                if w != -1 {
                    lemma_pair_sets(rook, masks, w, n, cur, a);
                    assert(pair_fits(old, rook, masks, w));
                    if old[j] != 0 {
                        lemma_one_set(rook, masks, w, old[j], cur);
                    }
                }
            }
        }
        assert forall|m: int, k: int| 0 <= m < n + 1 && 0 <= k < n + 1 implies #[trigger] pair_agrees(
            rook,
            masks,
            m,
            k,
        ) by {
            if pair_slot(rook, masks, m) == pair_slot(rook, masks, k) {
                if m < n && k < n {
                    assert(pair_agrees(rook, masks, m, k));
                } else {
                    assert(pair_set(rook, masks, m, after[j]));
                    assert(pair_set(rook, masks, k, after[j]));
                    lemma_pair_sets(rook, masks, m, k, after[j], after[j]);
                }
            }
        }
    } else {
        if fits_upto(old, rook, masks, n + 1) {
            assert forall|k: int| 0 <= k < n implies #[trigger] pair_fits(old, rook, masks, k) by {}
            assert forall|m: int, k: int| 0 <= m < n && 0 <= k < n implies #[trigger] pair_agrees(
                rook,
                masks,
                m,
                k,
            ) by {}
        }
    }
}

/// A slot that holds another set than that of the next pair tells that
/// the pairs do not fit.
pub proof fn lemma_fill_fails(
    old: Seq<u64>,
    before: Seq<u64>,
    writer: Seq<int>,
    rook: bool,
    masks: Seq<u64>,
    n: int,
    a: u64,
)
    requires
        0 <= n < 64 * slots_of(rook),
        accounted(old, before, writer, rook, masks, n),
        0 <= pair_slot(rook, masks, n) < before.len(),
        pair_set(rook, masks, n, a),
        before[pair_slot(rook, masks, n)] != 0,
        before[pair_slot(rook, masks, n)] != a,
    ensures
        !fits_upto(old, rook, masks, n + 1),
        accounted(old, before, writer, rook, masks, n + 1),
{
    let j = pair_slot(rook, masks, n);
    let cur = before[j];
    assert(pair_sq(rook, n) < 64);
    if fits_upto(old, rook, masks, n + 1) {
        let w = writer[j];
        assert(pair_fits(old, rook, masks, n));
        if w == -1 {
            lemma_one_set(rook, masks, n, cur, a);
        } else {
            assert(pair_agrees(rook, masks, w, n));
            lemma_pair_sets(rook, masks, w, n, cur, a);
        }
    }
}

/// The number of the first pair of the square `sq`.
pub open spec fn pair_base(rook: bool, sq: int) -> int {
    if rook {
        sq * 4096
    } else {
        sq * 512
    }
}

/// The pair of the square `sq` and the subset number `idx` comes `idx`
/// places after the first pair of the square.
pub proof fn lemma_pair_number(rook: bool, masks: Seq<u64>, sq: int, idx: int)
    requires
        0 <= sq < 64,
        0 <= idx < slots_of(rook),
    ensures
        pair_sq(rook, pair_base(rook, sq) + idx) == sq,
        0 <= pair_base(rook, sq) + idx < 64 * slots_of(rook),
        pair_sub(rook, masks, pair_base(rook, sq) + idx) == deposit(idx as u64, masks[sq], 0),
        pair_slot(rook, masks, pair_base(rook, sq) + idx) == slot(
            rook,
            sq as u8,
            deposit(idx as u64, masks[sq], 0),
        ),
        pair_base(rook, sq + 1) == pair_base(rook, sq) + slots_of(rook),
{
}

/// The attack sets of the leapers by square, and those of the sliders by
/// square and blockers, the latter in one table of slots.
pub struct AttackTable {
    knights: [u64; 64],
    kings: [u64; 64],
    rook_mask: [u64; 64],
    bishop_mask: [u64; 64],
    attacks: Vec<u64>,
    exact: bool,
}

/// The distance between two coordinates.
pub fn abs_diff(a: u8, b: u8) -> (r: u8)
    ensures
        r == crate::geometry::dist(a as int, b as int),
{
    if a < b {
        b - a
    } else {
        a - b
    }
}

impl AttackTable {
    /// Every lookup returns the true attack set.
    pub closed spec fn wf(&self) -> bool {
        &&& forall|i: int| 0 <= i < 64 ==> is_knight_set(#[trigger] self.knights[i], i as u8)
        &&& forall|i: int| 0 <= i < 64 ==> is_king_set(#[trigger] self.kings[i], i as u8)
        &&& forall|i: int|
            0 <= i < 64 ==> is_relevant_set(true, #[trigger] self.rook_mask[i], i as u8)
        &&& forall|i: int|
            0 <= i < 64 ==> is_relevant_set(false, #[trigger] self.bishop_mask[i], i as u8)
        &&& self.attacks.len() == TABLE_SIZE
        &&& self.exact ==> forall|i: int, occ: u64|
            0 <= i < 64 ==> #[trigger] entry_ok(self.attacks@, true, i, self.rook_mask[i], occ)
        &&& self.exact ==> forall|i: int, occ: u64|
            0 <= i < 64 ==> #[trigger] entry_ok(self.attacks@, false, i, self.bishop_mask[i], occ)
    }

    /// The sliders are answered from the table.
    pub closed spec fn uses_table(&self) -> bool {
        self.exact
    }

    /// Whether the multipliers were found free of collisions, so that the
    /// sliders are answered from the table; else each lookup walks the rays.
    pub fn is_exact(&self) -> (r: bool)
        ensures
            r == self.uses_table(),
    {
        self.exact
    }

    fn init_knights() -> (r: [u64; 64])
        ensures
            forall|i: int| 0 <= i < 64 ==> is_knight_set(#[trigger] r[i], i as u8),
    {
        let mut r: [u64; 64] = [0u64; 64];
        let mut sq: u8 = 0;
        while sq < 64
            invariant
                sq <= 64,
                forall|i: int| 0 <= i < sq ==> is_knight_set(#[trigger] r[i], i as u8),
            decreases 64 - sq,
        {
            let mut b: u64 = 0;
            let mut t: u8 = 0;
            proof {
                lemma_bit_ops();
            }
            while t < 64
                invariant
                    sq < 64,
                    t <= 64,
                    forall|x: u8| x < 64 ==> (#[trigger] bit_at(b, x) <==> (x < t && knight_reach(sq, x))),
                decreases 64 - t,
            {
                let dr: u8 = abs_diff(sq / 8, t / 8);
                let df: u8 = abs_diff(sq % 8, t % 8);
                proof {
                    lemma_bit_ops();
                }
                if (dr == 1 && df == 2) || (dr == 2 && df == 1) {
                    b.set(t);
                }
                t += 1;
            }
            r[sq as usize] = b;
            sq += 1;
        }
        r
    }

    fn init_kings() -> (r: [u64; 64])
        ensures
            forall|i: int| 0 <= i < 64 ==> is_king_set(#[trigger] r[i], i as u8),
    {
        let mut r: [u64; 64] = [0u64; 64];
        let mut sq: u8 = 0;
        while sq < 64
            invariant
                sq <= 64,
                forall|i: int| 0 <= i < sq ==> is_king_set(#[trigger] r[i], i as u8),
            decreases 64 - sq,
        {
            let mut b: u64 = 0;
            let mut t: u8 = 0;
            proof {
                lemma_bit_ops();
            }
            while t < 64
                invariant
                    sq < 64,
                    t <= 64,
                    forall|x: u8| x < 64 ==> (#[trigger] bit_at(b, x) <==> (x < t && king_reach(sq, x))),
                decreases 64 - t,
            {
                let dr: u8 = abs_diff(sq / 8, t / 8);
                let df: u8 = abs_diff(sq % 8, t % 8);
                proof {
                    lemma_bit_ops();
                }
                if t != sq && dr <= 1 && df <= 1 {
                    b.set(t);
                }
                t += 1;
            }
            r[sq as usize] = b;
            sq += 1;
        }
        r
    }

    /// The relevant squares of a slider, by square.
    fn init_masks(rook: bool) -> (r: [u64; 64])
        ensures
            forall|i: int| 0 <= i < 64 ==> is_relevant_set(rook, #[trigger] r[i], i as u8),
    {
        let mut r: [u64; 64] = [0u64; 64];
        let mut sq: u8 = 0;
        while sq < 64
            invariant
                sq <= 64,
                forall|i: int| 0 <= i < sq ==> is_relevant_set(rook, #[trigger] r[i], i as u8),
            decreases 64 - sq,
        {
            let mut b: u64 = 0;
            let mut t: u8 = 0;
            proof {
                lemma_bit_ops();
            }
            while t < 64
                invariant
                    sq < 64,
                    t <= 64,
                    forall|x: u8|
                        x < 64 ==> (#[trigger] bit_at(b, x) <==> (x < t && slider_relevant(rook, sq, x))),
                decreases 64 - t,
            {
                let (rs, fs): (u8, u8) = (sq / 8, sq % 8);
                let (rt, ft): (u8, u8) = (t / 8, t % 8);
                let inner_r: bool = 1 <= rt && rt <= 6;
                let inner_f: bool = 1 <= ft && ft <= 6;
                let relevant: bool = if rook {
                    t != sq && ((rs == rt && inner_f) || (fs == ft && inner_r))
                } else {
                    t != sq && (rs + ft == rt + fs || rs + fs == rt + ft) && inner_r && inner_f
                };
                proof {
                    lemma_bit_ops();
                }
                if relevant {
                    b.set(t);
                }
                t += 1;
            }
            r[sq as usize] = b;
            sq += 1;
        }
        r
    }

    /// What a rook on `sq` attacks past `blockers`, by walking its four rays.
    pub fn calc_rook_attacks(sq: usize, blockers: BitBoard) -> (atks: BitBoard)
        requires
            sq < 64,
        ensures
            is_rook_set(atks, sq as u8, blockers),
    {
        let a: u8 = sq as u8;
        let n: u64 = slide(a, 1, 0, blockers);
        let s: u64 = slide(a, -1, 0, blockers);
        let e: u64 = slide(a, 0, 1, blockers);
        let w: u64 = slide(a, 0, -1, blockers);
        let atks: u64 = n | s | e | w;
        proof {
            lemma_bit_logic();
            assert forall|t: u8| t < 64 implies (#[trigger] bit_at(atks, t) <==> rook_reach(
                a,
                t,
                blockers,
            )) by {
                lemma_rook_rays(a, t);
                assert(bit_at(atks, t) <==> (bit_at(n, t) || bit_at(s, t) || bit_at(e, t) || bit_at(
                    w,
                    t,
                )));
            }
        }
        atks
    }

    /// What a bishop on `sq` attacks past `blockers`, by walking its four rays.
    pub fn calc_bishop_attacks(sq: usize, blockers: BitBoard) -> (atks: BitBoard)
        requires
            sq < 64,
        ensures
            is_bishop_set(atks, sq as u8, blockers),
    {
        let a: u8 = sq as u8;
        let ne: u64 = slide(a, 1, 1, blockers);
        let sw: u64 = slide(a, -1, -1, blockers);
        let nw: u64 = slide(a, 1, -1, blockers);
        let se: u64 = slide(a, -1, 1, blockers);
        let atks: u64 = ne | sw | nw | se;
        proof {
            lemma_bit_logic();
            assert forall|t: u8| t < 64 implies (#[trigger] bit_at(atks, t) <==> bishop_reach(
                a,
                t,
                blockers,
            )) by {
                lemma_bishop_rays(a, t);
                assert(bit_at(atks, t) <==> (bit_at(ne, t) || bit_at(sw, t) || bit_at(nw, t)
                    || bit_at(se, t)));
            }
        }
        atks
    }

    /// Fills the slots of one kind of slider: for every square and every
    /// subset of its relevant squares, the rays are walked and the result is
    /// stored where the multiplier sends the subset. Answers whether no slot
    /// was claimed by two different sets and the slots sufficed.
    #[verifier::rlimit(50)]
    fn fill(attacks: &mut Vec<u64>, rook: bool, masks: &[u64; 64]) -> (ok: bool)
        requires
            old(attacks).len() == TABLE_SIZE,
            forall|i: int| 0 <= i < 64 ==> is_relevant_set(rook, #[trigger] masks[i], i as u8),
        ensures
            final(attacks).len() == TABLE_SIZE,
            forall|r: bool, s: u8, sub: u64| #[trigger]
                covered(old(attacks)@, r, s, sub) ==> covered(final(attacks)@, r, s, sub),
            ok ==> forall|i: int, occ: u64|
                0 <= i < 64 ==> #[trigger] entry_ok(final(attacks)@, rook, i, masks[i], occ),
            ok == fits_upto(old(attacks)@, rook, masks@, 64 * slots_of(rook)),
            forall|j: int|
                0 <= j < TABLE_SIZE ==> #[trigger] final(attacks)@[j] == old(attacks)@[j] || (old(attacks)@[j] == 0 && exists|n: int|
                    0 <= n < 64 * slots_of(rook) && #[trigger] pair_slot(rook, masks@, n) == j
                        && pair_set(rook, masks@, n, final(attacks)@[j])),
    {
        let mut ok: bool = true;
        let mut sq: usize = 0;
        let ghost mut writer: Seq<int> = Seq::new(TABLE_SIZE as nat, |j: int| -1int);
        let slots: u64 = if rook {
            ROOK_SLOTS as u64
        } else {
            BISHOP_SLOTS as u64
        };
        let ghost width: u8 = if rook {
            12u8
        } else {
            9u8
        };
        proof {
            assert(low_ones(12) == 4095 && low_ones(9) == 511) by (bit_vector);
        }
        while sq < 64
            invariant
                sq <= 64,
                attacks.len() == TABLE_SIZE,
                slots == low_ones(width) + 1,
                width < 64,
                forall|i: int| 0 <= i < 64 ==> is_relevant_set(rook, #[trigger] masks[i], i as u8),
                forall|r: bool, s: u8, sub: u64| #[trigger]
                    covered(old(attacks)@, r, s, sub) ==> covered(attacks@, r, s, sub),
                ok ==> forall|i: int, occ: u64|
                    0 <= i < sq ==> #[trigger] entry_ok(attacks@, rook, i, masks[i], occ),
                width == width_of(rook),
                slots == slots_of(rook),
                accounted(old(attacks)@, attacks@, writer, rook, masks@, pair_base(rook, sq as int)),
                ok ==> kept(attacks@, rook, masks@, pair_base(rook, sq as int)),
                ok == fits_upto(old(attacks)@, rook, masks@, pair_base(rook, sq as int)),
                forall|j: int|
                    0 <= j < TABLE_SIZE ==> #[trigger] attacks@[j] == old(attacks)@[j] || old(attacks)@[j]
                        == 0,
            decreases 64 - sq,
        {
            let mask: u64 = masks[sq];
            proof {
                lemma_bit_ops();
                assert(!bit_at(mask, sq as u8));
                assert(mask != 0xFFFF_FFFF_FFFF_FFFFu64) by {
                    if mask == 0xFFFF_FFFF_FFFF_FFFFu64 {
                        lemma_bit_logic();
                        assert(bit_at(!0u64, sq as u8));
                        assert(!0u64 == 0xFFFF_FFFF_FFFF_FFFFu64) by (bit_vector);
                    }
                }
            }
            if pdep(slots - 1, mask) != mask {
                ok = false;
            }
            let mut idx: u64 = 0;
            let ghost at_start = attacks@;
            let ghost base = pair_base(rook, sq as int);
            proof {
                lemma_pair_number(rook, masks@, sq as int, 0);
                if fits_upto(old(attacks)@, rook, masks@, pair_base(rook, sq + 1)) {
                    assert(pair_fits(old(attacks)@, rook, masks@, base));
                }
            }
            while idx < slots
                invariant
                    sq < 64,
                    idx <= slots,
                    attacks.len() == TABLE_SIZE,
                    slots == low_ones(width) + 1,
                    mask == masks[sq as int],
                    mask != 0xFFFF_FFFF_FFFF_FFFFu64,
                    ok ==> spec_pdep(low_ones(width), mask) == mask,
                    ok ==> forall|i: int, occ: u64|
                        0 <= i < sq ==> #[trigger] entry_ok(at_start, rook, i, masks[i], occ),
                    forall|r: bool, s: u8, sub: u64| #[trigger]
                        covered(at_start, r, s, sub) ==> covered(attacks@, r, s, sub),
                    ok ==> forall|k: u64|
                        k < idx ==> covered(attacks@, rook, sq as u8, #[trigger] deposit(k, mask, 0)),
                    width == width_of(rook),
                    slots == slots_of(rook),
                    base == pair_base(rook, sq as int),
                    writer.len() == TABLE_SIZE,
                    accounted(old(attacks)@, attacks@, writer, rook, masks@, base + idx),
                    ok ==> kept(attacks@, rook, masks@, base + idx),
                    ok == (fits_upto(old(attacks)@, rook, masks@, base + idx) && slots_cover(
                        rook,
                        masks@,
                        sq as int,
                    )),
                    forall|j: int|
                        0 <= j < TABLE_SIZE ==> #[trigger] attacks@[j] == old(attacks)@[j] || old(attacks)@[j] == 0,
                decreases slots - idx,
            {
                let blockers: u64 = pdep(idx, mask);
                let attack: u64 = if rook {
                    Self::calc_rook_attacks(sq, blockers)
                } else {
                    Self::calc_bishop_attacks(sq, blockers)
                };
                let j: usize = slot_of(rook, sq, blockers);
                let cur: u64 = attacks[j];
                proof {
                    lemma_pair_number(rook, masks@, sq as int, idx as int);
                    assert(pair_set(rook, masks@, base + idx, attack));
                }
                if cur == 0 || cur == attack {
                    let ghost before = attacks@;
                    attacks.set(j, attack);
                    proof {
                        lemma_fill_stores(
                            old(attacks)@,
                            before,
                            writer,
                            rook,
                            masks@,
                            base + idx,
                            attack,
                            ok,
                        );
                        writer = writer.update(j as int, base + idx);
                        assert forall|r: bool, s: u8, sub: u64| #[trigger]
                            covered(before, r, s, sub) implies covered(attacks@, r, s, sub) by {
                            lemma_write_keeps(before, j as int, attack, r, s, sub);
                        }
                        assert(covered(attacks@, rook, sq as u8, blockers));
                    }
                } else {
                    proof {
                        lemma_fill_fails(
                            old(attacks)@,
                            attacks@,
                            writer,
                            rook,
                            masks@,
                            base + idx,
                            attack,
                        );
                    }
                    ok = false;
                }
                idx += 1;
            }
            proof {
                if ok {
                    assert forall|occ: u64| #[trigger]
                        entry_ok(attacks@, rook, sq as int, mask, occ) by {
                        let sub = occ & mask;
                        lemma_bit_logic();
                        let v = lemma_deposit_onto(mask, 0, width, sub);
                        assert(covered(attacks@, rook, sq as u8, deposit(v, mask, 0)));
                    }
                    assert forall|i: int, occ: u64| 0 <= i < sq + 1 implies #[trigger] entry_ok(
                        attacks@,
                        rook,
                        i,
                        masks[i],
                        occ,
                    ) by {
                        if i < sq {
                            assert(entry_ok(at_start, rook, i, masks[i], occ));
                        }
                    }
                }
            }
            sq += 1;
        }
        proof {
            assert forall|j: int| 0 <= j < TABLE_SIZE implies #[trigger] attacks@[j] == old(attacks)@[j]
                || (old(attacks)@[j] == 0 && exists|n: int|
                0 <= n < 64 * slots_of(rook) && #[trigger] pair_slot(rook, masks@, n) == j && pair_set(
                    rook,
                    masks@,
                    n,
                    attacks@[j],
                )) by {
                if attacks@[j] != old(attacks)@[j] {
                    let w = writer[j];
                    assert(w != -1);
                    assert(pair_slot(rook, masks@, w) == j);
                }
            }
        }
        ok
    }

    /// The relevant squares of the rook by square, and its slots filled;
    /// whether they were filled without a collision.
    fn init_rooks(attacks: &mut Vec<u64>) -> (r: ([u64; 64], bool))
        requires
            old(attacks).len() == TABLE_SIZE,
        ensures
            final(attacks).len() == TABLE_SIZE,
            forall|i: int| 0 <= i < 64 ==> is_relevant_set(true, #[trigger] r.0[i], i as u8),
            forall|k: bool, s: u8, sub: u64| #[trigger]
                covered(old(attacks)@, k, s, sub) ==> covered(final(attacks)@, k, s, sub),
            r.1 ==> forall|i: int, occ: u64|
                0 <= i < 64 ==> #[trigger] entry_ok(final(attacks)@, true, i, r.0[i], occ),
            r.1 == fits_upto(old(attacks)@, true, r.0@, 64 * slots_of(true)),
            forall|j: int|
                0 <= j < TABLE_SIZE ==> #[trigger] final(attacks)@[j] == old(attacks)@[j] || (old(attacks)@[j]
                    == 0 && exists|n: int|
                    0 <= n < 64 * slots_of(true) && #[trigger] pair_slot(true, r.0@, n) == j && pair_set(
                        true,
                        r.0@,
                        n,
                        final(attacks)@[j],
                    )),
    {
        let masks = Self::init_masks(true);
        let ok: bool = Self::fill(attacks, true, &masks);
        (masks, ok)
    }

    /// The relevant squares of the bishop by square, and its slots filled;
    /// whether they were filled without a collision.
    fn init_bishops(attacks: &mut Vec<u64>) -> (r: ([u64; 64], bool))
        requires
            old(attacks).len() == TABLE_SIZE,
        ensures
            final(attacks).len() == TABLE_SIZE,
            forall|i: int| 0 <= i < 64 ==> is_relevant_set(false, #[trigger] r.0[i], i as u8),
            forall|k: bool, s: u8, sub: u64| #[trigger]
                covered(old(attacks)@, k, s, sub) ==> covered(final(attacks)@, k, s, sub),
            r.1 ==> forall|i: int, occ: u64|
                0 <= i < 64 ==> #[trigger] entry_ok(final(attacks)@, false, i, r.0[i], occ),
            r.1 == fits_upto(old(attacks)@, false, r.0@, 64 * slots_of(false)),
            forall|j: int|
                0 <= j < TABLE_SIZE ==> #[trigger] final(attacks)@[j] == old(attacks)@[j] || (old(attacks)@[j]
                    == 0 && exists|n: int|
                    0 <= n < 64 * slots_of(false) && #[trigger] pair_slot(false, r.0@, n) == j && pair_set(
                        false,
                        r.0@,
                        n,
                        final(attacks)@[j],
                    )),
    {
        let masks = Self::init_masks(false);
        let ok: bool = Self::fill(attacks, false, &masks);
        (masks, ok)
    }

    /// Builds the tables. The sliders' table is trusted only after every
    /// subset of blockers of every square was stored without a collision.
    pub fn new() -> (r: Self)
        ensures
            r.wf(),
    {
        let knights = Self::init_knights();
        let kings = Self::init_kings();
        let mut attacks: Vec<u64> = Vec::new();
        let mut n: usize = 0;
        while n < TABLE_SIZE
            invariant
                n <= TABLE_SIZE,
                attacks.len() == n,
            decreases TABLE_SIZE - n,
        {
            attacks.push(0);
            n += 1;
        }
        let (rook_mask, rooks_ok) = Self::init_rooks(&mut attacks);
        let ghost mid = attacks@;
        let (bishop_mask, bishops_ok) = Self::init_bishops(&mut attacks);
        proof {
            if rooks_ok && bishops_ok {
                assert forall|i: int, occ: u64| 0 <= i < 64 implies #[trigger] entry_ok(
                    attacks@,
                    true,
                    i,
                    rook_mask[i],
                    occ,
                ) by {
                    assert(entry_ok(mid, true, i, rook_mask[i], occ));
                }
            }
        }
        AttackTable { knights, kings, rook_mask, bishop_mask, attacks, exact: rooks_ok && bishops_ok }
    }

    /// The squares that a knight on `sq` attacks.
    pub fn knight_attacks(&self, sq: usize) -> (r: BitBoard)
        requires
            self.wf(),
            sq < 64,
        ensures
            is_knight_set(r, sq as u8),
    {
        self.knights[sq]
    }

    /// The squares that a king on `sq` attacks.
    pub fn king_attacks(&self, sq: usize) -> (r: BitBoard)
        requires
            self.wf(),
            sq < 64,
        ensures
            is_king_set(r, sq as u8),
    {
        self.kings[sq]
    }

    /// The squares that a rook on `sq` attacks past `blockers`, the first blocker on each line included.
    pub fn rook_attacks(&self, sq: usize, blockers: BitBoard) -> (r: BitBoard)
        requires
            self.wf(),
            sq < 64,
        ensures
            is_rook_set(r, sq as u8, blockers),
    {
        if self.exact {
            let mask: u64 = self.rook_mask[sq];
            let j: usize = slot_of(true, sq, blockers & mask);
            proof {
                assert(entry_ok(self.attacks@, true, sq as int, mask, blockers));
                lemma_relevant_only(true, sq as u8, mask, blockers);
            }
            self.attacks[j]
        } else {
            Self::calc_rook_attacks(sq, blockers)
        }
    }

    /// The squares that a bishop on `sq` attacks past `blockers`, the first blocker on each line included.
    pub fn bishop_attacks(&self, sq: usize, blockers: BitBoard) -> (r: BitBoard)
        requires
            self.wf(),
            sq < 64,
        ensures
            is_bishop_set(r, sq as u8, blockers),
    {
        if self.exact {
            let mask: u64 = self.bishop_mask[sq];
            let j: usize = slot_of(false, sq, blockers & mask);
            proof {
                assert(entry_ok(self.attacks@, false, sq as int, mask, blockers));
                lemma_relevant_only(false, sq as u8, mask, blockers);
            }
            self.attacks[j]
        } else {
            Self::calc_bishop_attacks(sq, blockers)
        }
    }

    /// The squares that a queen on `sq` attacks past `blockers`.
    pub fn queen_attacks(&self, sq: usize, blockers: BitBoard) -> (r: BitBoard)
        requires
            self.wf(),
            sq < 64,
        ensures
            is_queen_set(r, sq as u8, blockers),
    {
        let b: u64 = self.bishop_attacks(sq, blockers);
        let r: u64 = self.rook_attacks(sq, blockers);
        proof {
            lemma_bit_logic();
        }
        b | r
    }
}

} // verus!
