//! Multipliers that spread the blockers of a slider over the slots of its table.

use crate::bitbrd::{bit_at, lemma_bit_ext, lemma_bit_logic, lemma_bit_ops};
use bitintr::Pdep;
use vstd::prelude::*;

verus! {

/// Slots that the table holds for a rook on one square.
pub const ROOK_SLOTS: usize = 4096;

/// Slots that the table holds for a bishop on one square.
pub const BISHOP_SLOTS: usize = 512;

/// Where the bishops' part of the table starts.
pub const BISHOP_BASE: usize = 262144;

/// Length of the whole table.
pub const TABLE_SIZE: usize = 294912;

/// Multipliers for the rook's blockers, by square; the slot is the top twelve bits of the product.
pub const ROOK_FACTORS: [u64; 64] = [
    0x0080001024844000, 0x9004001006513005, 0x08100800A0801004, 0x0300040219500020,
    0x6010040001020280, 0x0801080480104020, 0x8010100040820104, 0x00800A30C0800100,
    0x0020080152002010, 0x3080081420514030, 0x0810100090880C41, 0x6010800880060A00,
    0x804801812804C084, 0x0C00082204304106, 0x0100401302002862, 0x00008024C0108108,
    0x3008021002009102, 0x20002010A0000A00, 0x0000804800E20008, 0x32802610000C1120,
    0x0101081005024010, 0x042002020004018C, 0x804800A002000040, 0x0000060000205081,
    0x0500200060001000, 0x0000100040002000, 0x800004200602A000, 0x0000400A00030618,
    0x4200980200200104, 0x0A00341004000088, 0x0D28202411410200, 0x100000601A004004,
    0x0608400010800081, 0x0001090010100024, 0x024A004481100010, 0x0000020500500200,
    0x0608102004004008, 0x0482202201600388, 0x0000021001140040, 0x0020D08002600041,
    0x080680E001009010, 0x20C0004038281000, 0x0000042080501062, 0x4000112414025000,
    0x4000810204400800, 0x8084800200210801, 0x0C018846A4482142, 0x8200144482012002,
    0x0080401020020420, 0x2240041210080004, 0x00000800220010D8, 0x8367008010005001,
    0x0000200110108410, 0x0301C42204801001, 0x2108004008802009, 0x0001004020848380,
    0x0041152240800101, 0x0801044202122082, 0x0402048004200812, 0x0010020010084022,
    0xA008020800100401, 0x0108040010880625, 0x2008904800408164, 0x0800849405002442,
];

/// Multipliers for the bishop's blockers, by square; the slot is the top nine bits of the product.
pub const BISHOP_FACTORS: [u64; 64] = [
    0x4002082E0450C008, 0x0060012101000A00, 0x1004480210080004, 0x0080204050048234,
    0x0004010C00081640, 0x0020209044200408, 0x0081201002880000, 0x00020214211C2084,
    0x040040080200C210, 0x000041CC09001806, 0x8004401190A00580, 0x00480060600C4000,
    0x0800C40062000000, 0x008014C020012110, 0x2280060841442804, 0x0700088400210120,
    0x2040102302448008, 0x000C032105002080, 0x0010000801624A20, 0x0011000040048000,
    0x0042202140201801, 0x8400C0000D0180E0, 0x04124022500C02A1, 0x00808800C4085040,
    0x41880890020C0240, 0x0110080014009020, 0x0890104100410029, 0x800100400C004200,
    0x0900404004010042, 0x2002002002008020, 0x1800408000980100, 0x43200840420200C0,
    0x0803245080022000, 0x1A48041140052020, 0x00401108200A0200, 0x3048208020280200,
    0x8040210010030040, 0x000041040200A080, 0x1480822240000808, 0x0908008008030D00,
    0x00200C0040A00C80, 0x5288411090000400, 0x000C24004A012100, 0x0000000208080140,
    0x0000841040100400, 0x60810042040AA880, 0x0400A80084028080, 0x00008C04402C04A0,
    0x022101A040400028, 0x0084649080100100, 0x0000410032420021, 0x000328308C003000,
    0x0240614412608CA1, 0x00000408C842A221, 0x0010560AA4148060, 0x2200921508400A02,
    0x000040C600119000, 0x0801001080180080, 0x4040011040182401, 0x00080000008A2010,
    0x0000401040208184, 0x0000284008410040, 0x0118888592880021, 0x01908106402A0882,
];

/// The bits of `value`, lowest first, laid on the members of `mask` from square `i` upwards.
pub open spec fn deposit(value: u64, mask: u64, i: u8) -> u64
    decreases 64 - i,
{
    if i >= 64 {
        0
    } else if bit_at(mask, i) {
        (if value & 1 == 1 {
            1u64 << i
        } else {
            0u64
        }) | deposit(value >> 1, mask, (i + 1) as u8)
    } else {
        deposit(value, mask, (i + 1) as u8)
    }
}

/// Parallel bit deposit: the low bits of `value` scattered to the members of `mask`, in order.
pub open spec fn spec_pdep(value: u64, mask: u64) -> u64 {
    deposit(value, mask, 0)
}

/// `bitintr::Pdep::pdep` on `u64`: scatters the contiguous low bits of
/// `value` to the positions that `mask` names, lowest first, and leaves every
/// other bit zero. A mask of all ones is left out: the portable loop of the
/// crate doubles its probe bit once more than 64 bits hold.
#[verifier::external_body]
pub(crate) fn pdep(value: u64, mask: u64) -> (r: u64)
    requires
        mask != 0xFFFF_FFFF_FFFF_FFFF,
    ensures
        r == spec_pdep(value, mask),
{
    value.pdep(mask)
}

/// The `n` lowest bits.
pub open spec fn low_ones(n: u8) -> u64 {
    ((1u64 << n) - 1) as u64
}

proof fn lemma_low_ones()
    by (bit_vector)
    ensures
        low_ones(0) == 0,
        forall|n: u8| 1 <= n < 64 ==> #[trigger] low_ones(n) & 1 == 1,
        forall|n: u8| 1 <= n < 64 ==> #[trigger] low_ones(n) >> 1 == low_ones((n - 1) as u8),
{
}

proof fn lemma_push_bit(v: u64, n: u8)
    by (bit_vector)
    requires
        1 <= n < 64,
        v <= low_ones((n - 1) as u8),
    ensures
        ((v << 1) | 1) <= low_ones(n),
        ((v << 1) | 1) & 1 == 1,
        ((v << 1) | 1) >> 1 == v,
        (v << 1) <= low_ones(n),
        (v << 1) & 1 == 0,
        (v << 1) >> 1 == v,
{
}

/// A deposit from square `i` upwards has members of `mask` from `i` upwards only.
pub proof fn lemma_deposit_within(value: u64, mask: u64, i: u8)
    ensures
        forall|t: u8|
            t < 64 && #[trigger] bit_at(deposit(value, mask, i), t) ==> bit_at(mask, t) && t >= i,
    decreases 64 - i,
{
    lemma_bit_ops();
    lemma_bit_logic();
    if i >= 64 {
        assert(deposit(value, mask, i) == 0);
    } else if bit_at(mask, i) {
        lemma_deposit_within(value >> 1, mask, (i + 1) as u8);
        let d = deposit(value >> 1, mask, (i + 1) as u8);
        let x = if value & 1 == 1 { 1u64 << i } else { 0u64 };
        assert(deposit(value, mask, i) == x | d);
        assert forall|t: u8| t < 64 && #[trigger] bit_at(deposit(value, mask, i), t) implies bit_at(mask, t) && t >= i by {
            assert(bit_at(x | d, t));
            assert(bit_at(x, t) || bit_at(d, t));
        }
    } else {
        lemma_deposit_within(value, mask, (i + 1) as u8);
        assert(deposit(value, mask, i) == deposit(value, mask, (i + 1) as u8));
    }
}

/// If `n` one bits fill the members of `mask` from `i` upwards, every subset
/// of those members is the deposit of a value below two to the `n`.
pub proof fn lemma_deposit_onto(mask: u64, i: u8, n: u8, s: u64) -> (v: u64)
    requires
        i <= 64,
        n < 64,
        forall|t: u8| t < 64 && bit_at(s, t) ==> bit_at(mask, t) && t >= i,
        forall|t: u8|
            t < 64 && t >= i && bit_at(mask, t) ==> bit_at(deposit(low_ones(n), mask, i), t),
    ensures
        v <= low_ones(n),
        deposit(v, mask, i) == s,
    decreases 64 - i,
{
    lemma_bit_ops();
    lemma_bit_logic();
    lemma_low_ones();
    if i >= 64 {
        lemma_bit_ext(s, 0);
        0
    } else if bit_at(mask, i) {
        let full = low_ones(n);
        lemma_deposit_within(full >> 1, mask, (i + 1) as u8);
        assert(bit_at(deposit(full, mask, i), i));
        assert(n >= 1) by {
            if n == 0 {
                assert(full == 0 ==> full & 1 != 1) by (bit_vector);
                let d = deposit(full >> 1, mask, (i + 1) as u8);
                assert(deposit(full, mask, i) == 0u64 | d);
                assert(bit_at(0u64, i) || bit_at(d, i));
            }
        }
        let rest = s & !(1u64 << i);
        assert forall|t: u8|
            t < 64 && t >= i + 1 && bit_at(mask, t) implies bit_at(
            deposit(low_ones((n - 1) as u8), mask, (i + 1) as u8),
            t,
        ) by {
            assert(bit_at(deposit(full, mask, i), t));
        }
        let w = lemma_deposit_onto(mask, (i + 1) as u8, (n - 1) as u8, rest);
        let v = if bit_at(s, i) {
            (w << 1) | 1
        } else {
            w << 1
        };
        lemma_deposit_within(w, mask, (i + 1) as u8);
        lemma_push_bit(w, n);
        assert(deposit(v, mask, i) == s) by {
            let x = if bit_at(s, i) { 1u64 << i } else { 0u64 };
            assert(v >> 1 == w);
            assert(deposit(v, mask, i) == x | rest);
            assert forall|t: u8| t < 64 implies bit_at(x | rest, t) == bit_at(s, t) by {
                assert(bit_at(x | rest, t) == (bit_at(x, t) || bit_at(rest, t)));
            }
            lemma_bit_ext(x | rest, s);
        }
        v
    } else {
        lemma_deposit_onto(mask, (i + 1) as u8, n, s)
    }
}

/// Where the table keeps what a slider on `sq` attacks past the blockers `sub`, a subset of its mask.
pub open spec fn slot(rook: bool, sq: u8, sub: u64) -> int {
    if rook {
        (ROOK_FACTORS[sq as int].wrapping_mul(sub) >> 52) + sq * 4096
    } else {
        (BISHOP_FACTORS[sq as int].wrapping_mul(sub) >> 55) + 262144 + sq * 512
    }
}

proof fn lemma_slot_bits()
    by (bit_vector)
    ensures
        forall|x: u64| #[trigger] (x >> 52) < 4096,
        forall|x: u64| #[trigger] (x >> 55) < 512,
{
}

/// Computes `slot`.
pub fn slot_of(rook: bool, sq: usize, sub: u64) -> (r: usize)
    requires
        sq < 64,
    ensures
        r == slot(rook, sq as u8, sub),
        r < TABLE_SIZE,
        rook ==> r < BISHOP_BASE,
{
    proof {
        lemma_slot_bits();
    }
    if rook {
        (ROOK_FACTORS[sq].wrapping_mul(sub) >> 52) as usize + sq * ROOK_SLOTS
    } else {
        (BISHOP_FACTORS[sq].wrapping_mul(sub) >> 55) as usize + BISHOP_BASE + sq * BISHOP_SLOTS
    }
}

} // verus!
