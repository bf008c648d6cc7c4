//! Magic bitboards for the sliding pieces: per square, the occupancy on
//! the squares that can block (the mask) is multiplied by a magic number,
//! and the high bits of the product index a table of attack sets built in
//! advance. The magic numbers below are those `find_magic` finds, square
//! by square (rooks first, then bishops), from the xorshift64 seed
//! 0xC0FFEE_D15EA5E ^ 0x9E3779B97F4A7C15: sparse random candidates, each
//! kept only when no two subsets of its mask with different attack sets
//! share a slot.
//!
//! Each table slot also keeps the occupancy it was built for, and a lookup
//! whose occupancy is not the one stored falls back to walking the rays, so
//! that a lookup is always the attack set, whatever the magic numbers.

use vstd::prelude::*;
use crate::bitboard::{
    bishop_attacks_of, bishop_set, count_bits, gen_ray, has_bit, is_highest, is_lowest, lemma_bit_zero,
    lemma_ray_index, lemma_ray_leaves, lemma_squares_ops, lemma_squares_single, lsb, msb, ray_blocked, ray_hit,
    ray_set, ray_square, rook_attacks_of, rook_set, squares, valid_dir, Bitboard, popcount, lemma_squares_ext,
};
use crate::types::Square;

verus! {

pub const ROOK_MAGICS: [u64; 64] = [
    0x4080004004611180, 0x414000A00040100A, 0x4080100080200008, 0x0100082100100004,
    0x0100021100040800, 0x8A00080110048200, 0x4100008200010004, 0x0100048148220100,
    0x0020800040003080, 0x0322404010002000, 0x09A0808020001000, 0x5002801000800800,
    0x2004808004008800, 0x4223000401000802, 0x9091000401008200, 0x0942002082004411,
    0x4140008020408000, 0x5440048020008050, 0x0084110020004105, 0x00C00B001000A100,
    0x000E1D0008005100, 0x0105010004000208, 0x0088440010410822, 0x0842220000409114,
    0x0000800080204000, 0x8120100040002040, 0x0000448200221200, 0x0201002100100008,
    0x0206080080040082, 0x0102020080800400, 0x1000040101000200, 0x40C0008200240041,
    0x020281C0048000E4, 0x0060005002400020, 0x0010002800200400, 0x000040120200200A,
    0x1000040801001100, 0x0862810200800400, 0x8204101234000128, 0x004A009C42000405,
    0x0100904002218000, 0x0020003000404000, 0x9020001000208080, 0x0405049000090020,
    0x0400080100050010, 0x1020020004008080, 0x6428481082040001, 0x4832004099060014,
    0x0008A20045028200, 0x2002010040288200, 0x0000100020008080, 0x0104082100100100,
    0x0080800400080080, 0x0102040002008080, 0x0070F00201082400, 0x0002800100006080,
    0x0002108009022043, 0x104040001081002D, 0xE086008141100822, 0x00020D1000090061,
    0x0202001008042002, 0x2201000400020801, 0x0000010802500084, 0x0000811400408426,
];

pub const BISHOP_MAGICS: [u64; 64] = [
    0x0202A00101010104, 0x20C2300400808480, 0x2004010A0E138002, 0xB104051201100080,
    0x0104042100000000, 0x0080901048010014, 0x000A180108880090, 0xA044410090012010,
    0x0010080890208600, 0x0100085800840250, 0x0006100092004020, 0x6004840408808220,
    0x02A0020210009402, 0xA038810120100080, 0x4180240202422000, 0x80101A0062080400,
    0x0410424024082880, 0x0010A00404208400, 0x8024841004220041, 0x012020220208C000,
    0x0044040202110800, 0x0902000822102200, 0x0080401084104808, 0x0241087040482404,
    0x0020608010120A20, 0x0C02080010109080, 0x1040480090062041, 0x2008080090820002,
    0x8081010000104000, 0x0211020201080100, 0x0809162400421002, 0xE000410000840104,
    0x1028205040090228, 0x0002414400A03802, 0xC082008200102024, 0x8000040400380120,
    0x0000408020020200, 0x2020211040120800, 0xAA70310500320098, 0x802801110A002088,
    0x0405180840022434, 0x0000841002300808, 0x0210510801001802, 0x2080004200800802,
    0x0080AA00A2002400, 0x2040500048800040, 0x0050018101000400, 0x0002423408210100,
    0x0007010821048A20, 0x0000320824040108, 0x4102064202410002, 0x0008C00020884000,
    0x0000000505040030, 0x0000400821810020, 0x5204202812008000, 0x040449180A058000,
    0x4200242504104004, 0x0400010301100380, 0x0004000B04150400, 0x2081440028411080,
    0x1022028440082200, 0x0400001020010440, 0x0080048408084100, 0x0008011116120200,
];

// ---------------------------------------------------------------------------
// Relevant squares
// ---------------------------------------------------------------------------

/// The squares of a ray that can block it: all but the last one on the board.
pub open spec fn inner_ray(sq: int, df: int, dr: int) -> Set<int> {
    Set::new(
        |t: int|
            exists|k: int| k >= 1 && #[trigger] ray_square(sq, df, dr, k) == Some(t) && ray_square(sq, df, dr, k + 1) is Some,
    )
}

/// Squares whose occupancy matters to a rook on `sq`.
pub open spec fn rook_relevant(sq: int) -> Set<int> {
    inner_ray(sq, 0, 1).union(inner_ray(sq, 0, -1)).union(inner_ray(sq, 1, 0)).union(inner_ray(sq, -1, 0))
}

/// Squares whose occupancy matters to a bishop on `sq`.
pub open spec fn bishop_relevant(sq: int) -> Set<int> {
    inner_ray(sq, 1, 1).union(inner_ray(sq, -1, 1)).union(inner_ray(sq, 1, -1)).union(inner_ray(sq, -1, -1))
}

pub open spec fn relevant(sq: int, rook: bool) -> Set<int> {
    if rook {
        rook_relevant(sq)
    } else {
        bishop_relevant(sq)
    }
}

pub open spec fn attack_set(sq: int, rook: bool, occ: u64) -> Set<int> {
    if rook {
        rook_set(sq, occ)
    } else {
        bishop_set(sq, occ)
    }
}

/// Whether a ray's squares have rising board indices.
pub open spec fn rising(df: int, dr: int) -> bool {
    dr * 8 + df > 0
}

/// Before an on-board ray square, every ray square is an inner one.
proof fn lemma_before_is_inner(sq: int, df: int, dr: int, j: int, k: int)
    requires
        0 <= sq < 64,
        valid_dir(df, dr),
        1 <= j < k,
        ray_square(sq, df, dr, k) is Some,
        ray_square(sq, df, dr, j) is Some,
    ensures
        inner_ray(sq, df, dr).contains(ray_square(sq, df, dr, j)->0),
{
    if ray_square(sq, df, dr, j + 1) is None {
        lemma_ray_leaves(sq, df, dr, j + 1, k);
    }
}

/// A ray reaches the same squares under two occupancies that agree on its
/// inner squares.
#[verifier::spinoff_prover]
#[verifier::rlimit(50)]
pub proof fn lemma_ray_relevant(sq: int, df: int, dr: int, occ: u64, occ2: u64)
    requires
        0 <= sq < 64,
        valid_dir(df, dr),
        forall|t: int| #[trigger] inner_ray(sq, df, dr).contains(t) ==> has_bit(occ, t) == has_bit(occ2, t),
    ensures
        ray_set(sq, df, dr, occ) == ray_set(sq, df, dr, occ2),
{
    assert forall|k: int| k >= 1 && #[trigger] ray_square(sq, df, dr, k) is Some implies ray_blocked(sq, df, dr, occ, k)
        == ray_blocked(sq, df, dr, occ2, k) by {
        if ray_blocked(sq, df, dr, occ, k) {
            let j = choose|j: int|
                1 <= j < k && #[trigger] ray_square(sq, df, dr, j) is Some && has_bit(occ, ray_square(sq, df, dr, j)->0);
            lemma_before_is_inner(sq, df, dr, j, k);
            assert(has_bit(occ2, ray_square(sq, df, dr, j)->0));
        }
        if ray_blocked(sq, df, dr, occ2, k) {
            let j = choose|j: int|
                1 <= j < k && #[trigger] ray_square(sq, df, dr, j) is Some && has_bit(occ2, ray_square(sq, df, dr, j)->0);
            lemma_before_is_inner(sq, df, dr, j, k);
            assert(has_bit(occ, ray_square(sq, df, dr, j)->0));
        }
    }
    assert forall|t: int| ray_set(sq, df, dr, occ).contains(t) == ray_set(sq, df, dr, occ2).contains(t) by {
        if ray_hit(sq, df, dr, occ, t) {
            let k = choose|k: int| 1 <= k && #[trigger] ray_square(sq, df, dr, k) == Some(t) && !ray_blocked(sq, df, dr, occ, k);
            assert(ray_hit(sq, df, dr, occ2, t));
        }
        if ray_hit(sq, df, dr, occ2, t) {
            let k = choose|k: int| 1 <= k && #[trigger] ray_square(sq, df, dr, k) == Some(t) && !ray_blocked(sq, df, dr, occ2, k);
            assert(ray_hit(sq, df, dr, occ, t));
        }
    }
    assert(ray_set(sq, df, dr, occ) =~= ray_set(sq, df, dr, occ2));
}

/// The empty-board ray holds exactly the on-board ray squares.
proof fn lemma_full_ray(sq: int, df: int, dr: int, t: int)
    requires
        0 <= sq < 64,
        valid_dir(df, dr),
    ensures
        ray_set(sq, df, dr, 0).contains(t) <==> exists|k: int| k >= 1 && #[trigger] ray_square(sq, df, dr, k) == Some(t),
{
    if exists|k: int| k >= 1 && #[trigger] ray_square(sq, df, dr, k) == Some(t) {
        let k = choose|k: int| k >= 1 && #[trigger] ray_square(sq, df, dr, k) == Some(t);
        assert forall|j: int| 1 <= j < k && #[trigger] ray_square(sq, df, dr, j) is Some implies !has_bit(
            0,
            ray_square(sq, df, dr, j)->0,
        ) by {
            let x = ray_square(sq, df, dr, j)->0;
            if 0 <= x < 64 {
                lemma_bit_zero(x as u64);
            }
        }
        assert(!ray_blocked(sq, df, dr, 0, k));
        assert(ray_hit(sq, df, dr, 0, t));
    }
}

/// Along a ray the board index moves by the same step each time.
proof fn lemma_ray_order(sq: int, df: int, dr: int, j: int, k: int)
    requires
        0 <= sq < 64,
        valid_dir(df, dr),
        1 <= j < k,
        ray_square(sq, df, dr, j) is Some,
        ray_square(sq, df, dr, k) is Some,
    ensures
        rising(df, dr) ==> ray_square(sq, df, dr, j)->0 < ray_square(sq, df, dr, k)->0,
        !rising(df, dr) ==> ray_square(sq, df, dr, j)->0 > ray_square(sq, df, dr, k)->0,
{
    lemma_ray_index(sq, df, dr, j);
    lemma_ray_index(sq, df, dr, k);
    let step = dr * 8 + df;
    assert(step != 0);
    if step > 0 {
        assert(j * step < k * step) by (nonlinear_arith)
            requires
                j < k,
                step > 0,
        ;
    } else {
        assert(j * step > k * step) by (nonlinear_arith)
            requires
                j < k,
                step < 0,
        ;
    }
}

/// Taking the far end (the highest square of a rising ray, the lowest of a
/// falling one) off a full ray leaves its inner squares.
#[verifier::spinoff_prover]
#[verifier::rlimit(50)]
proof fn lemma_trim_far_end(sq: int, df: int, dr: int, ray: u64, end: int)
    requires
        0 <= sq < 64,
        valid_dir(df, dr),
        squares(ray) == ray_set(sq, df, dr, 0),
        rising(df, dr) ==> is_highest(ray, end),
        !rising(df, dr) ==> is_lowest(ray, end),
    ensures
        squares(ray).remove(end) == inner_ray(sq, df, dr),
{
    assert(has_bit(ray, end));
    assert(squares(ray).contains(end));
    lemma_full_ray(sq, df, dr, end);
    let ke = choose|k: int| k >= 1 && #[trigger] ray_square(sq, df, dr, k) == Some(end);
    assert forall|t: int| squares(ray).remove(end).contains(t) == inner_ray(sq, df, dr).contains(t) by {
        lemma_full_ray(sq, df, dr, t);
        if inner_ray(sq, df, dr).contains(t) {
            let k = choose|k: int|
                k >= 1 && #[trigger] ray_square(sq, df, dr, k) == Some(t) && ray_square(sq, df, dr, k + 1) is Some;
            let t2 = ray_square(sq, df, dr, k + 1)->0;
            lemma_full_ray(sq, df, dr, t2);
            assert(squares(ray).contains(t2));
            lemma_ray_order(sq, df, dr, k, k + 1);
            assert(squares(ray).contains(t));
            assert(t != end);
        }
        if squares(ray).remove(end).contains(t) {
            let k = choose|k: int| k >= 1 && #[trigger] ray_square(sq, df, dr, k) == Some(t);
            if ray_square(sq, df, dr, k + 1) is None {
                if ke > k {
                    lemma_ray_leaves(sq, df, dr, k + 1, ke);
                } else if ke < k {
                    lemma_ray_order(sq, df, dr, ke, k);
                }
            }
        }
    }
    assert(squares(ray).remove(end) =~= inner_ray(sq, df, dr));
}

/// The inner squares of the ray from `sq` in direction (df, dr).
#[verifier::spinoff_prover]
#[verifier::rlimit(50)]
pub fn trimmed_ray(sq: Square, df: i8, dr: i8) -> (r: Bitboard)
    requires
        sq < 64,
        valid_dir(df as int, dr as int),
    ensures
        squares(r) == inner_ray(sq as int, df as int, dr as int),
{
    let ray = gen_ray(sq, df, dr);
    if ray == 0 {
        proof {
            lemma_squares_ops(0, 0);
            assert forall|t: int| !inner_ray(sq as int, df as int, dr as int).contains(t) by {
                if inner_ray(sq as int, df as int, dr as int).contains(t) {
                    let k = choose|k: int|
                        k >= 1 && #[trigger] ray_square(sq as int, df as int, dr as int, k) == Some(t) && ray_square(
                            sq as int,
                            df as int,
                            dr as int,
                            k + 1,
                        ) is Some;
                    lemma_full_ray(sq as int, df as int, dr as int, t);
                    assert(squares(ray).contains(t));
                }
            }
            assert(squares(ray) =~= inner_ray(sq as int, df as int, dr as int));
        }
        return ray;
    }
    let end: Square = if (dr as i32) * 8 + (df as i32) > 0 { msb(ray) } else { lsb(ray) };
    let r = ray & !(1u64 << end);
    proof {
        lemma_trim_far_end(sq as int, df as int, dr as int, ray, end as int);
        lemma_squares_ops(ray, 1u64 << end);
        lemma_squares_single(end as u64);
        assert(squares(ray).difference(set![end as int]) =~= squares(ray).remove(end as int));
    }
    r
}

/// The squares whose occupancy matters to a rook on `sq`.
pub fn rook_mask(sq: Square) -> (r: Bitboard)
    requires
        sq < 64,
    ensures
        squares(r) == rook_relevant(sq as int),
{
    let n = trimmed_ray(sq, 0, 1);
    let s = trimmed_ray(sq, 0, -1);
    let e = trimmed_ray(sq, 1, 0);
    let w = trimmed_ray(sq, -1, 0);
    proof {
        lemma_squares_ops(n, s);
        lemma_squares_ops(n | s, e);
        lemma_squares_ops((n | s) | e, w);
    }
    ((n | s) | e) | w
}

/// The squares whose occupancy matters to a bishop on `sq`.
pub fn bishop_mask(sq: Square) -> (r: Bitboard)
    requires
        sq < 64,
    ensures
        squares(r) == bishop_relevant(sq as int),
{
    let ne = trimmed_ray(sq, 1, 1);
    let nw = trimmed_ray(sq, -1, 1);
    let se = trimmed_ray(sq, 1, -1);
    let sw = trimmed_ray(sq, -1, -1);
    proof {
        lemma_squares_ops(ne, nw);
        lemma_squares_ops(ne | nw, se);
        lemma_squares_ops((ne | nw) | se, sw);
    }
    ((ne | nw) | se) | sw
}

/// A slider's attacks depend only on the occupancy of its relevant squares.
pub proof fn lemma_mask_relevant(sq: int, rook: bool, occ: u64, mask: u64)
    requires
        0 <= sq < 64,
        squares(mask) == relevant(sq, rook),
    ensures
        attack_set(sq, rook, occ & mask) == attack_set(sq, rook, occ),
{
    if rook {
        lemma_agree_on_ray(sq, 0, 1, occ, mask);
        lemma_agree_on_ray(sq, 0, -1, occ, mask);
        lemma_agree_on_ray(sq, 1, 0, occ, mask);
        lemma_agree_on_ray(sq, -1, 0, occ, mask);
        lemma_ray_relevant(sq, 0, 1, occ & mask, occ);
        lemma_ray_relevant(sq, 0, -1, occ & mask, occ);
        lemma_ray_relevant(sq, 1, 0, occ & mask, occ);
        lemma_ray_relevant(sq, -1, 0, occ & mask, occ);
    } else {
        lemma_agree_on_ray(sq, 1, 1, occ, mask);
        lemma_agree_on_ray(sq, -1, 1, occ, mask);
        lemma_agree_on_ray(sq, 1, -1, occ, mask);
        lemma_agree_on_ray(sq, -1, -1, occ, mask);
        lemma_ray_relevant(sq, 1, 1, occ & mask, occ);
        lemma_ray_relevant(sq, -1, 1, occ & mask, occ);
        lemma_ray_relevant(sq, 1, -1, occ & mask, occ);
        lemma_ray_relevant(sq, -1, -1, occ & mask, occ);
    }
}

/// Masking keeps the occupancy of the squares the mask holds.
proof fn lemma_agree_on_ray(sq: int, df: int, dr: int, occ: u64, mask: u64)
    requires
        forall|t: int| #[trigger] inner_ray(sq, df, dr).contains(t) ==> squares(mask).contains(t),
    ensures
        forall|t: int| #[trigger] inner_ray(sq, df, dr).contains(t) ==> has_bit(occ & mask, t) == has_bit(occ, t),
{
    lemma_squares_ops(occ, mask);
    assert forall|t: int| #[trigger] inner_ray(sq, df, dr).contains(t) implies has_bit(occ & mask, t) == has_bit(occ, t) by {
        assert(squares(mask).contains(t));
        assert(squares(occ & mask).contains(t) == (squares(occ).contains(t) && squares(mask).contains(t)));
    }
}

/// Attacks of a rook on `sq` computed by walking its rays.
pub fn rook_attacks_oracle(sq: Square, occ: Bitboard) -> (r: Bitboard)
    requires
        sq < 64,
    ensures
        squares(r) == rook_set(sq as int, occ),
{
    rook_attacks_of(sq, occ)
}

/// Attacks of a bishop on `sq` computed by walking its rays.
pub fn bishop_attacks_oracle(sq: Square, occ: Bitboard) -> (r: Bitboard)
    requires
        sq < 64,
    ensures
        squares(r) == bishop_set(sq as int, occ),
{
    bishop_attacks_of(sq, occ)
}

/// Number of squares of `mask` below `s`.
pub open spec fn below(mask: u64, s: int) -> nat
    decreases s,
{
    if s <= 0 {
        0
    } else {
        below(mask, s - 1) + if has_bit(mask, s - 1) {
            1nat
        } else {
            0nat
        }
    }
}

/// Bit `k` of `index`.
pub open spec fn index_bit(index: usize, k: nat) -> bool {
    (index as int / vstd::arithmetic::power2::pow2(k) as int) % 2 == 1
}

/// The squares of `mask` whose place among the squares of `mask`, counted
/// from the lowest, is a set bit of `index`.
pub open spec fn chosen_subset(index: usize, mask: u64) -> Set<int> {
    Set::new(|s: int| has_bit(mask, s) && index_bit(index, below(mask, s)))
}

/// A square of the mask has fewer mask squares below it than any higher square.
proof fn lemma_below_strict(mask: u64, s1: int, s2: int)
    requires
        0 <= s1 < s2,
        has_bit(mask, s1),
    ensures
        below(mask, s1) < below(mask, s2),
    decreases s2,
{
    if s2 > s1 + 1 {
        lemma_below_strict(mask, s1, s2 - 1);
    }
}

/// Counting up one square at a time, the count below takes every value on
/// its way, each at a square of the mask.
proof fn lemma_below_hits(mask: u64, j: nat, s: int)
    requires
        0 <= s,
        below(mask, s) > j,
    ensures
        exists|t: int| 0 <= t < s && has_bit(mask, t) && #[trigger] below(mask, t) == j,
    decreases s,
{
    if s > 0 {
        if below(mask, s - 1) > j {
            lemma_below_hits(mask, j, s - 1);
        } else {
            assert(has_bit(mask, s - 1) && below(mask, s - 1) == j);
        }
    }
}

/// The subset of `mask` chosen by the bits of `index`: its lowest square
/// when bit 0 is set, its next square when bit 1 is set, and so on.
pub fn subset_from_index(index: usize, mask: Bitboard) -> (r: Bitboard)
    ensures
        squares(r) == chosen_subset(index, mask),
{
    let mut result: u64 = 0;
    let mut m = mask;
    let mut idx = index;
    let ghost mut j: nat = 0;
    proof {
        lemma_squares_ops(0, 0);
        vstd::arithmetic::power::lemma_pow0(2);
        vstd::arithmetic::power2::lemma_pow2(0);
        assert(squares(m) =~= Set::new(|s: int| has_bit(mask, s) && below(mask, s) >= j));
        assert(squares(result) =~= Set::new(
            |s: int| has_bit(mask, s) && below(mask, s) < j && index_bit(index, below(mask, s)),
        ));
    }
    while m != 0
        invariant
            squares(m) == Set::new(|s: int| has_bit(mask, s) && below(mask, s) >= j),
            squares(result) == Set::new(
                |s: int| has_bit(mask, s) && below(mask, s) < j && index_bit(index, below(mask, s)),
            ),
            idx as int == index as int / vstd::arithmetic::power2::pow2(j) as int,
        decreases m,
    {
        let low = lsb(m);
        let bit = 1u64 << low;
        proof {
            lemma_squares_single(low as u64);
            lemma_squares_ops(m, bit);
            lemma_squares_ops(result, bit);
            assert(m & !bit < m) by (bit_vector)
                requires
                    m != 0,
                    bit == 1u64 << low,
                    low < 64,
                    (m >> (low as u64)) & 1 == 1,
            ;
            assert(squares(m).contains(low as int));
            if below(mask, low as int) > j {
                lemma_below_hits(mask, j, low as int);
                let t = choose|t: int| 0 <= t < low && has_bit(mask, t) && #[trigger] below(mask, t) == j;
                assert(squares(m).contains(t));
            }
            assert(below(mask, low as int) == j);
            assert forall|s: int| has_bit(mask, s) && below(mask, s) == j implies s == low by {
                if s < low {
                    lemma_below_strict(mask, s, low as int);
                } else if s > low {
                    lemma_below_strict(mask, low as int, s);
                }
            }
        }
        let odd = idx & 1 != 0;
        proof {
            assert(odd == (idx % 2 == 1)) by (bit_vector)
                requires
                    odd == (idx & 1 != 0),
            ;
        }
        if odd {
            result = result | bit;
        }
        m = m & !bit;
        let ghost old_idx = idx;
        idx = idx >> 1;
        proof {
            assert(idx == old_idx / 2) by (bit_vector)
                requires
                    idx == old_idx >> 1,
            ;
            vstd::arithmetic::power2::lemma_pow2_unfold(j + 1);
            vstd::arithmetic::power2::lemma_pow2_pos(j);
            vstd::arithmetic::div_mod::lemma_div_denominator(
                index as int,
                vstd::arithmetic::power2::pow2(j) as int,
                2,
            );
            assert(index_bit(index, j) == odd);
            j = j + 1;
            assert(squares(m) =~= Set::new(|s: int| has_bit(mask, s) && below(mask, s) >= j));
            assert(squares(result) =~= Set::new(
                |s: int| has_bit(mask, s) && below(mask, s) < j && index_bit(index, below(mask, s)),
            ));
        }
    }
    proof {
        lemma_squares_ops(0, 0);
        assert(squares(result) =~= chosen_subset(index, mask)) by {
            assert forall|s: int| #[trigger] chosen_subset(index, mask).contains(s) implies squares(result).contains(s) by {
                assert(!squares(m).contains(s));
            }
        }
    }
    result
}

// ---------------------------------------------------------------------------
// Tables
// ---------------------------------------------------------------------------

/// The table of one square of one piece.
pub struct MagicEntry {
    mask: Bitboard,
    magic: u64,
    shift: u32,
    keys: Vec<Bitboard>,
    table: Vec<Bitboard>,
}

/// `x >> shift` indexes a table of `2^(64 - shift)` slots.
proof fn lemma_index_fits(x: u64, shift: u32)
    requires
        52 <= shift < 64,
    ensures
        (x >> (shift as u64)) < (1u64 << (64 - shift) as u64),
{
    let s = shift as u64;
    let w: u64 = (64 - shift) as u64;
    assert((x >> s) < (1u64 << w)) by (bit_vector)
        requires
            52 <= s < 64,
            w + s == 64,
    ;
}

impl MagicEntry {
    /// The mask holds the relevant squares, and every slot holds the
    /// attack set of the occupancy it keeps.
    pub closed spec fn wf(&self, sq: int, rook: bool) -> bool {
        &&& squares(self.mask) == relevant(sq, rook)
        &&& 52 <= self.shift < 64
        &&& self.table@.len() == (1u64 << (64 - self.shift) as u64) as int
        &&& self.keys@.len() == self.table@.len()
        &&& forall|i: int| 0 <= i < self.table@.len() ==> #[trigger] squares(self.table@[i]) == attack_set(sq, rook, self.keys@[i])
    }

    /// The attack set for occupancy `occ`.
    fn attacks(&self, sq: Square, rook: bool, occ: Bitboard) -> (r: Bitboard)
        requires
            self.wf(sq as int, rook),
            sq < 64,
        ensures
            squares(r) == attack_set(sq as int, rook, occ),
    {
        let key = occ & self.mask;
        let product = key.wrapping_mul(self.magic);
        proof {
            lemma_index_fits(product, self.shift);
            lemma_mask_relevant(sq as int, rook, occ, self.mask);
        }
        let idx = (product >> self.shift) as usize;
        if self.keys[idx] == key {
            self.table[idx]
        } else if rook {
            rook_attacks_of(sq, occ)
        } else {
            bishop_attacks_of(sq, occ)
        }
    }
}

/// Builds the table of one square: every subset of the mask is stored at
/// the slot its product with `magic` selects.
fn build_table(sq: Square, magic: u64, rook: bool) -> (e: MagicEntry)
    requires
        sq < 64,
    ensures
        e.wf(sq as int, rook),
{
    let mask = if rook { rook_mask(sq) } else { bishop_mask(sq) };
    let count = count_bits(mask);
    let bits: u32 = if count < 1 { 1 } else if count > 12 { 12 } else { count };
    let shift: u32 = 64 - bits;
    let size: usize = (1u64 << (bits as u64)) as usize;
    assert(1 <= bits <= 12 ==> (1u64 << (bits as u64)) <= 4096) by (bit_vector);
    let empty_attacks = if rook { rook_attacks_of(sq, 0) } else { bishop_attacks_of(sq, 0) };
    let mut keys: Vec<Bitboard> = Vec::new();
    let mut table: Vec<Bitboard> = Vec::new();
    let mut i: usize = 0;
    while i < size
        invariant
            i <= size,
            size <= 4096,
            keys@.len() == i,
            table@.len() == i,
            squares(empty_attacks) == attack_set(sq as int, rook, 0),
            forall|j: int| 0 <= j < i ==> #[trigger] squares(table@[j]) == attack_set(sq as int, rook, keys@[j]),
        decreases size - i,
    {
        keys.push(0);
        table.push(empty_attacks);
        i += 1;
    }
    let mut n: usize = 0;
    while n < size
        invariant
            sq < 64,
            n <= size,
            size <= 4096,
            52 <= shift < 64,
            size == (1u64 << (64 - shift) as u64) as int,
            keys@.len() == size,
            table@.len() == size,
            forall|j: int| 0 <= j < size ==> #[trigger] squares(table@[j]) == attack_set(sq as int, rook, keys@[j]),
        decreases size - n,
    {
        let occ = subset_from_index(n, mask);
        let attacks = if rook { rook_attacks_of(sq, occ) } else { bishop_attacks_of(sq, occ) };
        let product = occ.wrapping_mul(magic);
        proof {
            lemma_index_fits(product, shift);
        }
        let idx = (product >> shift) as usize;
        keys.set(idx, occ);
        table.set(idx, attacks);
        n += 1;
    }
    MagicEntry { mask, magic, shift, keys, table }
}

/// The magic tables of rooks and bishops on all 64 squares.
pub struct MagicTables {
    rook: Vec<MagicEntry>,
    bishop: Vec<MagicEntry>,
}

impl MagicTables {
    pub closed spec fn wf(&self) -> bool {
        &&& self.rook@.len() == 64
        &&& self.bishop@.len() == 64
        &&& forall|s: int| 0 <= s < 64 ==> (#[trigger] self.rook@[s]).wf(s, true)
        &&& forall|s: int| 0 <= s < 64 ==> (#[trigger] self.bishop@[s]).wf(s, false)
    }

    /// Builds the tables of all squares with the magic numbers above.
    pub fn new() -> (t: MagicTables)
        ensures
            t.wf(),
    {
        let mut rook: Vec<MagicEntry> = Vec::new();
        let mut bishop: Vec<MagicEntry> = Vec::new();
        let mut sq: u8 = 0;
        while sq < 64
            invariant
                sq <= 64,
                rook@.len() == sq,
                bishop@.len() == sq,
                forall|s: int| 0 <= s < sq ==> (#[trigger] rook@[s]).wf(s, true),
                forall|s: int| 0 <= s < sq ==> (#[trigger] bishop@[s]).wf(s, false),
            decreases 64 - sq,
        {
            rook.push(build_table(sq, ROOK_MAGICS[sq as usize], true));
            bishop.push(build_table(sq, BISHOP_MAGICS[sq as usize], false));
            sq += 1;
        }
        MagicTables { rook, bishop }
    }

    /// Squares attacked by a rook on `sq` given occupancy `occ`.
    pub fn rook_attacks(&self, sq: Square, occ: Bitboard) -> (r: Bitboard)
        requires
            self.wf(),
            sq < 64,
        ensures
            squares(r) == rook_set(sq as int, occ),
    {
        self.rook[sq as usize].attacks(sq, true, occ)
    }

    /// Squares attacked by a bishop on `sq` given occupancy `occ`.
    pub fn bishop_attacks(&self, sq: Square, occ: Bitboard) -> (r: Bitboard)
        requires
            self.wf(),
            sq < 64,
        ensures
            squares(r) == bishop_set(sq as int, occ),
    {
        self.bishop[sq as usize].attacks(sq, false, occ)
    }
}

/// The magic tables.
pub fn magic_tables() -> (t: MagicTables)
    ensures
        t.wf(),
{
    MagicTables::new()
}


// ---------------------------------------------------------------------------
// Finding magic numbers
// ---------------------------------------------------------------------------

/// The relevance mask of a rook (or bishop) on `sq`, as a bitboard.
pub open spec fn relevance_mask(sq: int, rook: bool) -> u64 {
    choose|m: u64| squares(m) == relevant(sq, rook)
}

/// The subset of `mask` numbered `n` (as `subset_from_index` builds it).
pub open spec fn subset_bb(n: int, mask: u64) -> u64 {
    choose|o: u64| squares(o) == chosen_subset(n as usize, mask)
}

/// The table slot that `occ` reaches with `magic` and `shift`.
pub open spec fn magic_slot(occ: u64, magic: u64, shift: u32) -> int {
    (vstd::wrapping::u64_specs::wrapping_mul(occ, magic) >> (shift as u64)) as int
}

/// `magic` with `shift` sends two of the first `size` subsets of `mask` to
/// the same slot only when their attack sets are equal: every subset finds
/// its own attack set in its slot.
pub open spec fn magic_works(sq: int, rook: bool, mask: u64, magic: u64, shift: u32, size: int) -> bool {
    forall|n1: int, n2: int|
        #![trigger magic_slot(subset_bb(n1, mask), magic, shift), magic_slot(subset_bb(n2, mask), magic, shift)]
        0 <= n1 < size && 0 <= n2 < size && magic_slot(subset_bb(n1, mask), magic, shift) == magic_slot(
            subset_bb(n2, mask),
            magic,
            shift,
        ) ==> attack_set(sq, rook, subset_bb(n1, mask)) == attack_set(sq, rook, subset_bb(n2, mask))
}

/// The subset numbered `n`, as a bitboard.
fn subset_at(n: usize, mask: u64) -> (r: u64)
    ensures
        r == subset_bb(n as int, mask),
{
    let r = subset_from_index(n, mask);
    proof {
        let o = subset_bb(n as int, mask);
        assert(squares(o) == chosen_subset(n, mask));
        lemma_squares_ext(r, o);
    }
    r
}

/// The next state of a xorshift64 generator.
fn xorshift_next(rng: &mut u64) -> (r: u64)
    ensures
        r == crate::book::xorshift(*old(rng)),
        *final(rng) == r,
{
    let mut x = *rng;
    x = x ^ (x << 13u64);
    x = x ^ (x >> 7u64);
    x = x ^ (x << 17u64);
    *rng = x;
    x
}

/// Whether `magic` with `shift` sends the listed occupancies with different
/// attack sets to different slots of a table of `size` slots.
fn magic_fits(occs: &Vec<u64>, attacks: &Vec<u64>, magic: u64, shift: u32, size: usize) -> (ok: bool)
    requires
        52 <= shift < 64,
        size == (1u64 << (64 - shift) as u64) as int,
        occs@.len() == attacks@.len(),
    ensures
        ok ==> forall|i: int, j: int|
            #![trigger occs@[i], occs@[j]]
            0 <= i < occs@.len() && 0 <= j < occs@.len() && magic_slot(occs@[i], magic, shift) == magic_slot(
                occs@[j],
                magic,
                shift,
            ) ==> squares(attacks@[i]) == squares(attacks@[j]),
{
    let mut table: Vec<Option<u64>> = Vec::new();
    let mut k: usize = 0;
    while k < size
        invariant
            k <= size,
            table@.len() == k,
        decreases size - k,
    {
        table.push(None);
        k += 1;
    }
    let mut i: usize = 0;
    while i < occs.len()
        invariant
            52 <= shift < 64,
            size == (1u64 << (64 - shift) as u64) as int,
            table@.len() == size,
            i <= occs@.len(),
            occs@.len() == attacks@.len(),
            forall|j: int| 0 <= j < i ==> 0 <= #[trigger] magic_slot(occs@[j], magic, shift) < size,
            forall|j: int|
                0 <= j < i ==> (table@[magic_slot(#[trigger] occs@[j], magic, shift)] matches Some(a) && squares(a)
                    == squares(attacks@[j])),
        decreases occs@.len() - i,
    {
        let product = occs[i].wrapping_mul(magic);
        proof {
            lemma_index_fits(product, shift);
        }
        let idx = (product >> shift) as usize;
        assert(idx as int == magic_slot(occs@[i as int], magic, shift));
        match table[idx] {
            None => {
                table.set(idx, Some(attacks[i]));
            },
            Some(existing) => {
                if existing != attacks[i] {
                    return false;
                }
            },
        }
        i += 1;
    }
    proof {
        assert forall|i: int, j: int|
            #![trigger occs@[i], occs@[j]]
            0 <= i < occs@.len() && 0 <= j < occs@.len() && magic_slot(occs@[i], magic, shift) == magic_slot(
                occs@[j],
                magic,
                shift,
            ) implies squares(attacks@[i]) == squares(attacks@[j]) by {
            assert(table@[magic_slot(occs@[i], magic, shift)] matches Some(a) && squares(a) == squares(attacks@[i]));
            assert(table@[magic_slot(occs@[j], magic, shift)] matches Some(a) && squares(a) == squares(attacks@[j]));
        }
    }
    true
}

/// A magic number that fits the listed subsets and their attack sets works.
proof fn lemma_fits_works(
    occs: Seq<u64>,
    attacks: Seq<u64>,
    sq: int,
    rook: bool,
    mask: u64,
    magic: u64,
    shift: u32,
    size: int,
)
    requires
        occs.len() == size,
        attacks.len() == size,
        forall|j: int| 0 <= j < size ==> #[trigger] occs[j] == subset_bb(j, mask),
        forall|j: int| 0 <= j < size ==> #[trigger] squares(attacks[j]) == attack_set(sq, rook, occs[j]),
        forall|i: int, j: int|
            #![trigger occs[i], occs[j]]
            0 <= i < occs.len() && 0 <= j < occs.len() && magic_slot(occs[i], magic, shift) == magic_slot(
                occs[j],
                magic,
                shift,
            ) ==> squares(attacks[i]) == squares(attacks[j]),
    ensures
        magic_works(sq, rook, mask, magic, shift, size),
{
    assert forall|n1: int, n2: int|
        #![trigger magic_slot(subset_bb(n1, mask), magic, shift), magic_slot(subset_bb(n2, mask), magic, shift)]
        0 <= n1 < size && 0 <= n2 < size && magic_slot(subset_bb(n1, mask), magic, shift) == magic_slot(
            subset_bb(n2, mask),
            magic,
            shift,
        ) implies attack_set(sq, rook, subset_bb(n1, mask)) == attack_set(sq, rook, subset_bb(n2, mask)) by {
        assert(occs[n1] == subset_bb(n1, mask));
        assert(occs[n2] == subset_bb(n2, mask));
        assert(squares(attacks[n1]) == squares(attacks[n2]));
    }
}

/// Searches for a magic number of `sq`: draws sparse candidates (three
/// xorshift64 numbers and-ed together) from `rng`, skips those whose product
/// with the whole mask has fewer than 6 bits set in its top byte, and keeps
/// the first under which every subset of the mask finds its own attack set
/// in its slot, with shift 64 minus the number of squares of the mask. It
/// gives up (`None`) after `tries` candidates, and for a mask of more than
/// 12 squares (none has).
#[verifier::spinoff_prover]
pub fn find_magic(sq: Square, rook: bool, rng: &mut u64, tries: u64) -> (r: Option<(u64, u32)>)
    requires
        sq < 64,
    ensures
        r matches Some((magic, shift)) ==> ({
            let mask = relevance_mask(sq as int, rook);
            &&& shift == 64 - popcount(mask)
            &&& magic_works(sq as int, rook, mask, magic, shift, (1u64 << (64 - shift) as u64) as int)
        }),
{
    let mask = if rook { rook_mask(sq) } else { bishop_mask(sq) };
    proof {
        assert(squares(mask) == relevant(sq as int, rook));
        let m = relevance_mask(sq as int, rook);
        assert(squares(m) == relevant(sq as int, rook));
        lemma_squares_ext(mask, m);
    }
    let bits = count_bits(mask);
    if bits < 1 || bits > 12 {
        return None;
    }
    let shift: u32 = 64 - bits;
    let size: usize = (1u64 << (bits as u64)) as usize;
    assert(1 <= bits <= 12 ==> (1u64 << (bits as u64)) <= 4096) by (bit_vector);
    let mut occs: Vec<u64> = Vec::new();
    let mut attacks: Vec<u64> = Vec::new();
    let mut i: usize = 0;
    while i < size
        invariant
            sq < 64,
            i <= size,
            size <= 4096,
            occs@.len() == i,
            attacks@.len() == i,
            forall|j: int| 0 <= j < i ==> #[trigger] occs@[j] == subset_bb(j, mask),
            forall|j: int| 0 <= j < i ==> #[trigger] squares(attacks@[j]) == attack_set(sq as int, rook, occs@[j]),
        decreases size - i,
    {
        let occ = subset_at(i, mask);
        let a = if rook { rook_attacks_of(sq, occ) } else { bishop_attacks_of(sq, occ) };
        occs.push(occ);
        attacks.push(a);
        i += 1;
    }
    let mut t: u64 = 0;
    while t < tries
        invariant
            sq < 64,
            52 <= shift < 64,
            size == (1u64 << (64 - shift) as u64) as int,
            shift == 64 - bits,
            bits == popcount(mask),
            mask == relevance_mask(sq as int, rook),
            occs@.len() == size,
            attacks@.len() == size,
            forall|j: int| 0 <= j < size ==> #[trigger] occs@[j] == subset_bb(j, mask),
            forall|j: int| 0 <= j < size ==> #[trigger] squares(attacks@[j]) == attack_set(sq as int, rook, occs@[j]),
        decreases tries - t,
    {
        t += 1;
        let a = xorshift_next(rng);
        let b = xorshift_next(rng);
        let c = xorshift_next(rng);
        let candidate = a & b & c;
        if count_bits(mask.wrapping_mul(candidate) >> 56u64) < 6 {
            continue;
        }
        if magic_fits(&occs, &attacks, candidate, shift, size) {
            proof {
                lemma_fits_works(occs@, attacks@, sq as int, rook, mask, candidate, shift, size as int);
            }
            return Some((candidate, shift));
        }
    }
    None
}

} // verus!
