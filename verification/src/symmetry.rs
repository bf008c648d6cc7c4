//! The evaluation does not favour either colour: the position seen from
//! the other side (board flipped rank for rank, colours swapped, the other
//! side to move) gets the same evaluation.

use vstd::prelude::*;
use crate::bitboard::{
    bishop_set, dir_step, has_bit, knight_set, knight_target, lemma_bit_and, lemma_bit_not, lemma_bit_or,
    lemma_squares_ops, lemma_squares_single, offset_square, popcount, queen_set, ray_blocked, ray_hit, ray_set,
    ray_square, rook_set, squares, valid_dir,
};
use crate::board::{color_occ, occ_bb, Board};
use crate::eval::{
    adjacent_mask, advancement_bonus, attack_set_of, bb_of, bb_sum, can_be_challenged, centrality_bonus,
    challenge_at, file_hi, file_lo, file_mask, file_term, files_sum, is_connected_spec, is_outpost_square_spec,
    is_passed_spec, king_distance, king_safety_spec, kinds_sum, material, mobility_count, mobility_term,
    open_files_penalty, outpost_bonus_spec, outpost_term, outposts_spec, passed_bonus, passed_term,
    pawn_behind_diag, pawn_structure_spec, phase_raw, promotion_square, pst_term, pst_total, rel_sq,
    relative_rank_spec, side_by_side, value_term, FILE_A, mg_score, eg_score, evaluation, game_phase_spec,
    outposts_relative, taper_spec, tdiv, relative_to_move_spec, breakdown_matches, EvalBreakdown,
};
use crate::board::king_sq;
use crate::types::Color;

verus! {

// ---------------------------------------------------------------------------
// Flipping squares and bitboards
// ---------------------------------------------------------------------------

/// The square on the same file and the mirrored rank.
pub open spec fn flip(s: int) -> int {
    (7 - s / 8) * 8 + s % 8
}

/// `y` holds exactly the squares of `x` flipped.
pub open spec fn flipped(x: u64, y: u64) -> bool {
    forall|s: int| 0 <= s < 64 ==> #[trigger] has_bit(y, s) == has_bit(x, flip(s))
}

pub proof fn lemma_flip(s: int)
    requires
        0 <= s < 64,
    ensures
        0 <= flip(s) < 64,
        flip(flip(s)) == s,
        flip(s) / 8 == 7 - s / 8,
        flip(s) % 8 == s % 8,
{
}

/// Flipping is its own inverse on bitboards.
pub proof fn lemma_flipped_symmetric(x: u64, y: u64)
    requires
        flipped(x, y),
    ensures
        flipped(y, x),
{
    assert forall|s: int| 0 <= s < 64 implies #[trigger] has_bit(x, s) == has_bit(y, flip(s)) by {
        lemma_flip(s);
        assert(has_bit(y, flip(s)) == has_bit(x, flip(flip(s))));
    }
}

pub proof fn lemma_flipped_or(x1: u64, y1: u64, x2: u64, y2: u64)
    requires
        flipped(x1, y1),
        flipped(x2, y2),
    ensures
        flipped(x1 | x2, y1 | y2),
{
    assert forall|s: int| 0 <= s < 64 implies #[trigger] has_bit(y1 | y2, s) == has_bit(x1 | x2, flip(s)) by {
        lemma_flip(s);
        assert(has_bit(y1, s) == has_bit(x1, flip(s)));
        assert(has_bit(y2, s) == has_bit(x2, flip(s)));
        lemma_bit_or(y1, y2, s as u64);
        lemma_bit_or(x1, x2, flip(s) as u64);
    }
}

pub proof fn lemma_flipped_and(x1: u64, y1: u64, x2: u64, y2: u64)
    requires
        flipped(x1, y1),
        flipped(x2, y2),
    ensures
        flipped(x1 & x2, y1 & y2),
{
    assert forall|s: int| 0 <= s < 64 implies #[trigger] has_bit(y1 & y2, s) == has_bit(x1 & x2, flip(s)) by {
        lemma_flip(s);
        assert(has_bit(y1, s) == has_bit(x1, flip(s)));
        assert(has_bit(y2, s) == has_bit(x2, flip(s)));
        lemma_bit_and(y1, y2, s as u64);
        lemma_bit_and(x1, x2, flip(s) as u64);
    }
}

pub proof fn lemma_flipped_not(x: u64, y: u64)
    requires
        flipped(x, y),
    ensures
        flipped(!x, !y),
{
    assert forall|s: int| 0 <= s < 64 implies #[trigger] has_bit(!y, s) == has_bit(!x, flip(s)) by {
        lemma_flip(s);
        assert(has_bit(y, s) == has_bit(x, flip(s)));
        lemma_bit_not(y, s as u64);
        lemma_bit_not(x, flip(s) as u64);
    }
}

// ---------------------------------------------------------------------------
// Sums over flipped bitboards
// ---------------------------------------------------------------------------

/// The terms of the squares of rank `r` set in `x`.
pub open spec fn row_sum(x: u64, f: spec_fn(int) -> int, r: int) -> int {
    bb_sum(x, f, 8 * r + 8) - bb_sum(x, f, 8 * r)
}

proof fn lemma_row_terms(x: u64, f: spec_fn(int) -> int, r: int)
    requires
        0 <= r < 8,
    ensures
        row_sum(x, f, r) == (if has_bit(x, 8 * r) { f(8 * r) } else { 0 }) + (if has_bit(x, 8 * r + 1) {
            f(8 * r + 1)
        } else {
            0
        }) + (if has_bit(x, 8 * r + 2) { f(8 * r + 2) } else { 0 }) + (if has_bit(x, 8 * r + 3) {
            f(8 * r + 3)
        } else {
            0
        }) + (if has_bit(x, 8 * r + 4) { f(8 * r + 4) } else { 0 }) + (if has_bit(x, 8 * r + 5) {
            f(8 * r + 5)
        } else {
            0
        }) + (if has_bit(x, 8 * r + 6) { f(8 * r + 6) } else { 0 }) + (if has_bit(x, 8 * r + 7) {
            f(8 * r + 7)
        } else {
            0
        }),
{
    reveal_with_fuel(bb_sum, 9);
}

/// The sum over a flipped bitboard of a flipped function is the same.
pub proof fn lemma_bb_sum_flip(x: u64, y: u64, f: spec_fn(int) -> int, g: spec_fn(int) -> int)
    requires
        flipped(x, y),
        forall|s: int| 0 <= s < 64 ==> #[trigger] g(s) == f(flip(s)),
    ensures
        bb_sum(y, g, 64) == bb_sum(x, f, 64),
{
    assert forall|r: int| 0 <= r < 8 implies #[trigger] row_sum(y, g, r) == row_sum(x, f, 7 - r) by {
        lemma_row_terms(y, g, r);
        lemma_row_terms(x, f, 7 - r);
        assert forall|i: int| 0 <= i < 8 implies #[trigger] flip(8 * r + i) == 8 * (7 - r) + i by {}
        assert(has_bit(y, 8 * r) == has_bit(x, flip(8 * r)));
        assert(has_bit(y, 8 * r + 1) == has_bit(x, flip(8 * r + 1)));
        assert(has_bit(y, 8 * r + 2) == has_bit(x, flip(8 * r + 2)));
        assert(has_bit(y, 8 * r + 3) == has_bit(x, flip(8 * r + 3)));
        assert(has_bit(y, 8 * r + 4) == has_bit(x, flip(8 * r + 4)));
        assert(has_bit(y, 8 * r + 5) == has_bit(x, flip(8 * r + 5)));
        assert(has_bit(y, 8 * r + 6) == has_bit(x, flip(8 * r + 6)));
        assert(has_bit(y, 8 * r + 7) == has_bit(x, flip(8 * r + 7)));
        assert(g(8 * r) == f(flip(8 * r)));
        assert(g(8 * r + 1) == f(flip(8 * r + 1)));
        assert(g(8 * r + 2) == f(flip(8 * r + 2)));
        assert(g(8 * r + 3) == f(flip(8 * r + 3)));
        assert(g(8 * r + 4) == f(flip(8 * r + 4)));
        assert(g(8 * r + 5) == f(flip(8 * r + 5)));
        assert(g(8 * r + 6) == f(flip(8 * r + 6)));
        assert(g(8 * r + 7) == f(flip(8 * r + 7)));
    }
    assert(bb_sum(x, f, 0) == 0);
    assert(bb_sum(y, g, 0) == 0);
    assert(row_sum(y, g, 0) == row_sum(x, f, 7));
    assert(row_sum(y, g, 1) == row_sum(x, f, 6));
    assert(row_sum(y, g, 2) == row_sum(x, f, 5));
    assert(row_sum(y, g, 3) == row_sum(x, f, 4));
    assert(row_sum(y, g, 4) == row_sum(x, f, 3));
    assert(row_sum(y, g, 5) == row_sum(x, f, 2));
    assert(row_sum(y, g, 6) == row_sum(x, f, 1));
    assert(row_sum(y, g, 7) == row_sum(x, f, 0));
}

// ---------------------------------------------------------------------------
// Counting squares
// ---------------------------------------------------------------------------

pub open spec fn one() -> spec_fn(int) -> int {
    |s: int| 1int
}

proof fn lemma_bit_shift(x: u64, n: int)
    requires
        0 <= n < 63,
    ensures
        has_bit(x, n + 1) == has_bit(x / 2, n),
        has_bit(x, 0) == (x % 2 == 1),
        !has_bit(x / 2, 63),
{
    let k = n as u64;
    assert(((x >> (k + 1)) & 1 == 1) == (((x / 2) >> k) & 1 == 1)) by (bit_vector)
        requires
            k < 63,
    ;
    assert(((x >> 0u64) & 1 == 1) == (x % 2 == 1)) by (bit_vector);
    assert(((x / 2) >> 63u64) & 1 != 1) by (bit_vector);
}

/// Counting the squares below `n + 1` is the lowest bit and the count
/// below `n` of the bitboard shifted down.
proof fn lemma_count_shift(x: u64, n: int)
    requires
        0 <= n <= 63,
    ensures
        bb_sum(x, one(), n + 1) == x % 2 + bb_sum(x / 2, one(), n),
    decreases n,
{
    if n == 0 {
        lemma_bit_shift(x, 0);
        assert(bb_sum(x, one(), 1) == bb_sum(x, one(), 0) + if has_bit(x, 0) { 1int } else { 0 });
    } else {
        lemma_count_shift(x, n - 1);
        lemma_bit_shift(x, n - 1);
    }
}

/// The number of one bits is the number of set squares.
pub proof fn lemma_popcount_sum(x: u64)
    ensures
        popcount(x) == bb_sum(x, one(), 64),
    decreases x,
{
    if x == 0 {
        assert forall|n: int| 0 <= n <= 64 implies #[trigger] bb_sum(0, one(), n) == 0 by {
            lemma_zero_sum(n);
        }
    } else {
        lemma_popcount_sum(x / 2);
        lemma_count_shift(x, 63);
        lemma_bit_shift(x, 0);
        assert(bb_sum(x / 2, one(), 64) == bb_sum(x / 2, one(), 63));
    }
}

proof fn lemma_zero_sum(n: int)
    requires
        0 <= n <= 64,
    ensures
        bb_sum(0, one(), n) == 0,
    decreases n,
{
    if n > 0 {
        lemma_zero_sum(n - 1);
        crate::bitboard::lemma_bit_zero((n - 1) as u64);
    }
}

/// Flipping keeps the number of set squares.
pub proof fn lemma_popcount_flip(x: u64, y: u64)
    requires
        flipped(x, y),
    ensures
        popcount(x) == popcount(y),
{
    lemma_popcount_sum(x);
    lemma_popcount_sum(y);
    lemma_bb_sum_flip(x, y, one(), one());
}

// ---------------------------------------------------------------------------
// The position seen from the other side
// ---------------------------------------------------------------------------

/// `m` is `b` seen from the other side: each piece on the flipped square
/// with the other colour, and the other side to move.
pub open spec fn mirrored(b: Board, m: Board) -> bool {
    &&& forall|c: int, k: int|
        #![trigger m.pieces[c][k]]
        0 <= c < 2 && 0 <= k < 6 ==> flipped(b.pieces[1 - c][k], m.pieces[c][k])
    &&& m.side_to_move == b.side_to_move.spec_opposite()
}

/// The pieces of each colour index and kind are those of the other colour, flipped.
pub proof fn lemma_mirror_pieces(b: Board, m: Board, c: int, k: int)
    requires
        mirrored(b, m),
        0 <= c < 2,
        0 <= k < 6,
    ensures
        flipped(b.pieces[1 - c][k], m.pieces[c][k]),
{
    assert(flipped(b.pieces[1 - c][k], m.pieces[c][k]));
}

/// The pieces of one colour, flipped.
pub proof fn lemma_mirror_color_occ(b: Board, m: Board, c: int)
    requires
        mirrored(b, m),
        0 <= c < 2,
    ensures
        flipped(color_occ(b, 1 - c), color_occ(m, c)),
{
    lemma_mirror_pieces(b, m, c, 0);
    lemma_mirror_pieces(b, m, c, 1);
    lemma_mirror_pieces(b, m, c, 2);
    lemma_mirror_pieces(b, m, c, 3);
    lemma_mirror_pieces(b, m, c, 4);
    lemma_mirror_pieces(b, m, c, 5);
    let x = b.pieces[1 - c];
    let y = m.pieces[c];
    lemma_flipped_or(x[0], y[0], x[1], y[1]);
    lemma_flipped_or(x[0] | x[1], y[0] | y[1], x[2], y[2]);
    lemma_flipped_or(x[0] | x[1] | x[2], y[0] | y[1] | y[2], x[3], y[3]);
    lemma_flipped_or(x[0] | x[1] | x[2] | x[3], y[0] | y[1] | y[2] | y[3], x[4], y[4]);
    lemma_flipped_or(x[0] | x[1] | x[2] | x[3] | x[4], y[0] | y[1] | y[2] | y[3] | y[4], x[5], y[5]);
}

/// All pieces, flipped.
pub proof fn lemma_mirror_occ(b: Board, m: Board)
    requires
        mirrored(b, m),
    ensures
        flipped(occ_bb(b), occ_bb(m)),
{
    lemma_mirror_color_occ(b, m, 0);
    lemma_mirror_color_occ(b, m, 1);
    lemma_flipped_or(color_occ(b, 1), color_occ(m, 0), color_occ(b, 0), color_occ(m, 1));
    let a = color_occ(b, 1);
    let c = color_occ(b, 0);
    assert(a | c == c | a) by (bit_vector);
}

/// Sums over the kinds agree when each kind's sum does.
proof fn lemma_kinds_sum_mirror(
    b: Board,
    m: Board,
    c: int,
    g: spec_fn(int) -> spec_fn(int) -> int,
    h: spec_fn(int) -> spec_fn(int) -> int,
    n: int,
)
    requires
        mirrored(b, m),
        0 <= c < 2,
        0 <= n <= 6,
        forall|k: int, s: int| 0 <= k < 6 && 0 <= s < 64 ==> #[trigger] g(k)(s) == h(k)(flip(s)),
    ensures
        kinds_sum(m, c, g, n) == kinds_sum(b, 1 - c, h, n),
    decreases n,
{
    if n > 0 {
        lemma_kinds_sum_mirror(b, m, c, g, h, n - 1);
        lemma_mirror_pieces(b, m, c, n - 1);
        assert forall|s: int| 0 <= s < 64 implies #[trigger] g(n - 1)(s) == h(n - 1)(flip(s)) by {}
        lemma_bb_sum_flip(b.pieces[1 - c][n - 1], m.pieces[c][n - 1], h(n - 1), g(n - 1));
    }
}

pub open spec fn other(c: Color) -> Color {
    c.spec_opposite()
}

/// Material is the other side's material in the mirrored position.
pub proof fn lemma_material_mirror(b: Board, m: Board, c: Color)
    requires
        mirrored(b, m),
    ensures
        material(m, c) == material(b, c.spec_opposite()),
{
    lemma_kinds_sum_mirror(b, m, c.spec_index() as int, value_term(), value_term(), 6);
}

/// Piece-square totals are the other side's in the mirrored position.
pub proof fn lemma_pst_mirror(b: Board, m: Board, c: Color, mg: bool)
    requires
        mirrored(b, m),
    ensures
        pst_total(m, c, mg) == pst_total(b, c.spec_opposite(), mg),
{
    assert forall|k: int, s: int| 0 <= k < 6 && 0 <= s < 64 implies #[trigger] pst_term(c, mg)(k)(s) == pst_term(
        c.spec_opposite(),
        mg,
    )(k)(flip(s)) by {
        lemma_flip(s);
        assert(rel_sq(c.spec_opposite(), flip(s)) == rel_sq(c, s));
    }
    lemma_kinds_sum_mirror(b, m, c.spec_index() as int, pst_term(c, mg), pst_term(c.spec_opposite(), mg), 6);
}

/// The game phase does not change.
pub proof fn lemma_phase_mirror(b: Board, m: Board)
    requires
        mirrored(b, m),
    ensures
        phase_raw(m) == phase_raw(b),
{
    lemma_mirror_pieces(b, m, 0, 1);
    lemma_mirror_pieces(b, m, 0, 2);
    lemma_mirror_pieces(b, m, 0, 3);
    lemma_mirror_pieces(b, m, 0, 4);
    lemma_mirror_pieces(b, m, 1, 1);
    lemma_mirror_pieces(b, m, 1, 2);
    lemma_mirror_pieces(b, m, 1, 3);
    lemma_mirror_pieces(b, m, 1, 4);
    lemma_popcount_flip(b.pieces[1][1], m.pieces[0][1]);
    lemma_popcount_flip(b.pieces[1][2], m.pieces[0][2]);
    lemma_popcount_flip(b.pieces[1][3], m.pieces[0][3]);
    lemma_popcount_flip(b.pieces[1][4], m.pieces[0][4]);
    lemma_popcount_flip(b.pieces[0][1], m.pieces[1][1]);
    lemma_popcount_flip(b.pieces[0][2], m.pieces[1][2]);
    lemma_popcount_flip(b.pieces[0][3], m.pieces[1][3]);
    lemma_popcount_flip(b.pieces[0][4], m.pieces[1][4]);
}

// ---------------------------------------------------------------------------
// Attack sets seen from the other side
// ---------------------------------------------------------------------------

/// `b` holds exactly the squares of `a` flipped.
pub open spec fn set_flipped(a: Set<int>, b: Set<int>) -> bool {
    &&& forall|t: int| #[trigger] b.contains(t) ==> 0 <= t < 64
    &&& forall|t: int| #[trigger] a.contains(t) ==> 0 <= t < 64
    &&& forall|t: int| 0 <= t < 64 ==> #[trigger] b.contains(t) == a.contains(flip(t))
}

/// The `k`-th square of the flipped ray is the flipped `k`-th square.
proof fn lemma_ray_square_mirror(s: int, df: int, dr: int, k: int)
    requires
        0 <= s < 64,
        valid_dir(df, dr),
    ensures
        ray_square(flip(s), df, -dr, k) == match ray_square(s, df, dr, k) {
            Some(t) => Some(flip(t)),
            None => None,
        },
{
    lemma_flip(s);
    let a = dir_step(k, df);
    let b = dir_step(k, dr);
    assert(dir_step(k, -dr) == -b);
    let f = s % 8 + a;
    let r = s / 8 + b;
    let fs = flip(s);
    assert(fs % 8 + a == f);
    assert(fs / 8 + (-b) == 7 - r);
    if 0 <= f < 8 && 0 <= r < 8 {
        let t = r * 8 + f;
        assert(t / 8 == r && t % 8 == f);
        assert(flip(t) == (7 - r) * 8 + f);
        assert(ray_square(s, df, dr, k) == Some(t));
        assert(ray_square(fs, df, -dr, k) == Some((7 - r) * 8 + f));
    } else {
        assert(ray_square(s, df, dr, k) is None);
        assert(ray_square(fs, df, -dr, k) is None);
    }
}

/// A ray and its mirror are blocked alike under flipped occupancies.
proof fn lemma_ray_blocked_mirror(s: int, df: int, dr: int, occ: u64, mocc: u64, k: int)
    requires
        0 <= s < 64,
        valid_dir(df, dr),
        flipped(occ, mocc),
    ensures
        ray_blocked(flip(s), df, -dr, mocc, k) == ray_blocked(s, df, dr, occ, k),
{
    if ray_blocked(s, df, dr, occ, k) {
        let j = choose|j: int| 1 <= j < k && #[trigger] ray_square(s, df, dr, j) is Some && has_bit(occ, ray_square(s, df, dr, j)->0);
        lemma_ray_square_mirror(s, df, dr, j);
        let t = ray_square(s, df, dr, j)->0;
        lemma_flip(t);
        assert(has_bit(mocc, flip(t)) == has_bit(occ, flip(flip(t))));
        assert(ray_square(flip(s), df, -dr, j) is Some);
    }
    if ray_blocked(flip(s), df, -dr, mocc, k) {
        let j = choose|j: int|
            1 <= j < k && #[trigger] ray_square(flip(s), df, -dr, j) is Some && has_bit(mocc, ray_square(flip(s), df, -dr, j)->0);
        lemma_ray_square_mirror(s, df, dr, j);
        let t = ray_square(s, df, dr, j)->0;
        lemma_flip(t);
        assert(has_bit(mocc, flip(t)) == has_bit(occ, flip(flip(t))));
        assert(ray_square(s, df, dr, j) is Some);
    }
}

/// The squares a ray reaches, seen from the other side.
pub proof fn lemma_ray_mirror(s: int, df: int, dr: int, occ: u64, mocc: u64)
    requires
        0 <= s < 64,
        valid_dir(df, dr),
        flipped(occ, mocc),
    ensures
        set_flipped(ray_set(s, df, dr, occ), ray_set(flip(s), df, -dr, mocc)),
{
    lemma_flip(s);
    let a = ray_set(s, df, dr, occ);
    let b = ray_set(flip(s), df, -dr, mocc);
    assert forall|t: int| #[trigger] a.contains(t) implies 0 <= t < 64 by {
        let k = choose|k: int| 1 <= k && #[trigger] ray_square(s, df, dr, k) == Some(t) && !ray_blocked(s, df, dr, occ, k);
    }
    assert forall|t: int| #[trigger] b.contains(t) implies 0 <= t < 64 by {
        let k = choose|k: int| 1 <= k && #[trigger] ray_square(flip(s), df, -dr, k) == Some(t) && !ray_blocked(flip(s), df, -dr, mocc, k);
    }
    assert forall|t: int| 0 <= t < 64 implies #[trigger] b.contains(t) == a.contains(flip(t)) by {
        lemma_flip(t);
        if b.contains(t) {
            let k = choose|k: int| 1 <= k && #[trigger] ray_square(flip(s), df, -dr, k) == Some(t) && !ray_blocked(flip(s), df, -dr, mocc, k);
            lemma_ray_square_mirror(s, df, dr, k);
            lemma_ray_blocked_mirror(s, df, dr, occ, mocc, k);
            let u = ray_square(s, df, dr, k)->0;
            lemma_flip(u);
            assert(ray_square(s, df, dr, k) == Some(flip(t)));
            assert(ray_hit(s, df, dr, occ, flip(t)));
        }
        if a.contains(flip(t)) {
            let k = choose|k: int| 1 <= k && #[trigger] ray_square(s, df, dr, k) == Some(flip(t)) && !ray_blocked(s, df, dr, occ, k);
            lemma_ray_square_mirror(s, df, dr, k);
            lemma_ray_blocked_mirror(s, df, dr, occ, mocc, k);
            assert(ray_square(flip(s), df, -dr, k) == Some(t));
            assert(ray_hit(flip(s), df, -dr, mocc, t));
        }
    }
}

proof fn lemma_set_flipped_union(a1: Set<int>, b1: Set<int>, a2: Set<int>, b2: Set<int>)
    requires
        set_flipped(a1, b1),
        set_flipped(a2, b2),
    ensures
        set_flipped(a1.union(a2), b1.union(b2)),
{
}

/// The squares attacked from a square, seen from the other side.
pub proof fn lemma_attacks_mirror(k: int, s: int, occ: u64, mocc: u64)
    requires
        1 <= k <= 4,
        0 <= s < 64,
        flipped(occ, mocc),
    ensures
        set_flipped(attack_set_of(k, s, occ), attack_set_of(k, flip(s), mocc)),
{
    lemma_flip(s);
    if k == 1 {
        let a = knight_set(s);
        let b = knight_set(flip(s));
        assert forall|t: int| 0 <= t < 64 implies #[trigger] b.contains(t) == a.contains(flip(t)) by {
            lemma_flip(t);
            assert(knight_target(flip(s), t) == knight_target(s, flip(t)));
        }
    } else {
        lemma_ray_mirror(s, 0, 1, occ, mocc);
        lemma_ray_mirror(s, 0, -1, occ, mocc);
        lemma_ray_mirror(s, 1, 0, occ, mocc);
        lemma_ray_mirror(s, -1, 0, occ, mocc);
        lemma_ray_mirror(s, 1, 1, occ, mocc);
        lemma_ray_mirror(s, -1, 1, occ, mocc);
        lemma_ray_mirror(s, 1, -1, occ, mocc);
        lemma_ray_mirror(s, -1, -1, occ, mocc);
        let fs = flip(s);
        let rook = rook_set(s, occ);
        let mrook = rook_set(fs, mocc);
        let bishop = bishop_set(s, occ);
        let mbishop = bishop_set(fs, mocc);
        lemma_set_flipped_union(ray_set(s, 0, 1, occ), ray_set(fs, 0, -1, mocc), ray_set(s, 0, -1, occ), ray_set(fs, 0, 1, mocc));
        lemma_set_flipped_union(
            ray_set(s, 0, 1, occ).union(ray_set(s, 0, -1, occ)),
            ray_set(fs, 0, -1, mocc).union(ray_set(fs, 0, 1, mocc)),
            ray_set(s, 1, 0, occ),
            ray_set(fs, 1, 0, mocc),
        );
        lemma_set_flipped_union(
            ray_set(s, 0, 1, occ).union(ray_set(s, 0, -1, occ)).union(ray_set(s, 1, 0, occ)),
            ray_set(fs, 0, -1, mocc).union(ray_set(fs, 0, 1, mocc)).union(ray_set(fs, 1, 0, mocc)),
            ray_set(s, -1, 0, occ),
            ray_set(fs, -1, 0, mocc),
        );
        assert(ray_set(fs, 0, -1, mocc).union(ray_set(fs, 0, 1, mocc)) =~= ray_set(fs, 0, 1, mocc).union(ray_set(fs, 0, -1, mocc)));
        assert(set_flipped(rook, mrook));
        lemma_set_flipped_union(ray_set(s, 1, 1, occ), ray_set(fs, 1, -1, mocc), ray_set(s, -1, 1, occ), ray_set(fs, -1, -1, mocc));
        lemma_set_flipped_union(
            ray_set(s, 1, 1, occ).union(ray_set(s, -1, 1, occ)),
            ray_set(fs, 1, -1, mocc).union(ray_set(fs, -1, -1, mocc)),
            ray_set(s, 1, -1, occ),
            ray_set(fs, 1, 1, mocc),
        );
        lemma_set_flipped_union(
            ray_set(s, 1, 1, occ).union(ray_set(s, -1, 1, occ)).union(ray_set(s, 1, -1, occ)),
            ray_set(fs, 1, -1, mocc).union(ray_set(fs, -1, -1, mocc)).union(ray_set(fs, 1, 1, mocc)),
            ray_set(s, -1, -1, occ),
            ray_set(fs, -1, 1, mocc),
        );
        assert(ray_set(fs, 1, -1, mocc).union(ray_set(fs, -1, -1, mocc)).union(ray_set(fs, 1, 1, mocc)).union(
            ray_set(fs, -1, 1, mocc),
        ) =~= mbishop);
        assert(set_flipped(bishop, mbishop));
        lemma_set_flipped_union(rook, mrook, bishop, mbishop);
    }
}

/// A bitboard of any set of squares `< n`.
proof fn lemma_bitboard_exists(set: Set<int>, n: int) -> (x: u64)
    requires
        0 <= n <= 64,
    ensures
        forall|t: int| #[trigger] squares(x).contains(t) == (0 <= t < n && set.contains(t)),
    decreases n,
{
    if n == 0 {
        lemma_squares_ops(0, 0);
        0
    } else {
        let y = lemma_bitboard_exists(set, n - 1);
        if set.contains(n - 1) {
            let bit = 1u64 << (n - 1) as u64;
            lemma_squares_single((n - 1) as u64);
            lemma_squares_ops(y, bit);
            y | bit
        } else {
            y
        }
    }
}

/// `bb_of` of a set of squares of the board has exactly those squares.
proof fn lemma_bb_of_squares(set: Set<int>)
    requires
        forall|t: int| #[trigger] set.contains(t) ==> 0 <= t < 64,
    ensures
        squares(bb_of(set)) == set,
{
    let x = lemma_bitboard_exists(set, 64);
    assert(squares(x) =~= set);
}

/// A mobility term is the other side's term on the flipped square.
proof fn lemma_mobility_term_mirror(k: int, s: int, occ: u64, mocc: u64, own: u64, mown: u64)
    requires
        1 <= k <= 4,
        0 <= s < 64,
        flipped(occ, mocc),
        flipped(own, mown),
    ensures
        mobility_term(k, mocc, mown)(flip(s)) == mobility_term(k, occ, own)(s),
{
    lemma_attacks_mirror(k, s, occ, mocc);
    let a = attack_set_of(k, s, occ);
    let b = attack_set_of(k, flip(s), mocc);
    lemma_bb_of_squares(a);
    lemma_bb_of_squares(b);
    let x = bb_of(a);
    let y = bb_of(b);
    assert(flipped(x, y)) by {
        assert forall|t: int| 0 <= t < 64 implies #[trigger] has_bit(y, t) == has_bit(x, flip(t)) by {
            lemma_flip(t);
            assert(squares(y).contains(t) == has_bit(y, t));
            assert(squares(x).contains(flip(t)) == has_bit(x, flip(t)));
        }
    }
    lemma_flipped_not(own, mown);
    lemma_flipped_and(x, y, !own, !mown);
    lemma_popcount_flip(x & !own, y & !mown);
}

/// Mobility is the other side's mobility in the mirrored position.
pub proof fn lemma_mobility_mirror(b: Board, m: Board, c: Color)
    requires
        mirrored(b, m),
    ensures
        mobility_count(m, c) == mobility_count(b, c.spec_opposite()),
{
    let ci = c.spec_index() as int;
    let oi = 1 - ci;
    assert(c.spec_opposite().spec_index() as int == oi);
    lemma_mirror_occ(b, m);
    lemma_mirror_color_occ(b, m, ci);
    let occ = occ_bb(b);
    let mocc = occ_bb(m);
    let own = color_occ(b, oi);
    let mown = color_occ(m, ci);
    assert forall|k: int| 1 <= k <= 4 implies bb_sum(#[trigger] m.pieces[ci][k], mobility_term(k, mocc, mown), 64)
        == bb_sum(b.pieces[oi][k], mobility_term(k, occ, own), 64) by {
        lemma_mirror_pieces(b, m, ci, k);
        assert forall|s: int| 0 <= s < 64 implies #[trigger] mobility_term(k, mocc, mown)(s) == mobility_term(k, occ, own)(
            flip(s),
        ) by {
            lemma_flip(s);
            lemma_mobility_term_mirror(k, flip(s), occ, mocc, own, mown);
        }
        lemma_bb_sum_flip(b.pieces[oi][k], m.pieces[ci][k], mobility_term(k, occ, own), mobility_term(k, mocc, mown));
    }
    assert(bb_sum(m.pieces[ci][1], mobility_term(1, mocc, mown), 64) == bb_sum(b.pieces[oi][1], mobility_term(1, occ, own), 64));
    assert(bb_sum(m.pieces[ci][2], mobility_term(2, mocc, mown), 64) == bb_sum(b.pieces[oi][2], mobility_term(2, occ, own), 64));
    assert(bb_sum(m.pieces[ci][3], mobility_term(3, mocc, mown), 64) == bb_sum(b.pieces[oi][3], mobility_term(3, occ, own), 64));
    assert(bb_sum(m.pieces[ci][4], mobility_term(4, mocc, mown), 64) == bb_sum(b.pieces[oi][4], mobility_term(4, occ, own), 64));
}

// ---------------------------------------------------------------------------
// Kings, files and pawns seen from the other side
// ---------------------------------------------------------------------------

/// `x` holds the one square `t`.
pub open spec fn single_square(x: u64, t: int) -> bool {
    0 <= t < 64 && forall|s: int| 0 <= s < 64 ==> (#[trigger] has_bit(x, s) <==> s == t)
}

/// Each side has one king.
pub open spec fn one_king_each(b: Board) -> bool {
    &&& exists|t: int| #[trigger] single_square(b.pieces[0][5], t)
    &&& exists|t: int| #[trigger] single_square(b.pieces[1][5], t)
}

/// The king square of a side with one king is where its king stands.
proof fn lemma_single_king(b: Board, c: Color, t: int)
    requires
        single_square(b.pieces[c.spec_index() as int][5], t),
    ensures
        king_sq(b, c) == t,
{
    let x = b.pieces[c.spec_index() as int][5];
    assert(has_bit(x, t));
    if x == 0 {
        crate::bitboard::lemma_bit_zero(t as u64);
    }
    crate::bitboard::lemma_trailing_zeros(x);
}

/// The kings of the mirrored position stand on the flipped squares.
pub proof fn lemma_king_mirror(b: Board, m: Board, c: Color)
    requires
        mirrored(b, m),
        one_king_each(b),
    ensures
        king_sq(m, c) == flip(king_sq(b, c.spec_opposite())),
        0 <= king_sq(b, c.spec_opposite()) < 64,
{
    let ci = c.spec_index() as int;
    let oi = 1 - ci;
    assert(c.spec_opposite().spec_index() as int == oi);
    let t = if oi == 0 {
        choose|t: int| #[trigger] single_square(b.pieces[0][5], t)
    } else {
        choose|t: int| #[trigger] single_square(b.pieces[1][5], t)
    };
    assert(single_square(b.pieces[oi][5], t));
    lemma_single_king(b, c.spec_opposite(), t);
    lemma_mirror_pieces(b, m, ci, 5);
    lemma_flip(t);
    assert forall|s: int| 0 <= s < 64 implies (#[trigger] has_bit(m.pieces[ci][5], s) <==> s == flip(t)) by {
        lemma_flip(s);
        assert(has_bit(m.pieces[ci][5], s) == has_bit(b.pieces[oi][5], flip(s)));
    }
    assert(single_square(m.pieces[ci][5], flip(t)));
    lemma_single_king(m, c, flip(t));
}

/// The king distance between flipped squares is the same.
proof fn lemma_king_distance_mirror(a: int, b: int)
    requires
        0 <= a < 64,
        0 <= b < 64,
    ensures
        king_distance(flip(a), flip(b)) == king_distance(a, b),
{
    lemma_flip(a);
    lemma_flip(b);
}

/// A file's squares are those of the file flipped.
proof fn lemma_file_mask_flipped(f: int)
    requires
        0 <= f < 8,
    ensures
        flipped(file_mask(f), file_mask(f)),
{
    let fu = f as u64;
    assert forall|s: int| 0 <= s < 64 implies #[trigger] has_bit(file_mask(f), s) == has_bit(file_mask(f), flip(s)) by {
        lemma_flip(s);
        let su = s as u64;
        let tu = flip(s) as u64;
        assert(((0x0101010101010101u64 << fu) >> su) & 1 == 1 <==> (su & 7) == fu) by (bit_vector)
            requires
                fu < 8,
                su < 64,
        ;
        assert(((0x0101010101010101u64 << fu) >> tu) & 1 == 1 <==> (tu & 7) == fu) by (bit_vector)
            requires
                fu < 8,
                tu < 64,
        ;
        assert((su & 7) == su % 8) by (bit_vector);
        assert((tu & 7) == tu % 8) by (bit_vector);
    }
}

proof fn lemma_zero_flipped(x: u64, y: u64)
    requires
        flipped(x, y),
    ensures
        (x == 0) == (y == 0),
{
    crate::bitboard::lemma_squares_empty(x);
    crate::bitboard::lemma_squares_empty(y);
    if x == 0 {
        assert forall|s: int| !squares(y).contains(s) by {
            if 0 <= s < 64 {
                lemma_flip(s);
                assert(has_bit(y, s) == has_bit(x, flip(s)));
                assert(!squares(x).contains(flip(s)));
            }
        }
        assert(squares(y) =~= Set::<int>::empty());
    }
    if y == 0 {
        lemma_flipped_symmetric(x, y);
        assert forall|s: int| !squares(x).contains(s) by {
            if 0 <= s < 64 {
                lemma_flip(s);
                assert(has_bit(x, s) == has_bit(y, flip(s)));
                assert(!squares(y).contains(flip(s)));
            }
        }
        assert(squares(x) =~= Set::<int>::empty());
    }
}

proof fn lemma_adjacent_mask_flipped(f: int)
    requires
        0 <= f < 8,
    ensures
        flipped(adjacent_mask(f), adjacent_mask(f)),
{
    let lo = if f > 0 { FILE_A << ((f - 1) as u64) } else { 0u64 };
    let hi = if f < 7 { FILE_A << ((f + 1) as u64) } else { 0u64 };
    assert(flipped(lo, lo)) by {
        if f > 0 {
            lemma_file_mask_flipped(f - 1);
        } else {
            assert forall|s: int| 0 <= s < 64 implies #[trigger] has_bit(lo, s) == has_bit(lo, flip(s)) by {
                lemma_flip(s);
                crate::bitboard::lemma_bit_zero(s as u64);
                crate::bitboard::lemma_bit_zero(flip(s) as u64);
            }
        }
    }
    assert(flipped(hi, hi)) by {
        if f < 7 {
            lemma_file_mask_flipped(f + 1);
        } else {
            assert forall|s: int| 0 <= s < 64 implies #[trigger] has_bit(hi, s) == has_bit(hi, flip(s)) by {
                lemma_flip(s);
                crate::bitboard::lemma_bit_zero(s as u64);
                crate::bitboard::lemma_bit_zero(flip(s) as u64);
            }
        }
    }
    lemma_flipped_or(lo, lo, hi, hi);
}

/// The doubled and isolated pawn penalties do not depend on ranks.
proof fn lemma_files_sum_mirror(own: u64, mown: u64, n: int, mg: bool)
    requires
        flipped(own, mown),
        0 <= n <= 8,
    ensures
        files_sum(mown, n, mg) == files_sum(own, n, mg),
    decreases n,
{
    if n > 0 {
        lemma_files_sum_mirror(own, mown, n - 1, mg);
        let f = n - 1;
        lemma_file_mask_flipped(f);
        lemma_adjacent_mask_flipped(f);
        lemma_flipped_and(own, mown, file_mask(f), file_mask(f));
        lemma_popcount_flip(own & file_mask(f), mown & file_mask(f));
        lemma_flipped_and(own, mown, adjacent_mask(f), adjacent_mask(f));
        lemma_zero_flipped(own & adjacent_mask(f), mown & adjacent_mask(f));
        assert(file_term(mown, f, mg) == file_term(own, f, mg));
    }
}

/// Open files around the king, whatever the ranks.
proof fn lemma_open_files_mirror(own: u64, mown: u64, lo: int, n: int)
    requires
        flipped(own, mown),
        0 <= lo,
        n <= 8,
    ensures
        open_files_penalty(mown, lo, n) == open_files_penalty(own, lo, n),
    decreases n - lo,
{
    if n > lo {
        lemma_open_files_mirror(own, mown, lo, n - 1);
        lemma_file_mask_flipped(n - 1);
        lemma_flipped_and(own, mown, file_mask(n - 1), file_mask(n - 1));
        lemma_zero_flipped(own & file_mask(n - 1), mown & file_mask(n - 1));
    }
}

/// A pawn supported from behind, seen from the other side.
proof fn lemma_pawn_behind_mirror(pawns: u64, mpawns: u64, c: Color, s: int)
    requires
        flipped(pawns, mpawns),
        0 <= s < 64,
    ensures
        pawn_behind_diag(mpawns, c, s) == pawn_behind_diag(pawns, c.spec_opposite(), flip(s)),
{
    lemma_flip(s);
    let file = s % 8;
    let rank = s / 8;
    let r = if c == Color::White { rank - 1 } else { rank + 1 };
    if 0 <= r < 8 {
        if file > 0 {
            let t = r * 8 + file - 1;
            assert(t / 8 == r && t % 8 == file - 1);
            assert(flip(t) == (7 - r) * 8 + file - 1);
            assert(has_bit(mpawns, t) == has_bit(pawns, flip(t)));
        }
        if file < 7 {
            let t = r * 8 + file + 1;
            assert(t / 8 == r && t % 8 == file + 1);
            assert(flip(t) == (7 - r) * 8 + file + 1);
            assert(has_bit(mpawns, t) == has_bit(pawns, flip(t)));
        }
    }
}

/// Connected passed pawns, seen from the other side.
proof fn lemma_connected_mirror(own: u64, mown: u64, s: int)
    requires
        flipped(own, mown),
        0 <= s < 64,
    ensures
        is_connected_spec(mown, s) == is_connected_spec(own, flip(s)),
{
    lemma_flip(s);
    let file = s % 8;
    let rank = s / 8;
    assert forall|r: int| 0 <= r < 8 implies #[trigger] side_by_side(mown, file, r) == side_by_side(own, file, 7 - r) by {
        if file > 0 {
            let t = r * 8 + file - 1;
            assert(t / 8 == r && t % 8 == file - 1);
            assert(flip(t) == (7 - r) * 8 + file - 1);
            assert(has_bit(mown, t) == has_bit(own, flip(t)));
        }
        if file < 7 {
            let t = r * 8 + file + 1;
            assert(t / 8 == r && t % 8 == file + 1);
            assert(flip(t) == (7 - r) * 8 + file + 1);
            assert(has_bit(mown, t) == has_bit(own, flip(t)));
        }
    }
    if is_connected_spec(mown, s) {
        let r = choose|r: int| file_lo(rank) <= r <= file_hi(rank) && #[trigger] side_by_side(mown, file, r);
        assert(side_by_side(own, file, 7 - r));
        assert(file_lo(7 - rank) <= 7 - r <= file_hi(7 - rank));
    }
    if is_connected_spec(own, flip(s)) {
        let r = choose|r: int| file_lo(7 - rank) <= r <= file_hi(7 - rank) && #[trigger] side_by_side(own, file, r);
        assert(side_by_side(mown, file, 7 - r));
        assert(file_lo(rank) <= 7 - r <= file_hi(rank));
    }
}

/// A passed pawn, seen from the other side.
proof fn lemma_passed_mirror(enemy: u64, menemy: u64, c: Color, s: int)
    requires
        flipped(enemy, menemy),
        0 <= s < 64,
    ensures
        is_passed_spec(menemy, c, s) == is_passed_spec(enemy, c.spec_opposite(), flip(s)),
{
    lemma_flip(s);
    let file = s % 8;
    let rank = s / 8;
    assert forall|r: int, f: int| 0 <= r < 8 && 0 <= f < 8 implies #[trigger] has_bit(menemy, r * 8 + f) == has_bit(
        enemy,
        (7 - r) * 8 + f,
    ) by {
        let t = r * 8 + f;
        assert(t / 8 == r && t % 8 == f);
        assert(flip(t) == (7 - r) * 8 + f);
    }
    if is_passed_spec(menemy, c, s) {
        assert forall|r: int, f: int|
            0 <= r < 8 && file_lo(file) <= f <= file_hi(file) && (if c.spec_opposite() == Color::White {
                r > flip(s) / 8
            } else {
                r < flip(s) / 8
            }) implies !#[trigger] has_bit(enemy, r * 8 + f) by {
            assert(!has_bit(menemy, (7 - r) * 8 + f));
            assert(has_bit(menemy, (7 - r) * 8 + f) == has_bit(enemy, (7 - (7 - r)) * 8 + f));
        }
    }
    if is_passed_spec(enemy, c.spec_opposite(), flip(s)) {
        assert forall|r: int, f: int|
            0 <= r < 8 && file_lo(file) <= f <= file_hi(file) && (if c == Color::White {
                r > rank
            } else {
                r < rank
            }) implies !#[trigger] has_bit(menemy, r * 8 + f) by {
            assert(!has_bit(enemy, (7 - r) * 8 + f));
        }
    }
}

/// The bonus of a passed pawn, seen from the other side.
#[verifier::spinoff_prover]
#[verifier::rlimit(60)]
proof fn lemma_passed_bonus_mirror(b: Board, m: Board, own: u64, mown: u64, c: Color, s: int)
    requires
        mirrored(b, m),
        one_king_each(b),
        flipped(own, mown),
        0 <= s < 64,
    ensures
        passed_bonus(m, mown, c, s) == passed_bonus(b, own, c.spec_opposite(), flip(s)),
{
    lemma_flip(s);
    lemma_pawn_behind_mirror(own, mown, c, s);
    lemma_connected_mirror(own, mown, s);
    lemma_king_mirror(b, m, c);
    lemma_king_mirror(b, m, c.spec_opposite());
    assert(c.spec_opposite().spec_opposite() == c);
    let p = promotion_square(c.spec_opposite(), flip(s));
    assert(0 <= p < 64);
    lemma_flip(p);
    assert(promotion_square(c, s) == flip(p));
    lemma_king_distance_mirror(king_sq(b, c.spec_opposite()), p);
    lemma_king_distance_mirror(king_sq(b, c), p);
}

/// Pawn structure is the other side's in the mirrored position.
pub proof fn lemma_pawn_structure_mirror(b: Board, m: Board, c: Color)
    requires
        mirrored(b, m),
        one_king_each(b),
    ensures
        pawn_structure_spec(m, c) == pawn_structure_spec(b, c.spec_opposite()),
{
    let ci = c.spec_index() as int;
    let oi = 1 - ci;
    let o = c.spec_opposite();
    assert(o.spec_index() as int == oi);
    assert(o.spec_opposite() == c);
    lemma_mirror_pieces(b, m, ci, 0);
    lemma_mirror_pieces(b, m, oi, 0);
    let own = b.pieces[oi][0];
    let enemy = b.pieces[ci][0];
    let mown = m.pieces[ci][0];
    let menemy = m.pieces[oi][0];
    lemma_files_sum_mirror(own, mown, 8, true);
    lemma_files_sum_mirror(own, mown, 8, false);
    assert forall|s: int| 0 <= s < 64 implies #[trigger] passed_term(m, mown, menemy, c, true)(s) == passed_term(
        b,
        own,
        enemy,
        o,
        true,
    )(flip(s)) by {
        lemma_passed_mirror(enemy, menemy, c, s);
        lemma_passed_bonus_mirror(b, m, own, mown, c, s);
    }
    assert forall|s: int| 0 <= s < 64 implies #[trigger] passed_term(m, mown, menemy, c, false)(s) == passed_term(
        b,
        own,
        enemy,
        o,
        false,
    )(flip(s)) by {
        lemma_passed_mirror(enemy, menemy, c, s);
        lemma_passed_bonus_mirror(b, m, own, mown, c, s);
    }
    lemma_bb_sum_flip(own, mown, passed_term(b, own, enemy, o, true), passed_term(m, mown, menemy, c, true));
    lemma_bb_sum_flip(own, mown, passed_term(b, own, enemy, o, false), passed_term(m, mown, menemy, c, false));
}

/// King safety is the other side's in the mirrored position.
pub proof fn lemma_king_safety_mirror(b: Board, m: Board, c: Color)
    requires
        mirrored(b, m),
        one_king_each(b),
    ensures
        king_safety_spec(m, c) == king_safety_spec(b, c.spec_opposite()),
{
    let ci = c.spec_index() as int;
    let oi = 1 - ci;
    let o = c.spec_opposite();
    assert(o.spec_index() as int == oi);
    lemma_king_mirror(b, m, c);
    let kb = king_sq(b, o);
    lemma_flip(kb);
    lemma_mirror_pieces(b, m, ci, 0);
    lemma_open_files_mirror(b.pieces[oi][0], m.pieces[ci][0], file_lo(kb % 8), file_hi(kb % 8) + 1);
}

/// A challenge by an enemy pawn, seen from the other side.
proof fn lemma_challenge_mirror(enemy: u64, menemy: u64, c: Color, s: int, cf: int)
    requires
        flipped(enemy, menemy),
        0 <= s < 64,
        0 <= cf < 8,
    ensures
        challenge_at(menemy, c, s, cf) == challenge_at(enemy, c.spec_opposite(), flip(s), cf),
{
    lemma_flip(s);
    let rank = s / 8;
    assert forall|r: int| 0 <= r < 8 implies #[trigger] has_bit(menemy, r * 8 + cf) == has_bit(enemy, (7 - r) * 8 + cf) by {
        let t = r * 8 + cf;
        assert(t / 8 == r && t % 8 == cf);
        assert(flip(t) == (7 - r) * 8 + cf);
    }
    if c == Color::White {
        if rank < 6 {
            assert(has_bit(menemy, (rank + 2) * 8 + cf) == has_bit(enemy, (7 - (rank + 2)) * 8 + cf));
        }
        assert(has_bit(menemy, 6 * 8 + cf) == has_bit(enemy, (7 - 6) * 8 + cf));
    } else {
        if rank > 1 {
            assert(has_bit(menemy, (rank - 2) * 8 + cf) == has_bit(enemy, (7 - (rank - 2)) * 8 + cf));
        }
        assert(has_bit(menemy, 1 * 8 + cf) == has_bit(enemy, (7 - 1) * 8 + cf));
    }
}

/// The bonus of a knight on an outpost, seen from the other side.
proof fn lemma_outpost_bonus_mirror(b: Board, m: Board, c: Color, s: int)
    requires
        mirrored(b, m),
        0 <= s < 64,
    ensures
        outpost_bonus_spec(m, c, s) == outpost_bonus_spec(b, c.spec_opposite(), flip(s)),
{
    let ci = c.spec_index() as int;
    let oi = 1 - ci;
    let o = c.spec_opposite();
    assert(o.spec_index() as int == oi);
    assert(o.spec_opposite() == c);
    lemma_flip(s);
    lemma_mirror_pieces(b, m, ci, 0);
    lemma_mirror_pieces(b, m, oi, 0);
    lemma_pawn_behind_mirror(b.pieces[oi][0], m.pieces[ci][0], c, s);
    lemma_pawn_behind_mirror(b.pieces[ci][0], m.pieces[oi][0], o, s);
    assert(relative_rank_spec(c, s) == relative_rank_spec(o, flip(s)));
    let file = s % 8;
    assert forall|cf: int| 0 <= cf < 8 implies #[trigger] challenge_at(m.pieces[oi][0], c, s, cf) == challenge_at(
        b.pieces[ci][0],
        o,
        flip(s),
        cf,
    ) by {
        lemma_challenge_mirror(b.pieces[ci][0], m.pieces[oi][0], c, s, cf);
    }
    if can_be_challenged(m, c, s) {
        let cf = choose|cf: int|
            file_lo(s % 8) <= cf <= file_hi(s % 8) && cf != s % 8 && #[trigger] challenge_at(m.pieces[oi][0], c, s, cf);
        assert(challenge_at(b.pieces[ci][0], o, flip(s), cf));
    }
    if can_be_challenged(b, o, flip(s)) {
        let cf = choose|cf: int|
            file_lo(flip(s) % 8) <= cf <= file_hi(flip(s) % 8) && cf != flip(s) % 8 && #[trigger] challenge_at(
                b.pieces[ci][0],
                o,
                flip(s),
                cf,
            );
        assert(challenge_at(m.pieces[oi][0], c, s, cf));
    }
}

/// Knight outposts are the other side's in the mirrored position.
pub proof fn lemma_outposts_mirror(b: Board, m: Board, c: Color)
    requires
        mirrored(b, m),
    ensures
        outposts_spec(m, c) == outposts_spec(b, c.spec_opposite()),
{
    let ci = c.spec_index() as int;
    let oi = 1 - ci;
    let o = c.spec_opposite();
    assert(o.spec_index() as int == oi);
    lemma_mirror_pieces(b, m, ci, 1);
    assert forall|s: int| 0 <= s < 64 implies #[trigger] outpost_term(m, c)(s) == outpost_term(b, o)(flip(s)) by {
        lemma_outpost_bonus_mirror(b, m, c, s);
    }
    lemma_bb_sum_flip(b.pieces[oi][1], m.pieces[ci][1], outpost_term(b, o), outpost_term(m, c));
}

// ---------------------------------------------------------------------------
// The evaluation
// ---------------------------------------------------------------------------

/// Truncating division turns a negated numerator into a negated quotient.
proof fn lemma_tdiv_neg(x: int)
    ensures
        tdiv(-x, 24) == -tdiv(x, 24),
{
}

/// The evaluation is colour-blind: a position seen from the other side
/// (board flipped rank for rank, colours swapped, the other side to move)
/// gets the same evaluation, for the side to move.
pub proof fn lemma_evaluation_symmetric(b: Board, m: Board)
    requires
        mirrored(b, m),
        one_king_each(b),
    ensures
        evaluation(m) == evaluation(b),
{
    let w = Color::White;
    let k = Color::Black;
    lemma_material_mirror(b, m, w);
    lemma_material_mirror(b, m, k);
    lemma_pst_mirror(b, m, w, true);
    lemma_pst_mirror(b, m, k, true);
    lemma_pst_mirror(b, m, w, false);
    lemma_pst_mirror(b, m, k, false);
    lemma_mobility_mirror(b, m, w);
    lemma_mobility_mirror(b, m, k);
    lemma_pawn_structure_mirror(b, m, w);
    lemma_pawn_structure_mirror(b, m, k);
    lemma_king_safety_mirror(b, m, w);
    lemma_king_safety_mirror(b, m, k);
    lemma_outposts_mirror(b, m, w);
    lemma_outposts_mirror(b, m, k);
    lemma_phase_mirror(b, m);
    assert(mg_score(m) == -mg_score(b));
    assert(eg_score(m) == -eg_score(b));
    let p = game_phase_spec(b);
    assert(game_phase_spec(m) == p);
    let x = mg_score(b) * p + eg_score(b) * (24 - p);
    assert(mg_score(m) * p + eg_score(m) * (24 - p) == -x) by (nonlinear_arith)
        requires
            mg_score(m) == -mg_score(b),
            eg_score(m) == -eg_score(b),
            x == mg_score(b) * p + eg_score(b) * (24 - p),
    ;
    lemma_tdiv_neg(x);
    assert(taper_spec(mg_score(m), eg_score(m), p) == -taper_spec(mg_score(b), eg_score(b), p));
    assert(outposts_relative(m) == outposts_relative(b));
}


/// A difference of the two sides, tapered by the phase and seen from the side
/// to move, is the same in the mirrored position, where the sides' values
/// are swapped.
proof fn lemma_relative_taper_mirror(b: Board, m: Board, x: int, y: int, p: int)
    requires
        m.side_to_move == b.side_to_move.spec_opposite(),
    ensures
        relative_to_move_spec(m, taper_spec(-x, -y, p)) == relative_to_move_spec(b, taper_spec(x, y, p)),
{
    let z = x * p + y * (24 - p);
    assert((-x) * p + (-y) * (24 - p) == -z) by (nonlinear_arith)
        requires
            z == x * p + y * (24 - p),
    ;
    lemma_tdiv_neg(z);
}

/// The material and piece-square terms of the mirrored position.
#[verifier::spinoff_prover]
proof fn lemma_material_terms_mirror(b: Board, m: Board)
    requires
        mirrored(b, m),
    ensures
        ({
            let (w, k) = (Color::White, Color::Black);
            &&& relative_to_move_spec(m, taper_spec(material(m, w) - material(m, k), material(m, w) - material(m, k), game_phase_spec(m)))
                == relative_to_move_spec(b, taper_spec(material(b, w) - material(b, k), material(b, w) - material(b, k), game_phase_spec(b)))
            &&& relative_to_move_spec(m, taper_spec(pst_total(m, w, true) - pst_total(m, k, true), pst_total(m, w, false) - pst_total(m, k, false), game_phase_spec(m)))
                == relative_to_move_spec(b, taper_spec(pst_total(b, w, true) - pst_total(b, k, true), pst_total(b, w, false) - pst_total(b, k, false), game_phase_spec(b)))
        }),
{
    let w = Color::White;
    let k = Color::Black;
    lemma_material_mirror(b, m, w);
    lemma_material_mirror(b, m, k);
    lemma_pst_mirror(b, m, w, true);
    lemma_pst_mirror(b, m, k, true);
    lemma_pst_mirror(b, m, w, false);
    lemma_pst_mirror(b, m, k, false);
    lemma_phase_mirror(b, m);
    let p = game_phase_spec(b);
    let mw = material(b, w) - material(b, k);
    lemma_relative_taper_mirror(b, m, mw, mw, p);
    lemma_relative_taper_mirror(b, m, pst_total(b, w, true) - pst_total(b, k, true), pst_total(b, w, false) - pst_total(b, k, false), p);
}

/// The pawn-structure, passed-pawn and mobility terms of the mirrored position.
#[verifier::spinoff_prover]
proof fn lemma_pawn_terms_mirror(b: Board, m: Board)
    requires
        mirrored(b, m),
        one_king_each(b),
    ensures
        ({
            let (w, k) = (Color::White, Color::Black);
            let (bw, bk) = (pawn_structure_spec(b, w), pawn_structure_spec(b, k));
            let (mw, mk) = (pawn_structure_spec(m, w), pawn_structure_spec(m, k));
            &&& relative_to_move_spec(m, taper_spec(mw.0.0 - mk.0.0, mw.0.1 - mk.0.1, game_phase_spec(m)))
                == relative_to_move_spec(b, taper_spec(bw.0.0 - bk.0.0, bw.0.1 - bk.0.1, game_phase_spec(b)))
            &&& relative_to_move_spec(m, taper_spec(mw.1.0 - mk.1.0, mw.1.1 - mk.1.1, game_phase_spec(m)))
                == relative_to_move_spec(b, taper_spec(bw.1.0 - bk.1.0, bw.1.1 - bk.1.1, game_phase_spec(b)))
            &&& relative_to_move_spec(m, taper_spec(mobility_count(m, w) * 4 - mobility_count(m, k) * 4, mobility_count(m, w) * 3 - mobility_count(m, k) * 3, game_phase_spec(m)))
                == relative_to_move_spec(b, taper_spec(mobility_count(b, w) * 4 - mobility_count(b, k) * 4, mobility_count(b, w) * 3 - mobility_count(b, k) * 3, game_phase_spec(b)))
            &&& relative_to_move_spec(m, king_safety_spec(m, w) - king_safety_spec(m, k))
                == relative_to_move_spec(b, king_safety_spec(b, w) - king_safety_spec(b, k))
        }),
{
    let w = Color::White;
    let k = Color::Black;
    lemma_mobility_mirror(b, m, w);
    lemma_mobility_mirror(b, m, k);
    lemma_pawn_structure_mirror(b, m, w);
    lemma_pawn_structure_mirror(b, m, k);
    lemma_king_safety_mirror(b, m, w);
    lemma_king_safety_mirror(b, m, k);
    lemma_phase_mirror(b, m);
    let p = game_phase_spec(b);
    let pw = pawn_structure_spec(b, w);
    let pk = pawn_structure_spec(b, k);
    lemma_relative_taper_mirror(b, m, pw.0.0 - pk.0.0, pw.0.1 - pk.0.1, p);
    lemma_relative_taper_mirror(b, m, pw.1.0 - pk.1.0, pw.1.1 - pk.1.1, p);
    lemma_relative_taper_mirror(
        b,
        m,
        mobility_count(b, w) * 4 - mobility_count(b, k) * 4,
        mobility_count(b, w) * 3 - mobility_count(b, k) * 3,
        p,
    );
}

/// Every term of the evaluation breakdown is colour-blind: the mirrored
/// position (board flipped rank for rank, colours swapped, the other side to
/// move) has the same breakdown, term by term, for the side to move.
pub proof fn lemma_breakdown_symmetric(b: Board, m: Board, rb: EvalBreakdown, rm: EvalBreakdown)
    requires
        mirrored(b, m),
        one_king_each(b),
        breakdown_matches(b, rb),
        breakdown_matches(m, rm),
    ensures
        rm == rb,
{
    reveal(breakdown_matches);
    lemma_evaluation_symmetric(b, m);
    lemma_material_terms_mirror(b, m);
    lemma_pawn_terms_mirror(b, m);
    lemma_outposts_mirror(b, m, Color::White);
    lemma_outposts_mirror(b, m, Color::Black);
    assert(outposts_relative(m) == outposts_relative(b));
}

} // verus!
