//! Hand-made static evaluation, in centipawns from the point of view of the
//! side to move: material and piece-square tables tapered between the
//! middlegame and the endgame, mobility, pawn structure (doubled, isolated
//! and passed pawns), king safety and knight outposts.

use vstd::prelude::*;
use crate::bitboard::{
    bishop_attacks_of, count_bits, has_bit, knight_attacks_of, lemma_squares_ops, pop_lsb, popcount, queen_attacks_of,
    rook_attacks_of, squares, Bitboard, EMPTY,
};
use crate::board::{has_king, king_sq, Board};
use crate::types::{color_of_index, kind_from_index, kind_of_index, Color, PieceType, Square};

verus! {

// ---------------------------------------------------------------------------
// Sums over the squares of a bitboard
// ---------------------------------------------------------------------------

/// Sum of `f(s)` over the squares `s < n` set in `bb`.
pub open spec fn bb_sum(bb: u64, f: spec_fn(int) -> int, n: int) -> int
    decreases n,
{
    if n <= 0 {
        0
    } else {
        bb_sum(bb, f, n - 1) + if has_bit(bb, n - 1) {
            f(n - 1)
        } else {
            0
        }
    }
}

/// Taking a square out of a bitboard takes its term out of the sum.
pub proof fn lemma_bb_sum_remove(x: u64, y: u64, f: spec_fn(int) -> int, s: int, n: int)
    requires
        has_bit(x, s),
        forall|t: int| #[trigger] has_bit(y, t) == (has_bit(x, t) && t != s),
        0 <= n,
    ensures
        bb_sum(x, f, n) == bb_sum(y, f, n) + if s < n {
            f(s)
        } else {
            0
        },
    decreases n,
{
    if n > 0 {
        lemma_bb_sum_remove(x, y, f, s, n - 1);
        assert(has_bit(y, n - 1) == (has_bit(x, n - 1) && n - 1 != s));
    }
}

/// The empty bitboard sums to zero.
pub proof fn lemma_bb_sum_empty(f: spec_fn(int) -> int, n: int)
    ensures
        bb_sum(0, f, n) == 0,
    decreases n,
{
    if n > 0 {
        lemma_bb_sum_empty(f, n - 1);
        crate::bitboard::lemma_bit_zero((n - 1) as u64);
    }
}

/// Bounds of a sum whose terms are bounded.
pub proof fn lemma_bb_sum_bounds(bb: u64, f: spec_fn(int) -> int, n: int, lo: int, hi: int)
    requires
        lo <= 0 <= hi,
        0 <= n,
        forall|s: int| 0 <= s < n ==> lo <= #[trigger] f(s) <= hi,
    ensures
        n * lo <= bb_sum(bb, f, n) <= n * hi,
    decreases n,
{
    if n > 0 {
        lemma_bb_sum_bounds(bb, f, n - 1, lo, hi);
        assert(lo <= f(n - 1) <= hi);
        assert((n - 1) * lo + lo == n * lo && (n - 1) * hi + hi == n * hi) by (nonlinear_arith);
        assert(bb_sum(bb, f, n) == bb_sum(bb, f, n - 1) + if has_bit(bb, n - 1) { f(n - 1) } else { 0 });
    } else {
        assert(n * lo == 0 && n * hi == 0);
    }
}

/// `2^k`.
pub open spec fn two_pow(k: nat) -> nat
    decreases k,
{
    if k == 0 {
        1
    } else {
        2 * two_pow((k - 1) as nat)
    }
}

proof fn lemma_popcount_le(x: u64, k: nat)
    requires
        x < two_pow(k),
    ensures
        popcount(x) <= k,
    decreases k,
{
    if k > 0 && x != 0 {
        lemma_popcount_le(x / 2, (k - 1) as nat);
    }
}

/// A bitboard has at most 64 squares.
pub proof fn lemma_popcount_bound(x: u64)
    ensures
        popcount(x) <= 64,
{
    reveal_with_fuel(two_pow, 65);
    assert(two_pow(64) == 0x1_0000_0000_0000_0000);
    lemma_popcount_le(x, 64);
}

// ---------------------------------------------------------------------------
// Material and piece-square tables
// ---------------------------------------------------------------------------

pub open spec fn piece_value_spec(p: PieceType) -> i32 {
    match p {
        PieceType::Pawn => 100,
        PieceType::Knight => 320,
        PieceType::Bishop => 330,
        PieceType::Rook => 500,
        PieceType::Queen => 900,
        PieceType::King => 0,
    }
}

/// Material value of a piece kind, in centipawns.
pub fn piece_value(p: PieceType) -> (v: i32)
    ensures
        v == piece_value_spec(p),
{
    match p {
        PieceType::Pawn => 100,
        PieceType::Knight => 320,
        PieceType::Bishop => 330,
        PieceType::Rook => 500,
        PieceType::Queen => 900,
        PieceType::King => 0,
    }
}

/// Phase of the full set of pieces.
pub const MAX_PHASE: i32 = 24;

/// Piece-square tables, middlegame then endgame, indexed by kind * 64 +
/// square as seen from White: knights, bishops and queens are drawn to the
/// centre, pawns to the centre and forward, rooks to the central files and
/// (in the endgame) the seventh rank; the king keeps to its corner in the
/// middlegame and centralises in the endgame.
pub const PST_MG: [i32; 384] = [
    0, 4, 8, 12, 12, 8, 4, 0, 5, 9, 13, 17, 17, 13, 9, 5,
    10, 14, 18, 22, 22, 18, 14, 10, 15, 19, 23, 42, 42, 23, 19, 15,
    20, 24, 28, 47, 47, 28, 24, 20, 25, 29, 33, 37, 37, 33, 29, 25,
    30, 34, 38, 42, 42, 38, 34, 30, 35, 39, 43, 47, 47, 43, 39, 35,
    -10, -6, -2, 0, 0, -2, -6, -10, -6, 0, 3, 6, 6, 3, 0, -6,
    -2, 3, 9, 12, 12, 9, 3, -2, 0, 6, 12, 19, 19, 12, 6, 0,
    0, 6, 12, 19, 19, 12, 6, 0, -2, 3, 9, 12, 12, 9, 3, -2,
    -6, 0, 3, 6, 6, 3, 0, -6, -10, -6, -2, 0, 0, -2, -6, -10,
    -2, 0, 0, 1, 1, 0, 0, -2, 0, 1, 3, 4, 4, 3, 1, 0,
    0, 3, 5, 7, 7, 5, 3, 0, 1, 4, 7, 9, 9, 7, 4, 1,
    1, 4, 7, 9, 9, 7, 4, 1, 0, 3, 5, 7, 7, 5, 3, 0,
    0, 1, 3, 4, 4, 3, 1, 0, -2, 0, 0, 1, 1, 0, 0, -2,
    0, 2, 3, 5, 5, 3, 2, 0, 0, 2, 3, 5, 5, 3, 2, 0,
    0, 2, 3, 5, 5, 3, 2, 0, 0, 2, 3, 5, 5, 3, 2, 0,
    0, 2, 3, 5, 5, 3, 2, 0, 0, 2, 3, 5, 5, 3, 2, 0,
    0, 2, 3, 5, 5, 3, 2, 0, 0, 2, 3, 5, 5, 3, 2, 0,
    -1, 0, 0, 0, 0, 0, 0, -1, 0, 0, 1, 2, 2, 1, 0, 0,
    0, 1, 2, 3, 3, 2, 1, 0, 0, 2, 3, 4, 4, 3, 2, 0,
    0, 2, 3, 4, 4, 3, 2, 0, 0, 1, 2, 3, 3, 2, 1, 0,
    0, 0, 1, 2, 2, 1, 0, 0, -1, 0, 0, 0, 0, 0, 0, -1,
    65, 59, 55, 52, 52, 55, 59, 65, 56, 49, 44, 40, 40, 44, 49, 56,
    49, 41, 34, 29, 29, 34, 41, 49, 43, 34, 26, 18, 18, 26, 34, 43,
    40, 31, 23, 15, 15, 23, 31, 40, 40, 32, 25, 20, 20, 25, 32, 40,
    41, 34, 29, 25, 25, 29, 34, 41, 44, 38, 34, 31, 31, 34, 38, 44,
];

pub const PST_EG: [i32; 384] = [
    0, 0, 0, 0, 0, 0, 0, 0, 2, 2, 2, 2, 2, 2, 2, 2,
    8, 8, 8, 8, 8, 8, 8, 8, 18, 18, 18, 18, 18, 18, 18, 18,
    32, 32, 32, 32, 32, 32, 32, 32, 50, 50, 50, 50, 50, 50, 50, 50,
    72, 72, 72, 72, 72, 72, 72, 72, 98, 98, 98, 98, 98, 98, 98, 98,
    -6, -3, -1, 0, 0, -1, -3, -6, -3, 0, 3, 5, 5, 3, 0, -3,
    -1, 3, 7, 10, 10, 7, 3, -1, 0, 5, 10, 14, 14, 10, 5, 0,
    0, 5, 10, 14, 14, 10, 5, 0, -1, 3, 7, 10, 10, 7, 3, -1,
    -3, 0, 3, 5, 5, 3, 0, -3, -6, -3, -1, 0, 0, -1, -3, -6,
    -4, -2, -1, 0, 0, -1, -2, -4, -2, 0, 1, 2, 2, 1, 0, -2,
    -1, 1, 3, 5, 5, 3, 1, -1, 0, 2, 5, 7, 7, 5, 2, 0,
    0, 2, 5, 7, 7, 5, 2, 0, -1, 1, 3, 5, 5, 3, 1, -1,
    -2, 0, 1, 2, 2, 1, 0, -2, -4, -2, -1, 0, 0, -1, -2, -4,
    0, 1, 2, 3, 3, 2, 1, 0, 0, 1, 2, 3, 3, 2, 1, 0,
    0, 1, 2, 3, 3, 2, 1, 0, 0, 1, 2, 3, 3, 2, 1, 0,
    0, 1, 2, 3, 3, 2, 1, 0, 0, 1, 2, 3, 3, 2, 1, 0,
    16, 17, 18, 19, 19, 18, 17, 16, 0, 1, 2, 3, 3, 2, 1, 0,
    -2, 0, 0, 1, 1, 0, 0, -2, 0, 1, 2, 3, 3, 2, 1, 0,
    0, 2, 4, 6, 6, 4, 2, 0, 1, 3, 6, 8, 8, 6, 3, 1,
    1, 3, 6, 8, 8, 6, 3, 1, 0, 2, 4, 6, 6, 4, 2, 0,
    0, 1, 2, 3, 3, 2, 1, 0, -2, 0, 0, 1, 1, 0, 0, -2,
    -15, -10, -6, -4, -4, -6, -10, -15, -10, -4, 0, 3, 3, 0, -4, -10,
    -6, 0, 7, 11, 11, 7, 0, -6, -4, 3, 11, 18, 18, 11, 3, -4,
    -4, 3, 11, 18, 18, 11, 3, -4, -6, 0, 7, 11, 11, 7, 0, -6,
    -10, -4, 0, 3, 3, 0, -4, -10, -15, -10, -6, -4, -4, -6, -10, -15,
];


/// Middlegame table entry of kind index `k` on square `s` (from White's side).
#[verifier::opaque]
pub open spec fn pst_mg(k: int, s: int) -> i32 {
    PST_MG@[k * 64 + s]
}

/// Endgame table entry of kind index `k` on square `s` (from White's side).
#[verifier::opaque]
pub open spec fn pst_eg(k: int, s: int) -> i32 {
    PST_EG@[k * 64 + s]
}

pub proof fn lemma_pst_bounds()
    ensures
        forall|k: int, s: int| 0 <= k < 6 && 0 <= s < 64 ==> -20 <= #[trigger] pst_mg(k, s) <= 100,
        forall|k: int, s: int| 0 <= k < 6 && 0 <= s < 64 ==> -20 <= #[trigger] pst_eg(k, s) <= 100,
{
    reveal(pst_mg);
    reveal(pst_eg);
    assert forall|i: int| 0 <= i < 384 implies -20 <= #[trigger] PST_MG@[i] <= 100 by {}
    assert forall|i: int| 0 <= i < 384 implies -20 <= #[trigger] PST_EG@[i] <= 100 by {}
    assert forall|k: int, s: int| 0 <= k < 6 && 0 <= s < 64 implies -20 <= #[trigger] pst_mg(k, s) <= 100 && -20
        <= pst_eg(k, s) <= 100 by {
        assert(0 <= k * 64 + s < 384) by (nonlinear_arith)
            requires
                0 <= k < 6,
                0 <= s < 64,
        ;
        assert(-20 <= PST_MG@[k * 64 + s] <= 100);
        assert(-20 <= PST_EG@[k * 64 + s] <= 100);
    }
}

fn pst_entry(mg: bool, k: usize, s: Square) -> (v: i32)
    requires
        k < 6,
        s < 64,
    ensures
        v == (if mg { pst_mg(k as int, s as int) } else { pst_eg(k as int, s as int) }),
{
    reveal(pst_mg);
    reveal(pst_eg);
    let i = k * 64 + s as usize;
    if mg {
        PST_MG[i]
    } else {
        PST_EG[i]
    }
}

/// Square `s` as seen from the side of `c`: Black's squares are mirrored
/// vertically.
pub open spec fn rel_sq(c: Color, s: int) -> int {
    if c == Color::White {
        s
    } else {
        (7 - s / 8) * 8 + s % 8
    }
}

fn mirror(sq: Square) -> (r: Square)
    requires
        sq < 64,
    ensures
        r == (7 - sq / 8) * 8 + sq % 8,
{
    assert(sq ^ 56 == (7 - sq / 8) * 8 + sq % 8) by (bit_vector)
        requires
            sq < 64,
    ;
    sq ^ 56
}

/// Sum over the kinds `j < k` of the sums of `g(j)` over the squares of the
/// pieces of colour index `c` and kind `j`.
pub open spec fn kinds_sum(b: Board, c: int, g: spec_fn(int) -> spec_fn(int) -> int, k: int) -> int
    decreases k,
{
    if k <= 0 {
        0
    } else {
        kinds_sum(b, c, g, k - 1) + bb_sum(b.pieces[c][k - 1], g(k - 1), 64)
    }
}

pub open spec fn value_term() -> spec_fn(int) -> spec_fn(int) -> int {
    |k: int| |s: int| piece_value_spec(kind_of_index(k)) as int
}

pub open spec fn pst_term(c: Color, mg: bool) -> spec_fn(int) -> spec_fn(int) -> int {
    |k: int| |s: int| if mg { pst_mg(k, rel_sq(c, s)) as int } else { pst_eg(k, rel_sq(c, s)) as int }
}

/// Material of colour `c`.
pub open spec fn material(b: Board, c: Color) -> int {
    kinds_sum(b, c.spec_index() as int, value_term(), 6)
}

/// A sum of one and the same value over the squares of a bitboard is that
/// value times the number of squares.
proof fn lemma_constant_sum(bb: u64, f: spec_fn(int) -> int, v: int, n: int)
    requires
        0 <= n <= 64,
        forall|s: int| #[trigger] f(s) == v,
    ensures
        bb_sum(bb, f, n) == v * bb_sum(bb, crate::symmetry::one(), n),
    decreases n,
{
    if n > 0 {
        lemma_constant_sum(bb, f, v, n - 1);
        let a = bb_sum(bb, crate::symmetry::one(), n - 1);
        assert(v * (a + 1) == v * a + v) by (nonlinear_arith);
    }
}

/// Material counts every piece at its value: a pawn 100, a knight 320, a
/// bishop 330, a rook 500, a queen 900, the king nothing. The material of a
/// colour is the number of its pieces of each kind times that value.
pub proof fn lemma_material_counts_pieces(b: Board, c: Color)
    ensures
        ({
            let p = b.pieces[c.spec_index() as int];
            material(b, c) == 100 * popcount(p[0]) + 320 * popcount(p[1]) + 330 * popcount(p[2]) + 500 * popcount(
                p[3],
            ) + 900 * popcount(p[4])
        }),
{
    let ci = c.spec_index() as int;
    let p = b.pieces[ci];
    let vt = value_term();
    reveal_with_fuel(kinds_sum, 7);
    assert forall|k: int| 0 <= k < 6 implies bb_sum(p[k], vt(k), 64) == piece_value_spec(kind_of_index(k)) as int
        * popcount(p[k]) by {
        lemma_constant_sum(p[k], vt(k), piece_value_spec(kind_of_index(k)) as int, 64);
        crate::symmetry::lemma_popcount_sum(p[k]);
    }
    assert(bb_sum(p[0], vt(0), 64) == 100 * popcount(p[0]));
    assert(bb_sum(p[1], vt(1), 64) == 320 * popcount(p[1]));
    assert(bb_sum(p[2], vt(2), 64) == 330 * popcount(p[2]));
    assert(bb_sum(p[3], vt(3), 64) == 500 * popcount(p[3]));
    assert(bb_sum(p[4], vt(4), 64) == 900 * popcount(p[4]));
    assert(bb_sum(p[5], vt(5), 64) == 0);
}

/// Piece-square total of colour `c`, middlegame (`mg`) or endgame.
pub open spec fn pst_total(b: Board, c: Color, mg: bool) -> int {
    kinds_sum(b, c.spec_index() as int, pst_term(c, mg), 6)
}

proof fn lemma_kinds_sum_bounds(b: Board, c: int, g: spec_fn(int) -> spec_fn(int) -> int, k: int, lo: int, hi: int)
    requires
        0 <= k <= 6,
        lo <= 0 <= hi,
        forall|j: int, s: int| 0 <= j < 6 && 0 <= s < 64 ==> lo <= #[trigger] g(j)(s) <= hi,
    ensures
        k * 64 * lo <= kinds_sum(b, c, g, k) <= k * 64 * hi,
    decreases k,
{
    if k > 0 {
        lemma_kinds_sum_bounds(b, c, g, k - 1, lo, hi);
        lemma_bb_sum_bounds(b.pieces[c][k - 1], g(k - 1), 64, lo, hi);
        assert((k - 1) * 64 * lo + 64 * lo == k * 64 * lo && (k - 1) * 64 * hi + 64 * hi == k * 64 * hi) by (nonlinear_arith);
    }
}

/// Sums over the squares of `bb` of the value of kind `k` and of its two
/// table entries for `color`.
fn kind_sums(bb: Bitboard, k: usize, color: Color) -> (r: (i32, i32, i32))
    requires
        k < 6,
    ensures
        r.0 == bb_sum(bb, value_term()(k as int), 64),
        r.1 == bb_sum(bb, pst_term(color, true)(k as int), 64),
        r.2 == bb_sum(bb, pst_term(color, false)(k as int), 64),
{
    let ghost vt = value_term()(k as int);
    let ghost mt = pst_term(color, true)(k as int);
    let ghost et = pst_term(color, false)(k as int);
    proof {
        lemma_pst_bounds();
        lemma_bb_sum_bounds(bb, vt, 64, 0, 900);
        lemma_bb_sum_bounds(bb, mt, 64, -20, 100);
        lemma_bb_sum_bounds(bb, et, 64, -20, 100);
    }
    let value = piece_value(kind_from_index(k));
    let mut rest = bb;
    let mut v: i32 = 0;
    let mut m: i32 = 0;
    let mut e: i32 = 0;
    while rest != EMPTY
        invariant
            k < 6,
            vt == value_term()(k as int),
            mt == pst_term(color, true)(k as int),
            et == pst_term(color, false)(k as int),
            value == piece_value_spec(kind_of_index(k as int)),
            v + bb_sum(rest, vt, 64) == bb_sum(bb, vt, 64),
            m + bb_sum(rest, mt, 64) == bb_sum(bb, mt, 64),
            e + bb_sum(rest, et, 64) == bb_sum(bb, et, 64),
            0 <= bb_sum(bb, vt, 64) <= 64 * 900,
            -64 * 20 <= bb_sum(bb, mt, 64) <= 64 * 100,
            -64 * 20 <= bb_sum(bb, et, 64) <= 64 * 100,
            0 <= bb_sum(rest, vt, 64) <= 64 * 900,
            -64 * 20 <= bb_sum(rest, mt, 64) <= 64 * 100,
            -64 * 20 <= bb_sum(rest, et, 64) <= 64 * 100,
            forall|j: int, s: int| 0 <= j < 6 && 0 <= s < 64 ==> -20 <= #[trigger] pst_mg(j, s) <= 100,
            forall|j: int, s: int| 0 <= j < 6 && 0 <= s < 64 ==> -20 <= #[trigger] pst_eg(j, s) <= 100,
        decreases rest,
    {
        let ghost r0 = rest;
        let sq = pop_lsb(&mut rest);
        proof {
            assert forall|t: int| #[trigger] has_bit(rest, t) == (has_bit(r0, t) && t != sq as int) by {
                assert(squares(rest).contains(t) == squares(r0).remove(sq as int).contains(t));
            }
            lemma_bb_sum_remove(r0, rest, vt, sq as int, 64);
            lemma_bb_sum_remove(r0, rest, mt, sq as int, 64);
            lemma_bb_sum_remove(r0, rest, et, sq as int, 64);
            lemma_bb_sum_bounds(rest, vt, 64, 0, 900);
            lemma_bb_sum_bounds(rest, mt, 64, -20, 100);
            lemma_bb_sum_bounds(rest, et, 64, -20, 100);
        }
        let idx = if color == Color::White { sq } else { mirror(sq) };
        v = v + value;
        m = m + pst_entry(true, k, idx);
        e = e + pst_entry(false, k, idx);
    }
    proof {
        lemma_bb_sum_empty(vt, 64);
        lemma_bb_sum_empty(mt, 64);
        lemma_bb_sum_empty(et, 64);
    }
    (v, m, e)
}

/// Material and piece-square totals of `color`, each as (middlegame,
/// endgame).
fn material_and_pst_components(board: &Board, color: Color) -> (r: ((i32, i32), (i32, i32)))
    ensures
        r.0.0 == material(*board, color),
        r.0.1 == material(*board, color),
        r.1.0 == pst_total(*board, color, true),
        r.1.1 == pst_total(*board, color, false),
{
    let ghost b = *board;
    let ci = color.index();
    let ghost c = ci as int;
    proof {
        lemma_pst_bounds();
    }
    let mut material_sum: i32 = 0;
    let mut pst_mg_sum: i32 = 0;
    let mut pst_eg_sum: i32 = 0;
    let mut k: usize = 0;
    while k < 6
        invariant
            b == *board,
            c == ci,
            ci == color.spec_index(),
            k <= 6,
            material_sum == kinds_sum(b, c, value_term(), k as int),
            pst_mg_sum == kinds_sum(b, c, pst_term(color, true), k as int),
            pst_eg_sum == kinds_sum(b, c, pst_term(color, false), k as int),
            forall|j: int, s: int| 0 <= j < 6 && 0 <= s < 64 ==> -20 <= #[trigger] pst_mg(j, s) <= 100,
            forall|j: int, s: int| 0 <= j < 6 && 0 <= s < 64 ==> -20 <= #[trigger] pst_eg(j, s) <= 100,
        decreases 6 - k,
    {
        proof {
            lemma_kinds_sum_bounds(b, c, value_term(), k as int + 1, 0, 900);
            lemma_kinds_sum_bounds(b, c, pst_term(color, true), k as int + 1, -20, 100);
            lemma_kinds_sum_bounds(b, c, pst_term(color, false), k as int + 1, -20, 100);
            assert((k as int + 1) * 64 * 900 <= 6 * 64 * 900) by (nonlinear_arith)
                requires
                    k < 6,
            ;
            assert((k as int + 1) * 64 * 100 <= 6 * 64 * 100 && (k as int + 1) * 64 * -20 >= 6 * 64 * -20) by (nonlinear_arith)
                requires
                    k < 6,
            ;
        }
        let (v, m, e) = kind_sums(board.pieces[ci][k], k, color);
        material_sum = material_sum + v;
        pst_mg_sum = pst_mg_sum + m;
        pst_eg_sum = pst_eg_sum + e;
        k += 1;
    }
    ((material_sum, material_sum), (pst_mg_sum, pst_eg_sum))
}

// ---------------------------------------------------------------------------
// Game phase and mobility
// ---------------------------------------------------------------------------

/// Sum of the phase weights of the knights, bishops, rooks and queens on the
/// board.
pub open spec fn phase_raw(b: Board) -> int {
    (popcount(b.pieces[0][1]) * 1 + popcount(b.pieces[0][2]) * 1 + popcount(b.pieces[0][3]) * 2 + popcount(
        b.pieces[0][4],
    ) * 4 + popcount(b.pieces[1][1]) * 1 + popcount(b.pieces[1][2]) * 1 + popcount(b.pieces[1][3]) * 2
        + popcount(b.pieces[1][4]) * 4) as int
}

/// Game phase: 24 with all pieces on the board (or more), down to 0 with
/// kings and pawns only.
pub open spec fn game_phase_spec(b: Board) -> int {
    if phase_raw(b) < 24 {
        phase_raw(b)
    } else {
        24
    }
}

fn game_phase(board: &Board) -> (r: i32)
    ensures
        r == game_phase_spec(*board),
        0 <= r <= 24,
{
    let wn = count_bits(board.pieces[0][1]);
    let wb = count_bits(board.pieces[0][2]);
    let wr = count_bits(board.pieces[0][3]);
    let wq = count_bits(board.pieces[0][4]);
    let bn = count_bits(board.pieces[1][1]);
    let bb = count_bits(board.pieces[1][2]);
    let br = count_bits(board.pieces[1][3]);
    let bq = count_bits(board.pieces[1][4]);
    proof {
        lemma_popcount_bound(board.pieces[0][1]);
        lemma_popcount_bound(board.pieces[0][2]);
        lemma_popcount_bound(board.pieces[0][3]);
        lemma_popcount_bound(board.pieces[0][4]);
        lemma_popcount_bound(board.pieces[1][1]);
        lemma_popcount_bound(board.pieces[1][2]);
        lemma_popcount_bound(board.pieces[1][3]);
        lemma_popcount_bound(board.pieces[1][4]);
    }
    let phase: i32 = (wn as i32) + (wb as i32) + 2 * (wr as i32) + 4 * (wq as i32) + (bn as i32) + (bb as i32)
        + 2 * (br as i32) + 4 * (bq as i32);
    if phase < 24 {
        phase
    } else {
        24
    }
}

/// The squares a piece of kind index `k` (knight to queen) on `s` attacks.
pub open spec fn attack_set_of(k: int, s: int, occ: u64) -> Set<int> {
    if k == 1 {
        crate::bitboard::knight_set(s)
    } else if k == 2 {
        crate::bitboard::bishop_set(s, occ)
    } else if k == 3 {
        crate::bitboard::rook_set(s, occ)
    } else {
        crate::bitboard::queen_set(s, occ)
    }
}

/// The bitboard of a set of squares.
pub open spec fn bb_of(set: Set<int>) -> u64 {
    choose|x: u64| squares(x) == set
}

proof fn lemma_bb_of(x: u64, set: Set<int>)
    requires
        squares(x) == set,
    ensures
        bb_of(set) == x,
{
    let y = bb_of(set);
    assert(squares(y) == set);
    crate::bitboard::lemma_squares_ext(x, y);
}

/// Number of squares not held by `own` that the piece of kind index `k` on
/// each square attacks.
pub open spec fn mobility_term(k: int, occ: u64, own: u64) -> spec_fn(int) -> int {
    |s: int| popcount(bb_of(attack_set_of(k, s, occ)) & !own) as int
}

/// Mobility count of colour `c`: squares not held by its own pieces that
/// its knights, bishops, rooks and queens attack.
pub open spec fn mobility_count(b: Board, c: Color) -> int {
    let ci = c.spec_index() as int;
    let occ = crate::board::occ_bb(b);
    let own = crate::board::color_occ(b, ci);
    bb_sum(b.pieces[ci][1], mobility_term(1, occ, own), 64) + bb_sum(b.pieces[ci][2], mobility_term(2, occ, own), 64)
        + bb_sum(b.pieces[ci][3], mobility_term(3, occ, own), 64) + bb_sum(b.pieces[ci][4], mobility_term(4, occ, own), 64)
}

#[verifier::spinoff_prover]
#[verifier::rlimit(60)]
fn mobility_of_kind(bb: Bitboard, k: usize, occ: Bitboard, own: Bitboard) -> (r: i32)
    requires
        1 <= k <= 4,
    ensures
        r == bb_sum(bb, mobility_term(k as int, occ, own), 64),
        0 <= r <= 64 * 64,
{
    let ghost f = mobility_term(k as int, occ, own);
    proof {
        assert forall|s: int| 0 <= s < 64 implies 0 <= #[trigger] f(s) <= 64 by {
            lemma_popcount_bound(bb_of(attack_set_of(k as int, s, occ)) & !own);
        }
        lemma_bb_sum_bounds(bb, f, 64, 0, 64);
    }
    let mut rest = bb;
    let mut count: i32 = 0;
    while rest != EMPTY
        invariant
            1 <= k <= 4,
            f == mobility_term(k as int, occ, own),
            forall|s: int| 0 <= s < 64 ==> 0 <= #[trigger] f(s) <= 64,
            count + bb_sum(rest, f, 64) == bb_sum(bb, f, 64),
            0 <= bb_sum(bb, f, 64) <= 64 * 64,
            0 <= bb_sum(rest, f, 64) <= 64 * 64,
        decreases rest,
    {
        let ghost r0 = rest;
        let sq = pop_lsb(&mut rest);
        proof {
            assert forall|t: int| #[trigger] has_bit(rest, t) == (has_bit(r0, t) && t != sq as int) by {
                assert(squares(rest).contains(t) == squares(r0).remove(sq as int).contains(t));
            }
            lemma_bb_sum_remove(r0, rest, f, sq as int, 64);
            lemma_bb_sum_bounds(rest, f, 64, 0, 64);
        }
        let attacks = if k == 1 {
            knight_attacks_of(sq)
        } else if k == 2 {
            bishop_attacks_of(sq, occ)
        } else if k == 3 {
            rook_attacks_of(sq, occ)
        } else {
            queen_attacks_of(sq, occ)
        };
        proof {
            lemma_bb_of(attacks, attack_set_of(k as int, sq as int, occ));
        }
        count = count + count_bits(attacks & !own) as i32;
    }
    proof {
        lemma_bb_sum_empty(f, 64);
    }
    count
}

/// Mobility of `color`, (middlegame, endgame): 4 and 3 per attacked square.
#[verifier::spinoff_prover]
#[verifier::rlimit(60)]
fn mobility(board: &Board, color: Color) -> (r: (i32, i32))
    ensures
        r.0 == mobility_count(*board, color) * 4,
        r.1 == mobility_count(*board, color) * 3,
        0 <= mobility_count(*board, color) <= 4 * 64 * 64,
{
    let occ = board.occupancy();
    let own = board.color_occupancy(color);
    let ci = color.index();
    let count = mobility_of_kind(board.pieces[ci][1], 1, occ, own) + mobility_of_kind(board.pieces[ci][2], 2, occ, own)
        + mobility_of_kind(board.pieces[ci][3], 3, occ, own) + mobility_of_kind(board.pieces[ci][4], 4, occ, own);
    (count * 4, count * 3)
}

// ---------------------------------------------------------------------------
// Pawn structure
// ---------------------------------------------------------------------------

pub const FILE_A: u64 = 0x0101010101010101;

/// The squares of file `f`.
pub open spec fn file_mask(f: int) -> u64 {
    FILE_A << (f as u64)
}

/// The squares of the files next to file `f`.
pub open spec fn adjacent_mask(f: int) -> u64 {
    (if f > 0 { FILE_A << ((f - 1) as u64) } else { 0u64 }) | (if f < 7 { FILE_A << ((f + 1) as u64) } else { 0u64 })
}

/// Penalty of file `f` for the pawns `own`: doubled pawns (10 in the
/// middlegame, 20 in the endgame per extra pawn) and isolated pawns (12, 16
/// per file without own pawns next to it).
pub open spec fn file_term(own: u64, f: int, mg: bool) -> int {
    let cnt = popcount(own & file_mask(f)) as int;
    (if cnt > 1 {
        (if mg { -10int } else { -20int }) * (cnt - 1)
    } else {
        0
    }) + (if cnt > 0 && own & adjacent_mask(f) == 0 {
        if mg { -12int } else { -16int }
    } else {
        0
    })
}

/// Penalties of the files `0..f`.
pub open spec fn files_sum(own: u64, f: int, mg: bool) -> int
    decreases f,
{
    if f <= 0 {
        0
    } else {
        files_sum(own, f - 1, mg) + file_term(own, f - 1, mg)
    }
}

pub open spec fn file_lo(f: int) -> int {
    if f >= 1 {
        f - 1
    } else {
        0
    }
}

pub open spec fn file_hi(f: int) -> int {
    if f + 1 <= 7 {
        f + 1
    } else {
        7
    }
}

/// No pawn of `enemy` stands ahead of the pawn of colour `c` on `sq`, on
/// its file or the files next to it.
pub open spec fn is_passed_spec(enemy: u64, c: Color, sq: int) -> bool {
    forall|r: int, f: int|
        0 <= r < 8 && file_lo(sq % 8) <= f <= file_hi(sq % 8) && (if c == Color::White {
            r > sq / 8
        } else {
            r < sq / 8
        }) ==> !#[trigger] has_bit(enemy, r * 8 + f)
}

fn is_passed_pawn(enemy_pawns: u64, color: Color, sq: Square) -> (r: bool)
    requires
        sq < 64,
    ensures
        r == is_passed_spec(enemy_pawns, color, sq as int),
{
    let file = sq % 8;
    let rank = sq / 8;
    let lo_file: u8 = if file >= 1 { file - 1 } else { 0 };
    let hi_file: u8 = if file + 1 <= 7 { file + 1 } else { 7 };
    let (mut r, end): (u8, u8) = if color == Color::White { (rank + 1, 8) } else { (0, rank) };
    let ghost start = r;
    while r < end
        invariant
            file == sq % 8,
            rank == sq / 8,
            lo_file == file_lo(file as int),
            hi_file == file_hi(file as int),
            start <= r,
            end <= 8,
            color == Color::White ==> start == rank + 1 && end == 8,
            color == Color::Black ==> start == 0 && end == rank,
            forall|rr: int, f: int| start <= rr < r && lo_file <= f <= hi_file ==> !#[trigger] has_bit(enemy_pawns, rr * 8 + f),
        decreases end - r,
    {
        let mut f = lo_file;
        while f <= hi_file
            invariant
                lo_file <= f <= hi_file + 1,
                file == sq % 8,
                rank == sq / 8,
                lo_file == file_lo(file as int),
                hi_file == file_hi(file as int),
                hi_file <= 7,
                r < end <= 8,
                color == Color::White ==> r > rank,
                color == Color::Black ==> r < rank,
                forall|ff: int| lo_file <= ff < f ==> !#[trigger] has_bit(enemy_pawns, r * 8 + ff),
            decreases hi_file + 1 - f,
        {
            if crate::bitboard::get_bit(enemy_pawns, r * 8 + f) {
                proof {
                    assert(has_bit(enemy_pawns, r as int * 8 + f as int));
                }
                return false;
            }
            f += 1;
        }
        r += 1;
    }
    true
}

/// A pawn of `pawns` stands diagonally behind `sq` for colour `c` (for
/// White on the rank below, for Black on the rank above).
pub open spec fn pawn_behind_diag(pawns: u64, c: Color, sq: int) -> bool {
    let file = sq % 8;
    let rank = sq / 8;
    let r = if c == Color::White { rank - 1 } else { rank + 1 };
    &&& 0 <= r < 8
    &&& (file > 0 && has_bit(pawns, r * 8 + file - 1)) || (file < 7 && has_bit(pawns, r * 8 + file + 1))
}

fn pawn_behind(pawns: u64, color: Color, sq: Square) -> (r: bool)
    requires
        sq < 64,
    ensures
        r == pawn_behind_diag(pawns, color, sq as int),
{
    let file = sq % 8;
    let rank = sq / 8;
    let behind: Option<u8> = match color {
        Color::White => if rank >= 1 { Some(rank - 1) } else { None },
        Color::Black => if rank < 7 { Some(rank + 1) } else { None },
    };
    match behind {
        Some(r) => {
            if file > 0 && crate::bitboard::get_bit(pawns, r * 8 + file - 1) {
                return true;
            }
            if file < 7 && crate::bitboard::get_bit(pawns, r * 8 + file + 1) {
                return true;
            }
            false
        },
        None => false,
    }
}

/// An own pawn stands next to the pawn on `sq`, on an adjacent file and at
/// most one rank away.
pub open spec fn is_connected_spec(own: u64, sq: int) -> bool {
    let file = sq % 8;
    let rank = sq / 8;
    exists|r: int| file_lo(rank) <= r <= file_hi(rank) && #[trigger] side_by_side(own, file, r)
}

/// A pawn of `own` stands on rank `r` on a file next to `file`.
pub open spec fn side_by_side(own: u64, file: int, r: int) -> bool {
    (file > 0 && has_bit(own, r * 8 + file - 1)) || (file < 7 && has_bit(own, r * 8 + file + 1))
}

fn is_connected_passed_pawn(own_pawns: u64, sq: Square) -> (r: bool)
    requires
        sq < 64,
    ensures
        r == is_connected_spec(own_pawns, sq as int),
{
    let file = sq % 8;
    let rank = sq / 8;
    let lo_rank: u8 = if rank >= 1 { rank - 1 } else { 0 };
    let hi_rank: u8 = if rank + 1 <= 7 { rank + 1 } else { 7 };
    if file > 0 {
        let mut r = lo_rank;
        while r <= hi_rank
            invariant
                lo_rank <= r <= hi_rank + 1,
                file == sq % 8,
                rank == sq / 8,
                lo_rank == file_lo(rank as int),
                hi_rank == file_hi(rank as int),
                hi_rank <= 7,
                0 < file < 8,
                forall|rr: int| lo_rank <= rr < r ==> !#[trigger] has_bit(own_pawns, rr * 8 + file - 1),
            decreases hi_rank + 1 - r,
        {
            if crate::bitboard::get_bit(own_pawns, r * 8 + file - 1) {
                proof {
                    assert(side_by_side(own_pawns, file as int, r as int));
                }
                return true;
            }
            r += 1;
        }
    }
    if file < 7 {
        let mut r = lo_rank;
        while r <= hi_rank
            invariant
                lo_rank <= r <= hi_rank + 1,
                file == sq % 8,
                rank == sq / 8,
                lo_rank == file_lo(rank as int),
                hi_rank == file_hi(rank as int),
                hi_rank <= 7,
                file < 7,
                forall|rr: int| lo_rank <= rr < r ==> !#[trigger] has_bit(own_pawns, rr * 8 + file + 1),
            decreases hi_rank + 1 - r,
        {
            if crate::bitboard::get_bit(own_pawns, r * 8 + file + 1) {
                proof {
                    assert(side_by_side(own_pawns, file as int, r as int));
                }
                return true;
            }
            r += 1;
        }
    }
    proof {
        if is_connected_spec(own_pawns, sq as int) {
            let r = choose|r: int| file_lo(rank as int) <= r <= file_hi(rank as int) && #[trigger] side_by_side(own_pawns, file as int, r);
            assert(has_bit(own_pawns, r * 8 + file - 1) ==> !(file > 0));
        }
    }
    false
}

/// Distance between two squares in king moves.
pub open spec fn king_distance(a: int, b: int) -> int {
    let df = if a % 8 >= b % 8 { a % 8 - b % 8 } else { b % 8 - a % 8 };
    let dr = if a / 8 >= b / 8 { a / 8 - b / 8 } else { b / 8 - a / 8 };
    if df >= dr {
        df
    } else {
        dr
    }
}

/// The square where the pawn of colour `c` on `sq` promotes.
pub open spec fn promotion_square(c: Color, sq: int) -> int {
    (if c == Color::White { 7int } else { 0int }) * 8 + sq % 8
}

#[verifier::spinoff_prover]
#[verifier::rlimit(60)]
fn king_distance_to_promotion_square(board: &Board, king_color: Color, pawn_color: Color, sq: Square) -> (d: i32)
    requires
        has_king(*board, king_color),
        sq < 64,
    ensures
        d == king_distance(king_sq(*board, king_color), promotion_square(pawn_color, sq as int)),
        0 <= d <= 7,
{
    let king = board.king_square(king_color);
    let prank: u8 = match pawn_color {
        Color::White => 7,
        Color::Black => 0,
    };
    let promotion = prank * 8 + sq % 8;
    let kf = (king % 8) as i32;
    let pf = (promotion % 8) as i32;
    let kr = (king / 8) as i32;
    let pr = (promotion / 8) as i32;
    let file_distance = if kf >= pf { kf - pf } else { pf - kf };
    let rank_distance = if kr >= pr { kr - pr } else { pr - kr };
    if file_distance >= rank_distance {
        file_distance
    } else {
        rank_distance
    }
}

/// Bonus of the passed pawn of colour `c` on `sq`, (middlegame, endgame):
/// growing with its advance, more when protected or connected, and more
/// when its own king is nearer its promotion square than the enemy king.
pub open spec fn passed_bonus(b: Board, own: u64, c: Color, sq: int) -> (int, int) {
    let rank = sq / 8;
    let advance = if c == Color::White { rank } else { 7 - rank };
    let distance = if c == Color::White { 7 - rank } else { rank };
    let base = advance * advance * 3;
    let advancement = (if 6 - distance > 0 { 6 - distance } else { 0 }) * 4;
    let protected = if pawn_behind_diag(own, c, sq) { 10 + advancement / 2 } else { 0 };
    let connected = if is_connected_spec(own, sq) { 8 + advancement / 2 } else { 0 };
    let own_king = king_distance(king_sq(b, c), promotion_square(c, sq));
    let enemy_king = king_distance(king_sq(b, c.spec_opposite()), promotion_square(c, sq));
    let race = enemy_king - own_king;
    let king_race = (if race < -3 { -3 } else if race > 3 { 3 } else { race }) * 4;
    let mg = base / 2 + advancement / 2 + protected / 2 + connected / 2 + king_race / 2;
    let eg = base + advancement + protected + connected + king_race;
    (if mg > 0 { mg } else { 0 }, if eg > 0 { eg } else { 0 })
}

#[verifier::rlimit(40)]
fn passed_pawn_bonus(board: &Board, own_pawns: u64, color: Color, sq: Square) -> (r: (i32, i32))
    requires
        has_king(*board, Color::White),
        has_king(*board, Color::Black),
        sq < 64,
    ensures
        r.0 == passed_bonus(*board, own_pawns, color, sq as int).0,
        r.1 == passed_bonus(*board, own_pawns, color, sq as int).1,
        0 <= r.0 <= 200,
        0 <= r.1 <= 300,
{
    let rank = (sq / 8) as i32;
    let advance = match color {
        Color::White => rank,
        Color::Black => 7 - rank,
    };
    let distance = match color {
        Color::White => 7 - rank,
        Color::Black => rank,
    };
    assert(0 <= advance <= 7);
    assert(0 <= advance * advance <= 49) by (nonlinear_arith)
        requires
            0 <= advance <= 7,
    ;
    let base = advance * advance * 3;
    let advancement = (if 6 - distance > 0 { 6 - distance } else { 0 }) * 4;
    let protected = if pawn_behind(own_pawns, color, sq) { 10 + advancement / 2 } else { 0 };
    let connected = if is_connected_passed_pawn(own_pawns, sq) { 8 + advancement / 2 } else { 0 };
    let own_king_distance = king_distance_to_promotion_square(board, color, color, sq);
    let enemy_king_distance = king_distance_to_promotion_square(board, color.opposite(), color, sq);
    let race = enemy_king_distance - own_king_distance;
    let king_race = (if race < -3 { -3 } else if race > 3 { 3 } else { race }) * 4;
    let mg = base / 2 + advancement / 2 + protected / 2 + connected / 2 + king_race / 2;
    let eg = base + advancement + protected + connected + king_race;
    (if mg > 0 { mg } else { 0 }, if eg > 0 { eg } else { 0 })
}

/// Bonus of the passed pawns among `own`, middlegame (`mg`) or endgame.
pub open spec fn passed_term(b: Board, own: u64, enemy: u64, c: Color, mg: bool) -> spec_fn(int) -> int {
    |s: int|
        if is_passed_spec(enemy, c, s) {
            if mg {
                passed_bonus(b, own, c, s).0
            } else {
                passed_bonus(b, own, c, s).1
            }
        } else {
            0
        }
}

/// Pawn structure of colour `c`: ((doubled and isolated, middlegame and
/// endgame), (passed pawns, middlegame and endgame)).
pub open spec fn pawn_structure_spec(b: Board, c: Color) -> ((int, int), (int, int)) {
    let own = b.pieces[c.spec_index() as int][0];
    let enemy = b.pieces[c.spec_opposite().spec_index() as int][0];
    (
        (files_sum(own, 8, true), files_sum(own, 8, false)),
        (bb_sum(own, passed_term(b, own, enemy, c, true), 64), bb_sum(own, passed_term(b, own, enemy, c, false), 64)),
    )
}

proof fn lemma_file_term_bounds(own: u64, f: int)
    ensures
        -642 <= file_term(own, f, true) <= 0,
        -1276 <= file_term(own, f, false) <= 0,
{
    lemma_popcount_bound(own & file_mask(f));
}

proof fn lemma_files_sum_bounds(own: u64, f: int)
    requires
        0 <= f <= 8,
    ensures
        -642 * f <= files_sum(own, f, true) <= 0,
        -1276 * f <= files_sum(own, f, false) <= 0,
    decreases f,
{
    if f > 0 {
        lemma_files_sum_bounds(own, f - 1);
        lemma_file_term_bounds(own, f - 1);
    }
}

/// Doubled and isolated pawn penalties of the pawns `own`, (middlegame,
/// endgame).
#[verifier::spinoff_prover]
#[verifier::rlimit(60)]
fn files_penalty(own_pawns: u64) -> (r: (i32, i32))
    ensures
        r.0 == files_sum(own_pawns, 8, true),
        r.1 == files_sum(own_pawns, 8, false),
        -8 * 642 <= r.0 <= 0,
        -8 * 1276 <= r.1 <= 0,
{
    let mut mg: i32 = 0;
    let mut eg: i32 = 0;
    let mut file: u8 = 0;
    while file < 8
        invariant
            file <= 8,
            mg == files_sum(own_pawns, file as int, true),
            eg == files_sum(own_pawns, file as int, false),
            -642 * file <= mg <= 0,
            -1276 * file <= eg <= 0,
        decreases 8 - file,
    {
        proof {
            lemma_file_term_bounds(own_pawns, file as int);
            lemma_popcount_bound(own_pawns & file_mask(file as int));
        }
        let file_mask: u64 = FILE_A << file;
        let count_on_file = count_bits(own_pawns & file_mask) as i32;
        if count_on_file > 1 {
            mg = mg - 10 * (count_on_file - 1);
            eg = eg - 20 * (count_on_file - 1);
        }
        if count_on_file > 0 {
            let lower: u64 = if file > 0 { FILE_A << (file - 1) } else { 0 };
            let upper: u64 = if file < 7 { FILE_A << (file + 1) } else { 0 };
            let adjacent = lower | upper;
            if own_pawns & adjacent == EMPTY {
                mg = mg - 12;
                eg = eg - 16;
            }
        }
        file += 1;
    }
    (mg, eg)
}

#[verifier::spinoff_prover]
#[verifier::rlimit(60)]
proof fn lemma_passed_term_bounds(b: Board, own: u64, enemy: u64, c: Color)
    ensures
        forall|s: int| 0 <= s < 64 ==> 0 <= #[trigger] passed_term(b, own, enemy, c, true)(s) <= 300,
        forall|s: int| 0 <= s < 64 ==> 0 <= #[trigger] passed_term(b, own, enemy, c, false)(s) <= 300,
{
    assert forall|s: int| 0 <= s < 64 implies 0 <= #[trigger] passed_bonus(b, own, c, s).0 <= 300 && 0 <= passed_bonus(
        b,
        own,
        c,
        s,
    ).1 <= 300 by {
        let rank = s / 8;
        let advance = if c == Color::White { rank } else { 7 - rank };
        assert(0 <= advance <= 7);
        assert(advance * advance <= 49) by (nonlinear_arith)
            requires
                0 <= advance <= 7,
        ;
        let distance = if c == Color::White { 7 - rank } else { rank };
        let base = advance * advance * 3;
        assert(0 <= base <= 147);
        let advancement = (if 6 - distance > 0 { 6 - distance } else { 0 }) * 4;
        assert(0 <= advancement <= 24);
        let protected = if pawn_behind_diag(own, c, s) { 10 + advancement / 2 } else { 0 };
        let connected = if is_connected_spec(own, s) { 8 + advancement / 2 } else { 0 };
        assert(0 <= protected <= 22);
        assert(0 <= connected <= 20);
        let own_king = king_distance(king_sq(b, c), promotion_square(c, s));
        let enemy_king = king_distance(king_sq(b, c.spec_opposite()), promotion_square(c, s));
        let race = enemy_king - own_king;
        let king_race = (if race < -3 { -3 } else if race > 3 { 3 } else { race }) * 4;
        assert(-12 <= king_race <= 12);
        let eg = base + advancement + protected + connected + king_race;
        assert(eg <= 225);
        assert(passed_bonus(b, own, c, s).1 == (if eg > 0 { eg } else { 0 }));
        assert(0 <= passed_bonus(b, own, c, s).0 <= 300);
        assert(0 <= passed_bonus(b, own, c, s).1 <= 300);
    }
    assert forall|s: int| 0 <= s < 64 implies 0 <= #[trigger] passed_term(b, own, enemy, c, true)(s) <= 300 by {
        assert(0 <= passed_bonus(b, own, c, s).0 <= 300);
    }
    assert forall|s: int| 0 <= s < 64 implies 0 <= #[trigger] passed_term(b, own, enemy, c, false)(s) <= 300 by {
        assert(0 <= passed_bonus(b, own, c, s).0 <= 300 && 0 <= passed_bonus(b, own, c, s).1 <= 300);
    }
}

/// Bonus of the pawn on `sq` if it is passed, (middlegame, endgame).
fn passed_term_at(board: &Board, own_pawns: u64, enemy_pawns: u64, color: Color, sq: Square) -> (r: (i32, i32))
    requires
        has_king(*board, Color::White),
        has_king(*board, Color::Black),
        sq < 64,
    ensures
        r.0 == passed_term(*board, own_pawns, enemy_pawns, color, true)(sq as int),
        r.1 == passed_term(*board, own_pawns, enemy_pawns, color, false)(sq as int),
{
    if is_passed_pawn(enemy_pawns, color, sq) {
        passed_pawn_bonus(board, own_pawns, color, sq)
    } else {
        (0, 0)
    }
}

/// Bonus of the passed pawns among `own_pawns` of `color`, (middlegame,
/// endgame).
#[verifier::spinoff_prover]
#[verifier::rlimit(60)]
fn passed_pawns_total(board: &Board, own_pawns: u64, enemy_pawns: u64, color: Color) -> (r: (i32, i32))
    requires
        has_king(*board, Color::White),
        has_king(*board, Color::Black),
    ensures
        r.0 == bb_sum(own_pawns, passed_term(*board, own_pawns, enemy_pawns, color, true), 64),
        r.1 == bb_sum(own_pawns, passed_term(*board, own_pawns, enemy_pawns, color, false), 64),
        0 <= r.0 <= 64 * 300,
        0 <= r.1 <= 64 * 300,
{
    let ghost b = *board;
    let ghost pm = passed_term(b, own_pawns, enemy_pawns, color, true);
    let ghost pe = passed_term(b, own_pawns, enemy_pawns, color, false);
    let mut passed_mg: i32 = 0;
    let mut passed_eg: i32 = 0;
    let mut bb = own_pawns;
    proof {
        lemma_passed_term_bounds(b, own_pawns, enemy_pawns, color);
        lemma_bb_sum_bounds(own_pawns, pm, 64, 0, 300);
        lemma_bb_sum_bounds(own_pawns, pe, 64, 0, 300);
    }
    while bb != EMPTY
        invariant
            b == *board,
            has_king(b, Color::White),
            has_king(b, Color::Black),
            pm == passed_term(b, own_pawns, enemy_pawns, color, true),
            pe == passed_term(b, own_pawns, enemy_pawns, color, false),
            forall|s: int| 0 <= s < 64 ==> 0 <= #[trigger] pm(s) <= 300,
            forall|s: int| 0 <= s < 64 ==> 0 <= #[trigger] pe(s) <= 300,
            passed_mg + bb_sum(bb, pm, 64) == bb_sum(own_pawns, pm, 64),
            passed_eg + bb_sum(bb, pe, 64) == bb_sum(own_pawns, pe, 64),
            0 <= bb_sum(own_pawns, pm, 64) <= 64 * 300,
            0 <= bb_sum(own_pawns, pe, 64) <= 64 * 300,
            0 <= bb_sum(bb, pm, 64) <= 64 * 300,
            0 <= bb_sum(bb, pe, 64) <= 64 * 300,
        decreases bb,
    {
        let ghost r0 = bb;
        let sq = pop_lsb(&mut bb);
        proof {
            assert forall|t: int| #[trigger] has_bit(bb, t) == (has_bit(r0, t) && t != sq as int) by {
                assert(squares(bb).contains(t) == squares(r0).remove(sq as int).contains(t));
            }
            lemma_bb_sum_remove(r0, bb, pm, sq as int, 64);
            lemma_bb_sum_remove(r0, bb, pe, sq as int, 64);
            lemma_bb_sum_bounds(bb, pm, 64, 0, 300);
            lemma_bb_sum_bounds(bb, pe, 64, 0, 300);
        }
        let (bonus_mg, bonus_eg) = passed_term_at(board, own_pawns, enemy_pawns, color, sq);
        passed_mg = passed_mg + bonus_mg;
        passed_eg = passed_eg + bonus_eg;
    }
    proof {
        lemma_bb_sum_empty(pm, 64);
        lemma_bb_sum_empty(pe, 64);
    }
    (passed_mg, passed_eg)
}

fn pawn_structure_components(board: &Board, color: Color) -> (r: ((i32, i32), (i32, i32)))
    requires
        has_king(*board, Color::White),
        has_king(*board, Color::Black),
    ensures
        r.0.0 == pawn_structure_spec(*board, color).0.0,
        r.0.1 == pawn_structure_spec(*board, color).0.1,
        r.1.0 == pawn_structure_spec(*board, color).1.0,
        r.1.1 == pawn_structure_spec(*board, color).1.1,
        -8 * 642 <= r.0.0 <= 0,
        -8 * 1276 <= r.0.1 <= 0,
        0 <= r.1.0 <= 64 * 300,
        0 <= r.1.1 <= 64 * 300,
{
    let own_pawns = board.pieces[color.index()][0];
    let enemy_pawns = board.pieces[color.opposite().index()][0];
    let structure = files_penalty(own_pawns);
    let passed = passed_pawns_total(board, own_pawns, enemy_pawns, color);
    (structure, passed)
}

// ---------------------------------------------------------------------------
// King safety and knight outposts
// ---------------------------------------------------------------------------

/// Penalty of 15 for each file `lo..n` holding no pawn of `own`.
pub open spec fn open_files_penalty(own: u64, lo: int, n: int) -> int
    decreases n - lo,
{
    if n <= lo {
        0
    } else {
        open_files_penalty(own, lo, n - 1) + if own & file_mask(n - 1) == 0 {
            -15int
        } else {
            0
        }
    }
}

/// King safety of colour `c`: while its king is on its two home ranks,
/// 15 per file around it (its own and the next ones) without own pawns.
pub open spec fn king_safety_spec(b: Board, c: Color) -> int {
    let k = king_sq(b, c);
    let near_home = if c == Color::White { k / 8 <= 1 } else { k / 8 >= 6 };
    if !near_home {
        0
    } else {
        open_files_penalty(b.pieces[c.spec_index() as int][0], file_lo(k % 8), file_hi(k % 8) + 1)
    }
}

fn king_safety(board: &Board, color: Color) -> (r: i32)
    requires
        has_king(*board, color),
    ensures
        r == king_safety_spec(*board, color),
        -45 <= r <= 0,
{
    let king_sq = board.king_square(color);
    let file = king_sq % 8;
    let own_pawns = board.pieces[color.index()][0];
    let near_home = match color {
        Color::White => king_sq / 8 <= 1,
        Color::Black => king_sq / 8 >= 6,
    };
    if !near_home {
        return 0;
    }
    let mut score: i32 = 0;
    let lo: u8 = if file >= 1 { file - 1 } else { 0 };
    let hi: u8 = if file + 1 <= 7 { file + 1 } else { 7 };
    let mut f = lo;
    while f <= hi
        invariant
            lo <= f <= hi + 1,
            hi <= 7,
            hi - lo <= 2,
            score == open_files_penalty(own_pawns, lo as int, f as int),
            -15 * (f - lo) <= score <= 0,
        decreases hi + 1 - f,
    {
        let file_mask: u64 = FILE_A << f;
        if own_pawns & file_mask == EMPTY {
            score = score - 15;
        }
        f += 1;
    }
    score
}

pub open spec fn relative_rank_spec(c: Color, sq: int) -> int {
    if c == Color::White {
        sq / 8
    } else {
        7 - sq / 8
    }
}

/// Outpost squares: the central four files, ranks 4 to 6 seen from the
/// knight's side.
pub open spec fn is_outpost_square_spec(c: Color, sq: int) -> bool {
    2 <= sq % 8 <= 5 && 3 <= relative_rank_spec(c, sq) <= 5
}

/// An enemy pawn on an adjacent file could still advance to attack `sq`.
pub open spec fn challenge_at(enemy: u64, c: Color, sq: int, cf: int) -> bool {
    let rank = sq / 8;
    if c == Color::White {
        (rank < 6 && has_bit(enemy, (rank + 2) * 8 + cf)) || (rank == 3 && has_bit(enemy, 6 * 8 + cf))
    } else {
        (rank > 1 && has_bit(enemy, (rank - 2) * 8 + cf)) || (rank == 4 && has_bit(enemy, 1 * 8 + cf))
    }
}

pub open spec fn can_be_challenged(b: Board, c: Color, sq: int) -> bool {
    let enemy = b.pieces[c.spec_opposite().spec_index() as int][0];
    exists|cf: int| file_lo(sq % 8) <= cf <= file_hi(sq % 8) && cf != sq % 8 && #[trigger] challenge_at(enemy, c, sq, cf)
}

pub open spec fn centrality_bonus(sq: int) -> int {
    let f = sq % 8;
    if f == 3 || f == 4 {
        8
    } else if f == 2 || f == 5 {
        4
    } else {
        0
    }
}

pub open spec fn advancement_bonus(c: Color, sq: int) -> int {
    let r = relative_rank_spec(c, sq);
    if r == 5 {
        8
    } else if r == 4 {
        5
    } else if r == 3 {
        2
    } else {
        0
    }
}

/// Bonus of a knight of colour `c` on `sq`: on an outpost square, supported
/// by an own pawn and not attacked by an enemy pawn, 22 plus centrality
/// and advance, plus 6 when no enemy pawn can come to attack it.
pub open spec fn outpost_bonus_spec(b: Board, c: Color, sq: int) -> int {
    if !is_outpost_square_spec(c, sq) {
        0
    } else if !pawn_behind_diag(b.pieces[c.spec_index() as int][0], c, sq) || pawn_behind_diag(
        b.pieces[c.spec_opposite().spec_index() as int][0],
        c.spec_opposite(),
        sq,
    ) {
        0
    } else {
        12 + centrality_bonus(sq) + advancement_bonus(c, sq) + 10 + if !can_be_challenged(b, c, sq) {
            6int
        } else {
            0
        }
    }
}

#[verifier::spinoff_prover]
#[verifier::rlimit(60)]
fn enemy_pawn_can_challenge_square(board: &Board, color: Color, sq: Square) -> (r: bool)
    requires
        sq < 64,
    ensures
        r == can_be_challenged(*board, color, sq as int),
{
    let enemy_pawns = board.pieces[color.opposite().index()][0];
    let file = sq % 8;
    let rank = sq / 8;
    let lo: u8 = if file >= 1 { file - 1 } else { 0 };
    let hi: u8 = if file + 1 <= 7 { file + 1 } else { 7 };
    let mut cf = lo;
    while cf <= hi
        invariant
            lo <= cf <= hi + 1,
            sq < 64,
            file == sq % 8,
            rank == sq / 8,
            lo == file_lo(file as int),
            hi == file_hi(file as int),
            hi <= 7,
            enemy_pawns == board.pieces[color.spec_opposite().spec_index() as int][0],
            forall|c2: int| lo <= c2 < cf && c2 != file ==> !#[trigger] challenge_at(enemy_pawns, color, sq as int, c2),
        decreases hi + 1 - cf,
    {
        if cf != file {
            let hit = match color {
                Color::White => (rank < 6 && crate::bitboard::get_bit(enemy_pawns, (rank + 2) * 8 + cf)) || (rank == 3
                    && crate::bitboard::get_bit(enemy_pawns, 6 * 8 + cf)),
                Color::Black => (rank > 1 && crate::bitboard::get_bit(enemy_pawns, (rank - 2) * 8 + cf)) || (rank == 4
                    && crate::bitboard::get_bit(enemy_pawns, 1 * 8 + cf)),
            };
            if hit {
                proof {
                    assert(challenge_at(enemy_pawns, color, sq as int, cf as int));
                }
                return true;
            }
        }
        cf += 1;
    }
    false
}

#[verifier::spinoff_prover]
#[verifier::rlimit(60)]
fn knight_outpost_bonus(board: &Board, color: Color, sq: Square) -> (r: i32)
    requires
        sq < 64,
    ensures
        r == outpost_bonus_spec(*board, color, sq as int),
        0 <= r <= 44,
{
    let file = sq % 8;
    let rel = match color {
        Color::White => sq / 8,
        Color::Black => 7 - sq / 8,
    };
    if !(2 <= file && file <= 5 && 3 <= rel && rel <= 5) {
        return 0;
    }
    let supported = pawn_behind(board.pieces[color.index()][0], color, sq);
    let them = color.opposite();
    if !supported || pawn_behind(board.pieces[them.index()][0], them, sq) {
        return 0;
    }
    let centrality: i32 = if file == 3 || file == 4 {
        8
    } else if file == 2 || file == 5 {
        4
    } else {
        0
    };
    let advancement: i32 = if rel == 5 {
        8
    } else if rel == 4 {
        5
    } else if rel == 3 {
        2
    } else {
        0
    };
    let mut bonus = 12 + centrality + advancement;
    bonus = bonus + 10;
    if !enemy_pawn_can_challenge_square(board, color, sq) {
        bonus = bonus + 6;
    }
    bonus
}

pub open spec fn outpost_term(b: Board, c: Color) -> spec_fn(int) -> int {
    |s: int| outpost_bonus_spec(b, c, s)
}

/// Outpost bonus of the knights of colour `c`.
pub open spec fn outposts_spec(b: Board, c: Color) -> int {
    bb_sum(b.pieces[c.spec_index() as int][1], outpost_term(b, c), 64)
}

#[verifier::spinoff_prover]
#[verifier::rlimit(60)]
fn knight_outposts_for_color(board: &Board, color: Color) -> (r: i32)
    ensures
        r == outposts_spec(*board, color),
        0 <= r <= 64 * 44,
{
    let ghost f = outpost_term(*board, color);
    let knights0 = board.pieces[color.index()][1];
    let mut knights = knights0;
    let mut score: i32 = 0;
    proof {
        assert forall|s: int| 0 <= s < 64 implies 0 <= #[trigger] f(s) <= 44 by {
            assert(0 <= centrality_bonus(s) <= 8);
            assert(0 <= advancement_bonus(color, s) <= 8);
        }
        lemma_bb_sum_bounds(knights0, f, 64, 0, 44);
    }
    while knights != EMPTY
        invariant
            f == outpost_term(*board, color),
            forall|s: int| 0 <= s < 64 ==> 0 <= #[trigger] f(s) <= 44,
            score + bb_sum(knights, f, 64) == bb_sum(knights0, f, 64),
            0 <= bb_sum(knights0, f, 64) <= 64 * 44,
            0 <= bb_sum(knights, f, 64) <= 64 * 44,
        decreases knights,
    {
        let ghost r0 = knights;
        let sq = pop_lsb(&mut knights);
        proof {
            assert forall|t: int| #[trigger] has_bit(knights, t) == (has_bit(r0, t) && t != sq as int) by {
                assert(squares(knights).contains(t) == squares(r0).remove(sq as int).contains(t));
            }
            lemma_bb_sum_remove(r0, knights, f, sq as int, 64);
            lemma_bb_sum_bounds(knights, f, 64, 0, 44);
        }
        score = score + knight_outpost_bonus(board, color, sq);
    }
    proof {
        lemma_bb_sum_empty(f, 64);
    }
    score
}

// ---------------------------------------------------------------------------
// The evaluation
// ---------------------------------------------------------------------------

/// Integer division rounding toward zero, as Rust's `/` does.
pub open spec fn tdiv(x: int, d: int) -> int {
    if x >= 0 {
        x / d
    } else {
        -((-x) / d)
    }
}

/// Interpolation between a middlegame and an endgame score by the phase.
pub open spec fn taper_spec(mg: int, eg: int, phase: int) -> int {
    tdiv(mg * phase + eg * (24 - phase), 24)
}

/// A score for White turned into a score for the side to move.
pub open spec fn relative_to_move_spec(b: Board, white_minus_black: int) -> int {
    if b.side_to_move == Color::White {
        white_minus_black
    } else {
        -white_minus_black
    }
}

#[derive(Debug, Clone, Copy, PartialEq, Eq, Default)]
pub struct EvalBreakdown {
    pub material: i32,
    pub piece_square: i32,
    pub pawn_structure: i32,
    pub passed_pawns: i32,
    pub knight_outposts: i32,
    pub mobility: i32,
    pub king_safety: i32,
    pub tempo: i32,
    pub total: i32,
}

/// Middlegame score of White minus Black: material and tables, mobility,
/// pawn structure and king safety.
pub open spec fn mg_score(b: Board) -> int {
    let w = Color::White;
    let k = Color::Black;
    ((material(b, w) + pst_total(b, w, true)) + mobility_count(b, w) * 4 + (pawn_structure_spec(b, w).0.0
        + pawn_structure_spec(b, w).1.0) + king_safety_spec(b, w)) - ((material(b, k) + pst_total(b, k, true))
        + mobility_count(b, k) * 4 + (pawn_structure_spec(b, k).0.0 + pawn_structure_spec(b, k).1.0) + king_safety_spec(
        b,
        k,
    ))
}

/// Endgame score of White minus Black: material and tables, mobility and
/// pawn structure.
pub open spec fn eg_score(b: Board) -> int {
    let w = Color::White;
    let k = Color::Black;
    ((material(b, w) + pst_total(b, w, false)) + mobility_count(b, w) * 3 + (pawn_structure_spec(b, w).0.1
        + pawn_structure_spec(b, w).1.1)) - ((material(b, k) + pst_total(b, k, false)) + mobility_count(b, k) * 3 + (
    pawn_structure_spec(b, k).0.1 + pawn_structure_spec(b, k).1.1))
}

/// Knight outposts of White minus Black, for the side to move.
pub open spec fn outposts_relative(b: Board) -> int {
    relative_to_move_spec(b, outposts_spec(b, Color::White) - outposts_spec(b, Color::Black))
}

/// The evaluation of `b` for the side to move: the tapered score, the
/// knight outposts and a tempo bonus of 10.
pub open spec fn evaluation(b: Board) -> int {
    relative_to_move_spec(b, taper_spec(mg_score(b), eg_score(b), game_phase_spec(b))) + outposts_relative(b) + 10
}

/// The terms of the evaluation, each tapered and for the side to move.
#[verifier::opaque]
pub open spec fn breakdown_matches(b: Board, r: EvalBreakdown) -> bool {
    let w = Color::White;
    let k = Color::Black;
    let phase = game_phase_spec(b);
    let pw = pawn_structure_spec(b, w);
    let pk = pawn_structure_spec(b, k);
    &&& r.material == relative_to_move_spec(b, taper_spec(material(b, w) - material(b, k), material(b, w) - material(b, k), phase))
    &&& r.piece_square == relative_to_move_spec(
        b,
        taper_spec(pst_total(b, w, true) - pst_total(b, k, true), pst_total(b, w, false) - pst_total(b, k, false), phase),
    )
    &&& r.pawn_structure == relative_to_move_spec(b, taper_spec(pw.0.0 - pk.0.0, pw.0.1 - pk.0.1, phase))
    &&& r.passed_pawns == relative_to_move_spec(b, taper_spec(pw.1.0 - pk.1.0, pw.1.1 - pk.1.1, phase))
    &&& r.knight_outposts == outposts_relative(b)
    &&& r.mobility == relative_to_move_spec(
        b,
        taper_spec(mobility_count(b, w) * 4 - mobility_count(b, k) * 4, mobility_count(b, w) * 3 - mobility_count(b, k) * 3, phase),
    )
    &&& r.king_safety == relative_to_move_spec(b, king_safety_spec(b, w) - king_safety_spec(b, k))
    &&& r.tempo == 10
    &&& r.total == evaluation(b)
}

fn taper(mg: i32, eg: i32, phase: i32) -> (r: i32)
    requires
        -1_000_000 <= mg <= 1_000_000,
        -1_000_000 <= eg <= 1_000_000,
        0 <= phase <= 24,
    ensures
        r == taper_spec(mg as int, eg as int, phase as int),
        -1_000_000 <= r <= 1_000_000,
{
    assert(-24_000_000 <= mg * phase <= 24_000_000) by (nonlinear_arith)
        requires
            -1_000_000 <= mg <= 1_000_000,
            0 <= phase <= 24,
    ;
    assert(-24_000_000 <= eg * (24 - phase) <= 24_000_000) by (nonlinear_arith)
        requires
            -1_000_000 <= eg <= 1_000_000,
            0 <= phase <= 24,
    ;
    assert(-24_000_000 <= mg * phase + eg * (24 - phase) <= 24_000_000) by (nonlinear_arith)
        requires
            -1_000_000 <= mg <= 1_000_000,
            -1_000_000 <= eg <= 1_000_000,
            0 <= phase <= 24,
    ;
    let x = mg * phase + eg * (24 - phase);
    x / 24
}

fn relative_to_move(board: &Board, white_minus_black: i32) -> (r: i32)
    requires
        white_minus_black > i32::MIN,
    ensures
        r == relative_to_move_spec(*board, white_minus_black as int),
{
    if board.side_to_move == Color::White {
        white_minus_black
    } else {
        -white_minus_black
    }
}

fn knight_outposts(board: &Board) -> (r: i32)
    ensures
        r == outposts_relative(*board),
        -64 * 44 <= r <= 64 * 44,
{
    let white = knight_outposts_for_color(board, Color::White);
    let black = knight_outposts_for_color(board, Color::Black);
    relative_to_move(board, white - black)
}

fn material_and_pst(board: &Board, color: Color) -> (r: (i32, i32))
    ensures
        r.0 == material(*board, color) + pst_total(*board, color, true),
        r.1 == material(*board, color) + pst_total(*board, color, false),
{
    let (material, pst) = material_and_pst_components(board, color);
    proof {
        lemma_material_bounds(*board, color);
    }
    (material.0 + pst.0, material.1 + pst.1)
}

proof fn lemma_material_bounds(b: Board, c: Color)
    ensures
        0 <= material(b, c) <= 6 * 64 * 900,
        6 * 64 * -20 <= pst_total(b, c, true) <= 6 * 64 * 100,
        6 * 64 * -20 <= pst_total(b, c, false) <= 6 * 64 * 100,
{
    lemma_pst_bounds();
    let ci = c.spec_index() as int;
    lemma_kinds_sum_bounds(b, ci, value_term(), 6, 0, 900);
    lemma_kinds_sum_bounds(b, ci, pst_term(c, true), 6, -20, 100);
    lemma_kinds_sum_bounds(b, ci, pst_term(c, false), 6, -20, 100);
}

fn pawn_structure(board: &Board, color: Color) -> (r: (i32, i32))
    requires
        has_king(*board, Color::White),
        has_king(*board, Color::Black),
    ensures
        r.0 == pawn_structure_spec(*board, color).0.0 + pawn_structure_spec(*board, color).1.0,
        r.1 == pawn_structure_spec(*board, color).0.1 + pawn_structure_spec(*board, color).1.1,
{
    let (structure, passed) = pawn_structure_components(board, color);
    (structure.0 + passed.0, structure.1 + passed.1)
}

/// The terms of the evaluation of `board` for the side to move.
#[verifier::rlimit(60)]
pub fn breakdown(board: &Board) -> (r: EvalBreakdown)
    requires
        has_king(*board, Color::White),
        has_king(*board, Color::Black),
    ensures
        breakdown_matches(*board, r),
        r.total == evaluation(*board),
        -1_100_000 <= r.total <= 1_100_000,
{
    reveal(breakdown_matches);
    let (w_mg, w_eg) = material_and_pst(board, Color::White);
    let (b_mg, b_eg) = material_and_pst(board, Color::Black);
    let (w_material, w_pst) = material_and_pst_components(board, Color::White);
    let (b_material, b_pst) = material_and_pst_components(board, Color::Black);
    let (wm_mg, wm_eg) = mobility(board, Color::White);
    let (bm_mg, bm_eg) = mobility(board, Color::Black);
    let (wp_mg, wp_eg) = pawn_structure(board, Color::White);
    let (bp_mg, bp_eg) = pawn_structure(board, Color::Black);
    let (w_pawns, w_passed) = pawn_structure_components(board, Color::White);
    let (b_pawns, b_passed) = pawn_structure_components(board, Color::Black);
    let wk = king_safety(board, Color::White);
    let bk = king_safety(board, Color::Black);
    let outposts = knight_outposts(board);
    proof {
        lemma_material_bounds(*board, Color::White);
        lemma_material_bounds(*board, Color::Black);
    }
    let mg = (w_mg + wm_mg + wp_mg + wk) - (b_mg + bm_mg + bp_mg + bk);
    let eg = (w_eg + wm_eg + wp_eg) - (b_eg + bm_eg + bp_eg);
    let phase = game_phase(board);
    let score = taper(mg, eg, phase);
    let relative = relative_to_move(board, score);
    let material = relative_to_move(board, taper(w_material.0 - b_material.0, w_material.1 - b_material.1, phase));
    let piece_square = relative_to_move(board, taper(w_pst.0 - b_pst.0, w_pst.1 - b_pst.1, phase));
    let pawn_structure = relative_to_move(board, taper(w_pawns.0 - b_pawns.0, w_pawns.1 - b_pawns.1, phase));
    let passed_pawns = relative_to_move(board, taper(w_passed.0 - b_passed.0, w_passed.1 - b_passed.1, phase));
    let mobility = relative_to_move(board, taper(wm_mg - bm_mg, wm_eg - bm_eg, phase));
    let king_safety = relative_to_move(board, wk - bk);
    EvalBreakdown {
        material,
        piece_square,
        pawn_structure,
        passed_pawns,
        knight_outposts: outposts,
        mobility,
        king_safety,
        tempo: 10,
        total: relative + outposts + 10,
    }
}

/// The evaluation of `board`, in centipawns for the side to move.
pub fn evaluate(board: &Board) -> (v: i32)
    requires
        has_king(*board, Color::White),
        has_king(*board, Color::Black),
    ensures
        v == evaluation(*board),
        -1_100_000 <= v <= 1_100_000,
{
    breakdown(board).total
}

// ---------------------------------------------------------------------------
// Trace
// ---------------------------------------------------------------------------

/// Decimal text of an integer, with a leading '-' when negative.
pub open spec fn int_text(x: int) -> Seq<char> {
    if x < 0 {
        seq!['-'] + crate::fen::decimal_text((-x) as nat)
    } else {
        crate::fen::decimal_text(x as nat)
    }
}

/// The trace of the evaluation: one line per term, "eval <term> <value>".
pub open spec fn trace_text(b: Board, r: EvalBreakdown) -> Seq<char> {
    "eval side_to_move "@ + (if b.side_to_move == Color::White { "White"@ } else { "Black"@ }) + "\n"@
        + "eval material "@ + int_text(r.material as int) + "\n"@ + "eval piece_square "@ + int_text(
        r.piece_square as int,
    ) + "\n"@ + "eval pawn_structure "@ + int_text(r.pawn_structure as int) + "\n"@ + "eval passed_pawns "@
        + int_text(r.passed_pawns as int) + "\n"@ + "eval knight_outposts "@ + int_text(r.knight_outposts as int)
        + "\n"@ + "eval mobility "@ + int_text(r.mobility as int) + "\n"@ + "eval king_safety "@ + int_text(
        r.king_safety as int,
    ) + "\n"@ + "eval tempo "@ + int_text(r.tempo as int) + "\n"@ + "eval total "@ + int_text(r.total as int)
        + "\n"@
}

pub(crate) fn int_chars(x: i32) -> (v: Vec<char>)
    ensures
        v@ == int_text(x as int),
{
    if x < 0 {
        let m: u32 = if x == i32::MIN { 2147483648u32 } else { (-x) as u32 };
        let mut v: Vec<char> = Vec::new();
        v.push('-');
        let digits = crate::fen::u32_chars(m);
        crate::fen::push_all(&mut v, &digits);
        v
    } else {
        crate::fen::u32_chars(x as u32)
    }
}

fn push_line(v: &mut Vec<char>, label: &str, value: i32)
    ensures
        final(v)@ == old(v)@ + label@ + int_text(value as int) + "\n"@,
{
    let l = crate::fen::chars_of(label);
    crate::fen::push_all(v, &l);
    let d = int_chars(value);
    crate::fen::push_all(v, &d);
    let nl = crate::fen::chars_of("\n");
    crate::fen::push_all(v, &nl);
}

/// The evaluation of `board` term by term, one line each.
pub fn trace(board: &Board) -> (t: String)
    requires
        has_king(*board, Color::White),
        has_king(*board, Color::Black),
    ensures
        exists|r: EvalBreakdown| breakdown_matches(*board, r) && t@ == trace_text(*board, r),
{
    let r = breakdown(board);
    let mut v = crate::fen::chars_of("eval side_to_move ");
    let side = match board.side_to_move {
        Color::White => crate::fen::chars_of("White"),
        Color::Black => crate::fen::chars_of("Black"),
    };
    crate::fen::push_all(&mut v, &side);
    let nl = crate::fen::chars_of("\n");
    crate::fen::push_all(&mut v, &nl);
    push_line(&mut v, "eval material ", r.material);
    push_line(&mut v, "eval piece_square ", r.piece_square);
    push_line(&mut v, "eval pawn_structure ", r.pawn_structure);
    push_line(&mut v, "eval passed_pawns ", r.passed_pawns);
    push_line(&mut v, "eval knight_outposts ", r.knight_outposts);
    push_line(&mut v, "eval mobility ", r.mobility);
    push_line(&mut v, "eval king_safety ", r.king_safety);
    push_line(&mut v, "eval tempo ", r.tempo);
    push_line(&mut v, "eval total ", r.total);
    let t = crate::types::string_from_chars(&v);
    proof {
        assert(t@ == trace_text(*board, r));
    }
    t
}

} // verus!
