//! Bitboards (one bit per square) and attack sets of the pieces.
//!
//! Attack sets are stated geometrically: a knight target is a square two
//! files and one rank (or one file and two ranks) away, a slider reaches the
//! squares along a line up to and including the first occupied one.

use vstd::prelude::*;
use crate::types::{Color, Square};

verus! {

pub type Bitboard = u64;

pub const EMPTY: Bitboard = 0;

// ---------------------------------------------------------------------------
// The model of a bitboard: the set of squares whose bit is one.
// ---------------------------------------------------------------------------

/// Whether square `sq` is set in `bb`.
pub open spec fn has_bit(bb: u64, sq: int) -> bool {
    0 <= sq < 64 && (bb >> (sq as u64)) & 1 == 1
}

/// The squares set in `bb`.
pub open spec fn squares(bb: u64) -> Set<int> {
    Set::new(|s: int| has_bit(bb, s))
}

/// Number of one bits of `x`.
pub open spec fn popcount(x: u64) -> nat
    decreases x,
{
    if x == 0 {
        0
    } else {
        (x % 2) as nat + popcount(x / 2)
    }
}

pub proof fn lemma_bit_or(a: u64, b: u64, s: u64)
    by (bit_vector)
    requires
        s < 64,
    ensures
        ((a | b) >> s) & 1 == 1 <==> ((a >> s) & 1 == 1 || (b >> s) & 1 == 1),
{
}

pub proof fn lemma_bit_and(a: u64, b: u64, s: u64)
    by (bit_vector)
    requires
        s < 64,
    ensures
        ((a & b) >> s) & 1 == 1 <==> ((a >> s) & 1 == 1 && (b >> s) & 1 == 1),
{
}

pub proof fn lemma_bit_not(a: u64, s: u64)
    by (bit_vector)
    requires
        s < 64,
    ensures
        ((!a) >> s) & 1 == 1 <==> !((a >> s) & 1 == 1),
{
}

pub proof fn lemma_bit_xor(a: u64, b: u64, s: u64)
    by (bit_vector)
    requires
        s < 64,
    ensures
        ((a ^ b) >> s) & 1 == 1 <==> (((a >> s) & 1 == 1) != ((b >> s) & 1 == 1)),
{
}

pub proof fn lemma_bit_single(k: u64, s: u64)
    by (bit_vector)
    requires
        s < 64,
        k < 64,
    ensures
        ((1u64 << k) >> s) & 1 == 1 <==> s == k,
{
}

pub proof fn lemma_bit_zero(s: u64)
    by (bit_vector)
    ensures
        !((0u64 >> s) & 1 == 1),
{
}

/// Set view of the bitwise operations.
pub proof fn lemma_squares_ops(a: u64, b: u64)
    ensures
        squares(a | b) == squares(a).union(squares(b)),
        squares(a & b) == squares(a).intersect(squares(b)),
        squares(a & !b) == squares(a).difference(squares(b)),
        squares(0) == Set::<int>::empty(),
{
    assert forall|s: int| squares(a | b).contains(s) == squares(a).union(squares(b)).contains(s) by {
        if 0 <= s < 64 {
            lemma_bit_or(a, b, s as u64);
        }
    }
    assert forall|s: int| squares(a & b).contains(s) == squares(a).intersect(squares(b)).contains(s) by {
        if 0 <= s < 64 {
            lemma_bit_and(a, b, s as u64);
        }
    }
    assert forall|s: int| squares(a & !b).contains(s) == squares(a).difference(squares(b)).contains(s) by {
        if 0 <= s < 64 {
            lemma_bit_and(a, !b, s as u64);
            lemma_bit_not(b, s as u64);
        }
    }
    assert forall|s: int| !squares(0).contains(s) by {
        if 0 <= s < 64 {
            lemma_bit_zero(s as u64);
        }
    }
    assert(squares(a | b) =~= squares(a).union(squares(b)));
    assert(squares(a & b) =~= squares(a).intersect(squares(b)));
    assert(squares(a & !b) =~= squares(a).difference(squares(b)));
    assert(squares(0) =~= Set::<int>::empty());
}

/// The set view of `1 << k`.
pub proof fn lemma_squares_single(k: u64)
    requires
        k < 64,
    ensures
        squares(1u64 << k) == set![k as int],
{
    assert forall|s: int| squares(1u64 << k).contains(s) == set![k as int].contains(s) by {
        if 0 <= s < 64 {
            lemma_bit_single(k, s as u64);
        }
    }
    assert(squares(1u64 << k) =~= set![k as int]);
}

/// A bitboard is determined by its set of squares.
pub proof fn lemma_squares_ext(a: u64, b: u64)
    requires
        squares(a) == squares(b),
    ensures
        a == b,
{
    if a != b {
        let x = a ^ b;
        assert(x != 0) by (bit_vector)
            requires
                a != b,
                x == a ^ b,
        ;
        vstd::std_specs::bits::axiom_u64_trailing_zeros(x);
        let t = vstd::std_specs::bits::u64_trailing_zeros(x) as u64;
        assert(t < 64);
        assert((x >> t) & 1 == 1);
        lemma_bit_xor(a, b, t);
        assert(has_bit(a, t as int) == ((a >> t) & 1 == 1));
        assert(has_bit(b, t as int) == ((b >> t) & 1 == 1));
        assert(((a >> t) & 1 == 1) != ((b >> t) & 1 == 1));
        assert(has_bit(a, t as int) != has_bit(b, t as int));
        assert(squares(a).contains(t as int) == has_bit(a, t as int));
        assert(squares(b).contains(t as int) == has_bit(b, t as int));
    }
}

/// The empty set of squares is the zero bitboard.
pub proof fn lemma_squares_empty(a: u64)
    ensures
        squares(a) == Set::<int>::empty() <==> a == 0,
{
    lemma_squares_ops(a, a);
    if squares(a) == Set::<int>::empty() {
        lemma_squares_ext(a, 0);
    }
}

/// The set of squares of a bitboard is finite and within the board.
pub proof fn lemma_squares_bounded(a: u64)
    ensures
        squares(a).subset_of(Set::new(|s: int| 0 <= s < 64)),
        squares(a).finite(),
{
    let full = Set::new(|s: int| 0 <= s < 64);
    assert(full =~= vstd::set_lib::set_int_range(0, 64));
    vstd::set_lib::lemma_int_range(0, 64);
    assert(squares(a).subset_of(full));
    vstd::set_lib::lemma_len_subset(squares(a), full);
}

// ---------------------------------------------------------------------------
// Single-bit operations
// ---------------------------------------------------------------------------

pub fn set_bit(bb: Bitboard, sq: Square) -> (r: Bitboard)
    requires
        sq < 64,
    ensures
        squares(r) == squares(bb).insert(sq as int),
{
    let r = bb | (1u64 << sq);
    proof {
        lemma_squares_ops(bb, 1u64 << sq);
        lemma_squares_single(sq as u64);
        assert(squares(bb).union(set![sq as int]) =~= squares(bb).insert(sq as int));
    }
    r
}

pub fn get_bit(bb: Bitboard, sq: Square) -> (r: bool)
    requires
        sq < 64,
    ensures
        r == has_bit(bb, sq as int),
{
    (bb >> (sq as u64)) & 1 == 1
}

pub fn clear_bit(bb: Bitboard, sq: Square) -> (r: Bitboard)
    requires
        sq < 64,
    ensures
        squares(r) == squares(bb).remove(sq as int),
        r == bb & !(1u64 << sq),
{
    let r = bb & !(1u64 << sq);
    proof {
        lemma_squares_ops(bb, 1u64 << sq);
        lemma_squares_single(sq as u64);
        assert(squares(bb).difference(set![sq as int]) =~= squares(bb).remove(sq as int));
    }
    r
}

/// `sq` is the lowest square set in `bb`.
pub open spec fn is_lowest(bb: u64, sq: int) -> bool {
    has_bit(bb, sq) && forall|s: int| 0 <= s < sq ==> !has_bit(bb, s)
}

/// `sq` is the highest square set in `bb`.
pub open spec fn is_highest(bb: u64, sq: int) -> bool {
    has_bit(bb, sq) && forall|s: int| sq < s < 64 ==> !has_bit(bb, s)
}

pub proof fn lemma_trailing_zeros(bb: u64)
    requires
        bb != 0,
    ensures
        vstd::std_specs::bits::u64_trailing_zeros(bb) < 64,
        is_lowest(bb, vstd::std_specs::bits::u64_trailing_zeros(bb) as int),
{
    vstd::std_specs::bits::axiom_u64_trailing_zeros(bb);
    let t = vstd::std_specs::bits::u64_trailing_zeros(bb) as u64;
    assert forall|s: int| 0 <= s < t implies !has_bit(bb, s) by {
        assert((bb >> (s as u64)) & 1u64 == 0u64);
    }
}

proof fn lemma_leading_zeros(bb: u64)
    requires
        bb != 0,
    ensures
        0 <= vstd::std_specs::bits::u64_leading_zeros(bb) < 64,
        is_highest(bb, 63 - vstd::std_specs::bits::u64_leading_zeros(bb)),
{
    vstd::std_specs::bits::axiom_u64_leading_zeros(bb);
    let l = vstd::std_specs::bits::u64_leading_zeros(bb);
    assert forall|s: int| 63 - l < s < 64 implies !has_bit(bb, s) by {
        assert((bb >> (s as u64)) & 1u64 == 0u64);
    }
    let h = (63 - l) as u64;
    assert((bb >> h) & 1u64 != 0u64);
    assert((bb >> h) & 1u64 == 1u64) by (bit_vector)
        requires
            (bb >> h) & 1u64 != 0u64,
    ;
}

/// Clearing the lowest set bit with `bb & (bb - 1)`.
proof fn lemma_clear_lowest(bb: u64, t: u64)
    requires
        bb != 0,
        t < 64,
        (bb >> t) & 1 == 1,
        bb << ((64 - t) as u64) == 0,
    ensures
        bb & ((bb - 1) as u64) == bb & !(1u64 << t),
{
    assert(bb & ((bb - 1) as u64) == bb & !(1u64 << t)) by (bit_vector)
        requires
            bb != 0,
            t < 64,
            (bb >> t) & 1 == 1,
            bb << ((64 - t) as u64) == 0,
    ;
}

/// Removes and returns the lowest set square of `bb`.
pub fn pop_lsb(bb: &mut Bitboard) -> (sq: Square)
    requires
        *old(bb) != 0,
    ensures
        sq < 64,
        is_lowest(*old(bb), sq as int),
        squares(*final(bb)) == squares(*old(bb)).remove(sq as int),
        *final(bb) < *old(bb),
{
    let b = *bb;
    assert(b & ((b - 1) as u64) < b) by (bit_vector)
        requires
            b != 0,
    ;
    proof {
        lemma_trailing_zeros(b);
        vstd::std_specs::bits::axiom_u64_trailing_zeros(b);
        lemma_clear_lowest(b, vstd::std_specs::bits::u64_trailing_zeros(b) as u64);
    }
    let sq = b.trailing_zeros() as Square;
    *bb = b & (b - 1);
    proof {
        lemma_squares_ops(b, 1u64 << sq);
        lemma_squares_single(sq as u64);
        assert(squares(b).difference(set![sq as int]) =~= squares(b).remove(sq as int));
    }
    sq
}

/// Lowest set square of `bb` (64 when `bb` is empty).
pub fn lsb(bb: Bitboard) -> (sq: Square)
    ensures
        sq == vstd::std_specs::bits::u64_trailing_zeros(bb),
        bb == 0 <==> sq == 64,
        bb != 0 ==> sq < 64 && is_lowest(bb, sq as int),
{
    proof {
        vstd::std_specs::bits::axiom_u64_trailing_zeros(bb);
        if bb != 0 {
            lemma_trailing_zeros(bb);
        }
    }
    bb.trailing_zeros() as Square
}

/// Highest set square of a non-empty `bb`.
pub fn msb(bb: Bitboard) -> (sq: Square)
    requires
        bb != 0,
    ensures
        sq < 64,
        is_highest(bb, sq as int),
{
    proof {
        lemma_leading_zeros(bb);
    }
    let l = bb.leading_zeros();
    (63 - l) as Square
}

/// `u64::count_ones` (std): believed to give the number of one bits.
#[verifier::external_body]
fn u64_count_ones(x: u64) -> (r: u32)
    ensures
        r == popcount(x),
{
    x.count_ones()
}

/// Number of set squares.
pub fn count_bits(bb: Bitboard) -> (r: u32)
    ensures
        r == popcount(bb),
{
    u64_count_ones(bb)
}

/// The 8x8 picture of a bitboard printed by `print_bitboard`: rank 8 first,
/// one line per rank, "1" for a set square and "." for an empty one, each
/// followed by a space.
pub open spec fn board_picture(bb: u64) -> Seq<char> {
    Seq::new(
        136,
        |i: int|
            {
                let row = i / 17;
                let col = i % 17;
                if col == 16 {
                    '\n'
                } else if col % 2 == 1 {
                    ' '
                } else if has_bit(bb, (7 - row) * 8 + col / 2) {
                    '1'
                } else {
                    '.'
                }
            },
    )
}

/// Prints a bitboard as an 8x8 grid, rank 8 on top; useful for debugging.
pub fn print_bitboard(bb: Bitboard) -> (s: String)
    ensures
        s@ == board_picture(bb),
{
    let mut v: Vec<char> = Vec::new();
    let mut row: u8 = 0;
    while row < 8
        invariant
            row <= 8,
            v@.len() == 17 * row,
            forall|i: int| 0 <= i < v@.len() ==> v@[i] == #[trigger] board_picture(bb)[i],
        decreases 8 - row,
    {
        let rank: u8 = 7 - row;
        let mut file: u8 = 0;
        while file < 8
            invariant
                row < 8,
                rank == 7 - row,
                file <= 8,
                v@.len() == 17 * row + 2 * file,
                forall|i: int| 0 <= i < v@.len() ==> v@[i] == #[trigger] board_picture(bb)[i],
            decreases 8 - file,
        {
            let sq: u8 = rank * 8 + file;
            let c = if get_bit(bb, sq) { '1' } else { '.' };
            v.push(c);
            v.push(' ');
            file = file + 1;
        }
        v.push('\n');
        row = row + 1;
    }
    assert(v@ =~= board_picture(bb));
    crate::types::string_from_chars(&v)
}


// ---------------------------------------------------------------------------
// Board geometry
// ---------------------------------------------------------------------------

pub open spec fn absi(x: int) -> int {
    if x < 0 {
        -x
    } else {
        x
    }
}

/// The square `df` files and `dr` ranks away from `sq`, if it is on the board.
pub open spec fn offset_square(sq: int, df: int, dr: int) -> Option<int> {
    let f = sq % 8 + df;
    let r = sq / 8 + dr;
    if 0 <= sq < 64 && 0 <= f < 8 && 0 <= r < 8 {
        Some(r * 8 + f)
    } else {
        None
    }
}

/// A knight on `from` attacks `to`.
pub open spec fn knight_target(from: int, to: int) -> bool {
    0 <= from < 64 && 0 <= to < 64 && {
        let df = absi(to % 8 - from % 8);
        let dr = absi(to / 8 - from / 8);
        (df == 1 && dr == 2) || (df == 2 && dr == 1)
    }
}

/// A king on `from` attacks `to`.
pub open spec fn king_target(from: int, to: int) -> bool {
    0 <= from < 64 && 0 <= to < 64 && from != to && absi(to % 8 - from % 8) <= 1 && absi(
        to / 8 - from / 8,
    ) <= 1
}

/// A pawn of colour `c` on `from` attacks `to` (one rank forward, one file aside).
pub open spec fn pawn_target(c: Color, from: int, to: int) -> bool {
    0 <= from < 64 && 0 <= to < 64 && absi(to % 8 - from % 8) == 1 && to / 8 - from / 8 == (
    match c {
        Color::White => 1int,
        Color::Black => -1int,
    })
}

pub open spec fn knight_set(sq: int) -> Set<int> {
    Set::new(|t: int| knight_target(sq, t))
}

pub open spec fn king_set(sq: int) -> Set<int> {
    Set::new(|t: int| king_target(sq, t))
}

pub open spec fn pawn_set(c: Color, sq: int) -> Set<int> {
    Set::new(|t: int| pawn_target(c, sq, t))
}

/// `k` steps along a direction component `d` in -1..=1.
pub open spec fn dir_step(k: int, d: int) -> int {
    if d > 0 {
        k
    } else if d < 0 {
        -k
    } else {
        0
    }
}

/// A direction of a sliding piece: a step of at most one file and one rank.
pub open spec fn valid_dir(df: int, dr: int) -> bool {
    -1 <= df <= 1 && -1 <= dr <= 1 && (df != 0 || dr != 0)
}

/// The square `k` steps from `sq` in direction (df, dr), if on the board.
pub open spec fn ray_square(sq: int, df: int, dr: int, k: int) -> Option<int> {
    offset_square(sq, dir_step(k, df), dir_step(k, dr))
}

/// Some square strictly between `sq` and its `k`-th ray square is occupied.
pub open spec fn ray_blocked(sq: int, df: int, dr: int, occ: u64, k: int) -> bool {
    exists|j: int|
        1 <= j < k && #[trigger] ray_square(sq, df, dr, j) is Some && has_bit(
            occ,
            ray_square(sq, df, dr, j)->0,
        )
}

/// A slider on `sq` moving in direction (df, dr) reaches `t` given occupancy `occ`:
/// `t` lies on the ray and nothing stands on the ray before it.
pub open spec fn ray_hit(sq: int, df: int, dr: int, occ: u64, t: int) -> bool {
    exists|k: int| 1 <= k && #[trigger] ray_square(sq, df, dr, k) == Some(t) && !ray_blocked(sq, df, dr, occ, k)
}

pub open spec fn ray_set(sq: int, df: int, dr: int, occ: u64) -> Set<int> {
    Set::new(|t: int| ray_hit(sq, df, dr, occ, t))
}

pub open spec fn rook_set(sq: int, occ: u64) -> Set<int> {
    ray_set(sq, 0, 1, occ).union(ray_set(sq, 0, -1, occ)).union(ray_set(sq, 1, 0, occ)).union(
        ray_set(sq, -1, 0, occ),
    )
}

pub open spec fn bishop_set(sq: int, occ: u64) -> Set<int> {
    ray_set(sq, 1, 1, occ).union(ray_set(sq, -1, 1, occ)).union(ray_set(sq, 1, -1, occ)).union(
        ray_set(sq, -1, -1, occ),
    )
}

pub open spec fn queen_set(sq: int, occ: u64) -> Set<int> {
    rook_set(sq, occ).union(bishop_set(sq, occ))
}

/// Once a ray leaves the board it stays off it.
pub proof fn lemma_ray_leaves(sq: int, df: int, dr: int, k: int, k2: int)
    requires
        0 <= sq < 64,
        valid_dir(df, dr),
        1 <= k <= k2,
        ray_square(sq, df, dr, k) is None,
    ensures
        ray_square(sq, df, dr, k2) is None,
{
}

/// Distinct steps along a ray give distinct squares.
pub proof fn lemma_ray_injective(sq: int, df: int, dr: int, j: int, k: int)
    requires
        0 <= sq < 64,
        valid_dir(df, dr),
        j != k,
        ray_square(sq, df, dr, j) is Some,
        ray_square(sq, df, dr, k) is Some,
    ensures
        ray_square(sq, df, dr, j) != ray_square(sq, df, dr, k),
{
    let a = ray_square(sq, df, dr, j)->0;
    let b = ray_square(sq, df, dr, k)->0;
    assert(a % 8 == sq % 8 + dir_step(j, df));
    assert(b % 8 == sq % 8 + dir_step(k, df));
    assert(a / 8 == sq / 8 + dir_step(j, dr));
    assert(b / 8 == sq / 8 + dir_step(k, dr));
}

/// Adds to `bb` the square `df` files and `dr` ranks away from `sq`, if on the board.
fn add_step(bb: u64, sq: Square, df: i8, dr: i8) -> (r: u64)
    requires
        sq < 64,
        -2 <= df <= 2,
        -2 <= dr <= 2,
    ensures
        squares(r) == match offset_square(sq as int, df as int, dr as int) {
            Some(t) => squares(bb).insert(t),
            None => squares(bb),
        },
{
    let f: i8 = (sq % 8) as i8 + df;
    let r: i8 = (sq / 8) as i8 + dr;
    if 0 <= f && f < 8 && 0 <= r && r < 8 {
        set_bit(bb, (r * 8 + f) as u8)
    } else {
        bb
    }
}

/// Squares attacked by a knight on `sq`.
pub fn knight_attacks_of(sq: Square) -> (r: Bitboard)
    requires
        sq < 64,
    ensures
        squares(r) == knight_set(sq as int),
{
    proof {
        lemma_squares_ops(0, 0);
    }
    let mut bb: u64 = 0;
    bb = add_step(bb, sq, 1, 2);
    bb = add_step(bb, sq, 2, 1);
    bb = add_step(bb, sq, 2, -1);
    bb = add_step(bb, sq, 1, -2);
    bb = add_step(bb, sq, -1, -2);
    bb = add_step(bb, sq, -2, -1);
    bb = add_step(bb, sq, -2, 1);
    bb = add_step(bb, sq, -1, 2);
    proof {
        let s = sq as int;
        assert forall|t: int| squares(bb).contains(t) == knight_set(s).contains(t) by {
            if knight_target(s, t) {
                let df = t % 8 - s % 8;
                let dr = t / 8 - s / 8;
                assert(offset_square(s, df, dr) == Some(t));
            }
        }
        assert(squares(bb) =~= knight_set(s));
    }
    bb
}

/// Squares attacked by a king on `sq`.
pub fn king_attacks_of(sq: Square) -> (r: Bitboard)
    requires
        sq < 64,
    ensures
        squares(r) == king_set(sq as int),
{
    proof {
        lemma_squares_ops(0, 0);
    }
    let mut bb: u64 = 0;
    bb = add_step(bb, sq, 1, 0);
    bb = add_step(bb, sq, 1, 1);
    bb = add_step(bb, sq, 0, 1);
    bb = add_step(bb, sq, -1, 1);
    bb = add_step(bb, sq, -1, 0);
    bb = add_step(bb, sq, -1, -1);
    bb = add_step(bb, sq, 0, -1);
    bb = add_step(bb, sq, 1, -1);
    proof {
        let s = sq as int;
        assert forall|t: int| squares(bb).contains(t) == king_set(s).contains(t) by {
            if king_target(s, t) {
                let df = t % 8 - s % 8;
                let dr = t / 8 - s / 8;
                assert(offset_square(s, df, dr) == Some(t));
            }
        }
        assert(squares(bb) =~= king_set(s));
    }
    bb
}

/// Squares attacked by a pawn of colour `color` on `sq`.
pub fn pawn_attacks_of(color: Color, sq: Square) -> (r: Bitboard)
    requires
        sq < 64,
    ensures
        squares(r) == pawn_set(color, sq as int),
{
    proof {
        lemma_squares_ops(0, 0);
    }
    let dr: i8 = match color {
        Color::White => 1,
        Color::Black => -1,
    };
    let mut bb: u64 = 0;
    bb = add_step(bb, sq, -1, dr);
    bb = add_step(bb, sq, 1, dr);
    proof {
        let s = sq as int;
        assert forall|t: int| squares(bb).contains(t) == pawn_set(color, s).contains(t) by {
            if pawn_target(color, s, t) {
                let df = t % 8 - s % 8;
                assert(offset_square(s, df, dr as int) == Some(t));
            }
        }
        assert(squares(bb) =~= pawn_set(color, s));
    }
    bb
}

/// Squares reached by a slider on `sq` in direction (df, dr): the ray up to
/// and including the first occupied square of `occ`.
pub fn slide(sq: Square, df: i8, dr: i8, occ: Bitboard) -> (bb: Bitboard)
    requires
        sq < 64,
        valid_dir(df as int, dr as int),
    ensures
        squares(bb) == ray_set(sq as int, df as int, dr as int, occ),
{
    let ghost s = sq as int;
    let ghost d_f = df as int;
    let ghost d_r = dr as int;
    proof {
        lemma_squares_ops(0, 0);
    }
    let mut bb: u64 = 0;
    let mut f: i8 = (sq % 8) as i8 + df;
    let mut r: i8 = (sq / 8) as i8 + dr;
    let ghost mut k: int = 1;
    let mut stopped = false;
    while !stopped && 0 <= f && f < 8 && 0 <= r && r < 8
        invariant
            1 <= k <= 9,
            -1 <= f <= 8,
            -1 <= r <= 8,
            valid_dir(d_f, d_r),
            s == sq,
            d_f == df,
            d_r == dr,
            0 <= s < 64,
            !stopped ==> f == s % 8 + dir_step(k, d_f) && r == s / 8 + dir_step(k, d_r),
            !stopped ==> !ray_blocked(s, d_f, d_r, occ, k),
            stopped ==> ray_square(s, d_f, d_r, k - 1) is Some && has_bit(occ, ray_square(s, d_f, d_r, k - 1)->0)
                && !ray_blocked(s, d_f, d_r, occ, k - 1) && k >= 2,
            forall|t: int|
                squares(bb).contains(t) <==> exists|j: int|
                    1 <= j < k && #[trigger] ray_square(s, d_f, d_r, j) == Some(t),
        decreases (if stopped { 0int } else { 1int }) + (if df > 0 { 8 - f } else if df < 0 { f + 1 } else { 0 }) + (if dr > 0 { 8 - r } else if dr < 0 { r + 1 } else { 0 }),
    {
        let t = (r * 8 + f) as u8;
        let ghost old_bb = bb;
        assert(ray_square(s, d_f, d_r, k) == Some(t as int));
        bb = set_bit(bb, t);
        assert forall|u: int|
            squares(bb).contains(u) <==> exists|j: int| 1 <= j < k + 1 && #[trigger] ray_square(s, d_f, d_r, j) == Some(u) by {
            if squares(bb).contains(u) && u != t as int {
                assert(squares(old_bb).contains(u));
                let j = choose|j: int| 1 <= j < k && #[trigger] ray_square(s, d_f, d_r, j) == Some(u);
                assert(1 <= j < k + 1 && ray_square(s, d_f, d_r, j) == Some(u));
            }
            if exists|j: int| 1 <= j < k + 1 && #[trigger] ray_square(s, d_f, d_r, j) == Some(u) {
                let j = choose|j: int| 1 <= j < k + 1 && #[trigger] ray_square(s, d_f, d_r, j) == Some(u);
                if j < k {
                    assert(squares(old_bb).contains(u));
                }
            }
        }
        if get_bit(occ, t) {
            stopped = true;
        } else {
            assert(!ray_blocked(s, d_f, d_r, occ, k + 1)) by {
                if ray_blocked(s, d_f, d_r, occ, k + 1) {
                    let j = choose|j: int| 1 <= j < k + 1 && #[trigger] ray_square(s, d_f, d_r, j) is Some && has_bit(
                        occ, ray_square(s, d_f, d_r, j)->0);
                    if j < k {
                        assert(ray_blocked(s, d_f, d_r, occ, k));
                    }
                }
            }
            f = f + df;
            r = r + dr;
        }
        proof {
            k = k + 1;
        }
    }
    proof {
        assert forall|t: int| squares(bb).contains(t) == ray_set(s, d_f, d_r, occ).contains(t) by {
            if squares(bb).contains(t) {
                let j = choose|j: int| 1 <= j < k && #[trigger] ray_square(s, d_f, d_r, j) == Some(t);
                if stopped {
                    if ray_blocked(s, d_f, d_r, occ, j) {
                        let i = choose|i: int| 1 <= i < j && #[trigger] ray_square(s, d_f, d_r, i) is Some && has_bit(
                            occ, ray_square(s, d_f, d_r, i)->0);
                        assert(ray_blocked(s, d_f, d_r, occ, k - 1));
                    }
                } else {
                    if ray_blocked(s, d_f, d_r, occ, j) {
                        let i = choose|i: int| 1 <= i < j && #[trigger] ray_square(s, d_f, d_r, i) is Some && has_bit(
                            occ, ray_square(s, d_f, d_r, i)->0);
                        assert(ray_blocked(s, d_f, d_r, occ, k));
                    }
                }
                assert(ray_hit(s, d_f, d_r, occ, t));
            }
            if ray_hit(s, d_f, d_r, occ, t) {
                let j = choose|j: int| 1 <= j && #[trigger] ray_square(s, d_f, d_r, j) == Some(t) && !ray_blocked(s, d_f, d_r, occ, j);
                if j >= k {
                    if stopped {
                        assert(ray_square(s, d_f, d_r, k - 1) is Some);
                        assert(ray_blocked(s, d_f, d_r, occ, j));
                    } else {
                        assert(ray_square(s, d_f, d_r, k) is None);
                        lemma_ray_leaves(s, d_f, d_r, k, j);
                    }
                }
                assert(squares(bb).contains(t));
            }
        }
        assert(squares(bb) =~= ray_set(s, d_f, d_r, occ));
    }
    bb
}

/// The full ray from `sq` in direction (df, dr) up to the board edge.
pub fn gen_ray(sq: Square, df: i8, dr: i8) -> (bb: Bitboard)
    requires
        sq < 64,
        valid_dir(df as int, dr as int),
    ensures
        squares(bb) == ray_set(sq as int, df as int, dr as int, 0),
{
    slide(sq, df, dr, EMPTY)
}

/// Squares attacked by a rook on `sq` given occupancy `occ`.
pub fn rook_attacks_of(sq: Square, occ: Bitboard) -> (r: Bitboard)
    requires
        sq < 64,
    ensures
        squares(r) == rook_set(sq as int, occ),
{
    let a = slide(sq, 0, 1, occ);
    let b = slide(sq, 0, -1, occ);
    let c = slide(sq, 1, 0, occ);
    let d = slide(sq, -1, 0, occ);
    proof {
        lemma_squares_ops(a, b);
        lemma_squares_ops(a | b, c);
        lemma_squares_ops(a | b | c, d);
    }
    a | b | c | d
}

/// Squares attacked by a bishop on `sq` given occupancy `occ`.
pub fn bishop_attacks_of(sq: Square, occ: Bitboard) -> (r: Bitboard)
    requires
        sq < 64,
    ensures
        squares(r) == bishop_set(sq as int, occ),
{
    let a = slide(sq, 1, 1, occ);
    let b = slide(sq, -1, 1, occ);
    let c = slide(sq, 1, -1, occ);
    let d = slide(sq, -1, -1, occ);
    proof {
        lemma_squares_ops(a, b);
        lemma_squares_ops(a | b, c);
        lemma_squares_ops(a | b | c, d);
    }
    a | b | c | d
}

/// Squares attacked by a queen on `sq` given occupancy `occ`.
pub fn queen_attacks_of(sq: Square, occ: Bitboard) -> (r: Bitboard)
    requires
        sq < 64,
    ensures
        squares(r) == queen_set(sq as int, occ),
{
    let a = rook_attacks_of(sq, occ);
    let b = bishop_attacks_of(sq, occ);
    proof {
        lemma_squares_ops(a, b);
    }
    a | b
}


// ---------------------------------------------------------------------------
// Symmetry of attacks: `s` attacks `t` exactly when a piece of the same kind
// on `t` (pawns: of the other colour) attacks `s`.
// ---------------------------------------------------------------------------

pub proof fn lemma_step_symmetric(s: int, t: int)
    ensures
        knight_target(s, t) == knight_target(t, s),
        king_target(s, t) == king_target(t, s),
        pawn_target(Color::White, s, t) == pawn_target(Color::Black, t, s),
        pawn_target(Color::Black, s, t) == pawn_target(Color::White, t, s),
{
}

/// Walking back from the `k`-th square of a ray retraces the ray.
#[verifier::spinoff_prover]
#[verifier::rlimit(40)]
pub proof fn lemma_ray_reverse_square(sq: int, df: int, dr: int, k: int, j: int)
    requires
        0 <= sq < 64,
        valid_dir(df, dr),
        1 <= j <= k,
        ray_square(sq, df, dr, k) is Some,
    ensures
        ray_square(ray_square(sq, df, dr, k)->0, -df, -dr, j) == if j == k {
            Some(sq)
        } else {
            ray_square(sq, df, dr, k - j)
        },
{
    let t = ray_square(sq, df, dr, k)->0;
    assert(t % 8 == sq % 8 + dir_step(k, df));
    assert(t / 8 == sq / 8 + dir_step(k, dr));
    assert(sq == (sq / 8) * 8 + sq % 8);
}

/// Slider attacks along a line are symmetric.
pub proof fn lemma_ray_hit_reverse(sq: int, df: int, dr: int, occ: u64, t: int)
    requires
        0 <= sq < 64,
        valid_dir(df, dr),
        ray_hit(sq, df, dr, occ, t),
    ensures
        ray_hit(t, -df, -dr, occ, sq),
{
    let k = choose|k: int| 1 <= k && #[trigger] ray_square(sq, df, dr, k) == Some(t) && !ray_blocked(sq, df, dr, occ, k);
    lemma_ray_reverse_square(sq, df, dr, k, k);
    assert(ray_square(t, -df, -dr, k) == Some(sq));
    if ray_blocked(t, -df, -dr, occ, k) {
        let j = choose|j: int| 1 <= j < k && #[trigger] ray_square(t, -df, -dr, j) is Some && has_bit(occ, ray_square(t, -df, -dr, j)->0);
        lemma_ray_reverse_square(sq, df, dr, k, j);
        assert(ray_square(sq, df, dr, k - j) is Some);
        assert(ray_blocked(sq, df, dr, occ, k));
    }
}

pub proof fn lemma_rook_symmetric(s: int, t: int, occ: u64)
    requires
        0 <= s < 64,
        0 <= t < 64,
    ensures
        rook_set(s, occ).contains(t) == rook_set(t, occ).contains(s),
{
    if ray_hit(s, 0, 1, occ, t) { lemma_ray_hit_reverse(s, 0, 1, occ, t); }
    if ray_hit(s, 0, -1, occ, t) { lemma_ray_hit_reverse(s, 0, -1, occ, t); }
    if ray_hit(s, 1, 0, occ, t) { lemma_ray_hit_reverse(s, 1, 0, occ, t); }
    if ray_hit(s, -1, 0, occ, t) { lemma_ray_hit_reverse(s, -1, 0, occ, t); }
    if ray_hit(t, 0, 1, occ, s) { lemma_ray_hit_reverse(t, 0, 1, occ, s); }
    if ray_hit(t, 0, -1, occ, s) { lemma_ray_hit_reverse(t, 0, -1, occ, s); }
    if ray_hit(t, 1, 0, occ, s) { lemma_ray_hit_reverse(t, 1, 0, occ, s); }
    if ray_hit(t, -1, 0, occ, s) { lemma_ray_hit_reverse(t, -1, 0, occ, s); }
}

pub proof fn lemma_bishop_symmetric(s: int, t: int, occ: u64)
    requires
        0 <= s < 64,
        0 <= t < 64,
    ensures
        bishop_set(s, occ).contains(t) == bishop_set(t, occ).contains(s),
{
    if ray_hit(s, 1, 1, occ, t) { lemma_ray_hit_reverse(s, 1, 1, occ, t); }
    if ray_hit(s, -1, 1, occ, t) { lemma_ray_hit_reverse(s, -1, 1, occ, t); }
    if ray_hit(s, 1, -1, occ, t) { lemma_ray_hit_reverse(s, 1, -1, occ, t); }
    if ray_hit(s, -1, -1, occ, t) { lemma_ray_hit_reverse(s, -1, -1, occ, t); }
    if ray_hit(t, 1, 1, occ, s) { lemma_ray_hit_reverse(t, 1, 1, occ, s); }
    if ray_hit(t, -1, 1, occ, s) { lemma_ray_hit_reverse(t, -1, 1, occ, s); }
    if ray_hit(t, 1, -1, occ, s) { lemma_ray_hit_reverse(t, 1, -1, occ, s); }
    if ray_hit(t, -1, -1, occ, s) { lemma_ray_hit_reverse(t, -1, -1, occ, s); }
}

// ---------------------------------------------------------------------------
// Precomputed tables
// ---------------------------------------------------------------------------

/// Board index of the `k`-th square along a ray: each step adds `dr * 8 + df`.
pub proof fn lemma_ray_index(sq: int, df: int, dr: int, k: int)
    requires
        0 <= sq < 64,
        valid_dir(df, dr),
        k >= 1,
        ray_square(sq, df, dr, k) is Some,
    ensures
        ray_square(sq, df, dr, k)->0 == sq + k * (dr * 8 + df),
{
    let t = ray_square(sq, df, dr, k)->0;
    assert(sq == (sq / 8) * 8 + sq % 8);
    assert(k * (dr * 8 + df) == dir_step(k, dr) * 8 + dir_step(k, df)) by (nonlinear_arith)
        requires
            -1 <= df <= 1,
            -1 <= dr <= 1,
            dir_step(k, df) == (if df > 0 { k } else if df < 0 { -k } else { 0 }),
            dir_step(k, dr) == (if dr > 0 { k } else if dr < 0 { -k } else { 0 }),
    ;
}

/// The ray from the `k`-th square of a ray continues the ray.
pub proof fn lemma_ray_shift(sq: int, df: int, dr: int, k: int, m: int)
    requires
        0 <= sq < 64,
        valid_dir(df, dr),
        k >= 1,
        m >= 1,
        ray_square(sq, df, dr, k) is Some,
    ensures
        ray_square(ray_square(sq, df, dr, k)->0, df, dr, m) == ray_square(sq, df, dr, k + m),
{
    let b = ray_square(sq, df, dr, k)->0;
    assert(b % 8 == sq % 8 + dir_step(k, df));
    assert(b / 8 == sq / 8 + dir_step(k, dr));
}

/// A table holds, for every square, the full ray in direction (df, dr).
pub open spec fn is_ray_table(table: [Bitboard; 64], df: int, dr: int) -> bool {
    forall|s: int| 0 <= s < 64 ==> #[trigger] squares(table[s]) == ray_set(s, df, dr, 0)
}

/// Precomputed attack sets: stepping pieces per square, and the eight full
/// rays per square used by the reference ray method for sliders.
pub struct Tables {
    pub knight: [Bitboard; 64],
    pub king: [Bitboard; 64],
    pub pawn: [[Bitboard; 64]; 2],
    ray_n: [Bitboard; 64],
    ray_s: [Bitboard; 64],
    ray_e: [Bitboard; 64],
    ray_w: [Bitboard; 64],
    ray_ne: [Bitboard; 64],
    ray_nw: [Bitboard; 64],
    ray_se: [Bitboard; 64],
    ray_sw: [Bitboard; 64],
}

impl Tables {
    /// Every entry holds the attack set it stands for.
    pub closed spec fn wf(&self) -> bool {
        &&& forall|s: int| 0 <= s < 64 ==> #[trigger] squares(self.knight[s]) == knight_set(s)
        &&& forall|s: int| 0 <= s < 64 ==> #[trigger] squares(self.king[s]) == king_set(s)
        &&& forall|s: int| 0 <= s < 64 ==> #[trigger] squares(self.pawn[0][s]) == pawn_set(Color::White, s)
        &&& forall|s: int| 0 <= s < 64 ==> #[trigger] squares(self.pawn[1][s]) == pawn_set(Color::Black, s)
        &&& is_ray_table(self.ray_n, 0, 1)
        &&& is_ray_table(self.ray_s, 0, -1)
        &&& is_ray_table(self.ray_e, 1, 0)
        &&& is_ray_table(self.ray_w, -1, 0)
        &&& is_ray_table(self.ray_ne, 1, 1)
        &&& is_ray_table(self.ray_nw, -1, 1)
        &&& is_ray_table(self.ray_se, 1, -1)
        &&& is_ray_table(self.ray_sw, -1, -1)
    }

    pub fn new() -> (t: Tables)
        ensures
            t.wf(),
    {
        let mut knight = [EMPTY; 64];
        let mut king = [EMPTY; 64];
        let mut pawn_w = [EMPTY; 64];
        let mut pawn_b = [EMPTY; 64];
        let mut ray_n = [EMPTY; 64];
        let mut ray_s = [EMPTY; 64];
        let mut ray_e = [EMPTY; 64];
        let mut ray_w = [EMPTY; 64];
        let mut ray_ne = [EMPTY; 64];
        let mut ray_nw = [EMPTY; 64];
        let mut ray_se = [EMPTY; 64];
        let mut ray_sw = [EMPTY; 64];
        let mut sq: u8 = 0;
        while sq < 64
            invariant
                sq <= 64,
                forall|s: int| 0 <= s < sq ==> #[trigger] squares(knight[s]) == knight_set(s),
                forall|s: int| 0 <= s < sq ==> #[trigger] squares(king[s]) == king_set(s),
                forall|s: int| 0 <= s < sq ==> #[trigger] squares(pawn_w[s]) == pawn_set(Color::White, s),
                forall|s: int| 0 <= s < sq ==> #[trigger] squares(pawn_b[s]) == pawn_set(Color::Black, s),
                forall|s: int| 0 <= s < sq ==> #[trigger] squares(ray_n[s]) == ray_set(s, 0, 1, 0),
                forall|s: int| 0 <= s < sq ==> #[trigger] squares(ray_s[s]) == ray_set(s, 0, -1, 0),
                forall|s: int| 0 <= s < sq ==> #[trigger] squares(ray_e[s]) == ray_set(s, 1, 0, 0),
                forall|s: int| 0 <= s < sq ==> #[trigger] squares(ray_w[s]) == ray_set(s, -1, 0, 0),
                forall|s: int| 0 <= s < sq ==> #[trigger] squares(ray_ne[s]) == ray_set(s, 1, 1, 0),
                forall|s: int| 0 <= s < sq ==> #[trigger] squares(ray_nw[s]) == ray_set(s, -1, 1, 0),
                forall|s: int| 0 <= s < sq ==> #[trigger] squares(ray_se[s]) == ray_set(s, 1, -1, 0),
                forall|s: int| 0 <= s < sq ==> #[trigger] squares(ray_sw[s]) == ray_set(s, -1, -1, 0),
            decreases 64 - sq,
        {
            let i = sq as usize;
            knight[i] = knight_attacks_of(sq);
            king[i] = king_attacks_of(sq);
            pawn_w[i] = pawn_attacks_of(Color::White, sq);
            pawn_b[i] = pawn_attacks_of(Color::Black, sq);
            ray_n[i] = gen_ray(sq, 0, 1);
            ray_s[i] = gen_ray(sq, 0, -1);
            ray_e[i] = gen_ray(sq, 1, 0);
            ray_w[i] = gen_ray(sq, -1, 0);
            ray_ne[i] = gen_ray(sq, 1, 1);
            ray_nw[i] = gen_ray(sq, -1, 1);
            ray_se[i] = gen_ray(sq, 1, -1);
            ray_sw[i] = gen_ray(sq, -1, -1);
            sq = sq + 1;
        }
        Tables {
            knight,
            king,
            pawn: [pawn_w, pawn_b],
            ray_n,
            ray_s,
            ray_e,
            ray_w,
            ray_ne,
            ray_nw,
            ray_se,
            ray_sw,
        }
    }

    pub fn knight_attacks(&self, sq: Square) -> (r: Bitboard)
        requires
            self.wf(),
            sq < 64,
        ensures
            squares(r) == knight_set(sq as int),
    {
        self.knight[sq as usize]
    }

    pub fn king_attacks(&self, sq: Square) -> (r: Bitboard)
        requires
            self.wf(),
            sq < 64,
        ensures
            squares(r) == king_set(sq as int),
    {
        self.king[sq as usize]
    }

    pub fn pawn_attacks(&self, color: Color, sq: Square) -> (r: Bitboard)
        requires
            self.wf(),
            sq < 64,
        ensures
            squares(r) == pawn_set(color, sq as int),
    {
        self.pawn[color.index()][sq as usize]
    }

    /// Cuts a precomputed full ray at its first occupied square: the lowest
    /// blocker for directions in which the square index grows, the highest
    /// otherwise.
    fn slide(table: &[Bitboard; 64], sq: Square, occupancy: Bitboard, positive: bool, Ghost(df): Ghost<int>, Ghost(dr): Ghost<int>) -> (r: Bitboard)
        requires
            sq < 64,
            valid_dir(df, dr),
            is_ray_table(*table, df, dr),
            positive == (dr * 8 + df > 0),
        ensures
            squares(r) == ray_set(sq as int, df, dr, occupancy),
    {
        let ghost s = sq as int;
        let attacks = table[sq as usize];
        let blockers = attacks & occupancy;
        proof {
            lemma_squares_ops(attacks, occupancy);
            assert(squares(attacks) == ray_set(s, df, dr, 0));
        }
        if blockers == EMPTY {
            proof {
                lemma_squares_ops(0, 0);
                assert forall|t: int| squares(attacks).contains(t) == ray_set(s, df, dr, occupancy).contains(t) by {
                    if squares(attacks).contains(t) {
                        assert(ray_hit(s, df, dr, 0, t));
                        let k = choose|k: int| 1 <= k && #[trigger] ray_square(s, df, dr, k) == Some(t) && !ray_blocked(s, df, dr, 0, k);
                        if ray_blocked(s, df, dr, occupancy, k) {
                            let j = choose|j: int| 1 <= j < k && #[trigger] ray_square(s, df, dr, j) is Some && has_bit(occupancy, ray_square(s, df, dr, j)->0);
                            let b = ray_square(s, df, dr, j)->0;
                            assert(ray_hit(s, df, dr, 0, b)) by {
                                if ray_blocked(s, df, dr, 0, j) {
                                    let i = choose|i: int| 1 <= i < j && #[trigger] ray_square(s, df, dr, i) is Some && has_bit(0, ray_square(s, df, dr, i)->0);
                                    lemma_bit_zero(ray_square(s, df, dr, i)->0 as u64);
                                }
                            }
                            assert(squares(blockers).contains(b));
                        }
                    }
                    if ray_set(s, df, dr, occupancy).contains(t) {
                        let k = choose|k: int| 1 <= k && #[trigger] ray_square(s, df, dr, k) == Some(t) && !ray_blocked(s, df, dr, occupancy, k);
                        if ray_blocked(s, df, dr, 0, k) {
                            let i = choose|i: int| 1 <= i < k && #[trigger] ray_square(s, df, dr, i) is Some && has_bit(0, ray_square(s, df, dr, i)->0);
                            lemma_bit_zero(ray_square(s, df, dr, i)->0 as u64);
                        }
                        assert(ray_hit(s, df, dr, 0, t));
                    }
                }
                assert(squares(attacks) =~= ray_set(s, df, dr, occupancy));
            }
            return attacks;
        }
        let blocker_sq = if positive {
            lsb(blockers)
        } else {
            msb(blockers)
        };
        let ghost b = blocker_sq as int;
        proof {
            if squares(blockers) == Set::<int>::empty() {
                lemma_squares_empty(blockers);
            }
        }
        let result = attacks & !table[blocker_sq as usize];
        proof {
            lemma_squares_ops(attacks, table[b]);
            assert(squares(blockers).contains(b));
            assert(ray_hit(s, df, dr, 0, b));
            let kb = choose|k: int| 1 <= k && #[trigger] ray_square(s, df, dr, k) == Some(b) && !ray_blocked(s, df, dr, 0, k);
            lemma_ray_index(s, df, dr, kb);
            // No square of the ray before the blocker is occupied.
            assert(!ray_blocked(s, df, dr, occupancy, kb)) by {
                if ray_blocked(s, df, dr, occupancy, kb) {
                    let j = choose|j: int| 1 <= j < kb && #[trigger] ray_square(s, df, dr, j) is Some && has_bit(occupancy, ray_square(s, df, dr, j)->0);
                    let x = ray_square(s, df, dr, j)->0;
                    lemma_ray_index(s, df, dr, j);
                    assert(ray_hit(s, df, dr, 0, x)) by {
                        if ray_blocked(s, df, dr, 0, j) {
                            let i = choose|i: int| 1 <= i < j && #[trigger] ray_square(s, df, dr, i) is Some && has_bit(0, ray_square(s, df, dr, i)->0);
                            lemma_bit_zero(ray_square(s, df, dr, i)->0 as u64);
                        }
                    }
                    assert(squares(blockers).contains(x));
                    assert(j * (dr * 8 + df) < kb * (dr * 8 + df) <==> (dr * 8 + df > 0)) by (nonlinear_arith)
                        requires
                            j < kb,
                            dr * 8 + df != 0,
                    ;
                }
            }
            assert forall|t: int| squares(result).contains(t) == ray_set(s, df, dr, occupancy).contains(t) by {
                if squares(result).contains(t) {
                    let k = choose|k: int| 1 <= k && #[trigger] ray_square(s, df, dr, k) == Some(t) && !ray_blocked(s, df, dr, 0, k);
                    if k > kb {
                        lemma_ray_shift(s, df, dr, kb, k - kb);
                        assert(ray_square(b, df, dr, k - kb) == Some(t));
                        assert(ray_hit(b, df, dr, 0, t)) by {
                            if ray_blocked(b, df, dr, 0, k - kb) {
                                let i = choose|i: int| 1 <= i < k - kb && #[trigger] ray_square(b, df, dr, i) is Some && has_bit(0, ray_square(b, df, dr, i)->0);
                                lemma_bit_zero(ray_square(b, df, dr, i)->0 as u64);
                            }
                        }
                        assert(squares(table[b]).contains(t));
                    }
                    assert(!ray_blocked(s, df, dr, occupancy, k)) by {
                        if ray_blocked(s, df, dr, occupancy, k) {
                            let j = choose|j: int| 1 <= j < k && #[trigger] ray_square(s, df, dr, j) is Some && has_bit(occupancy, ray_square(s, df, dr, j)->0);
                            assert(ray_blocked(s, df, dr, occupancy, kb));
                        }
                    }
                }
                if ray_set(s, df, dr, occupancy).contains(t) {
                    let k = choose|k: int| 1 <= k && #[trigger] ray_square(s, df, dr, k) == Some(t) && !ray_blocked(s, df, dr, occupancy, k);
                    if k > kb {
                        assert(ray_blocked(s, df, dr, occupancy, k));
                    }
                    assert(ray_hit(s, df, dr, 0, t)) by {
                        if ray_blocked(s, df, dr, 0, k) {
                            let i = choose|i: int| 1 <= i < k && #[trigger] ray_square(s, df, dr, i) is Some && has_bit(0, ray_square(s, df, dr, i)->0);
                            lemma_bit_zero(ray_square(s, df, dr, i)->0 as u64);
                        }
                    }
                    if squares(table[b]).contains(t) {
                        let m = choose|m: int| 1 <= m && #[trigger] ray_square(b, df, dr, m) == Some(t) && !ray_blocked(b, df, dr, 0, m);
                        lemma_ray_shift(s, df, dr, kb, m);
                        if k != kb + m {
                            lemma_ray_injective(s, df, dr, k, kb + m);
                        }
                    }
                }
            }
            assert(squares(result) =~= ray_set(s, df, dr, occupancy));
        }
        result
    }

    /// Bishop attacks by the reference ray method.
    pub fn bishop_attacks_ray(&self, sq: Square, occupancy: Bitboard) -> (r: Bitboard)
        requires
            self.wf(),
            sq < 64,
        ensures
            squares(r) == bishop_set(sq as int, occupancy),
    {
        let a = Self::slide(&self.ray_ne, sq, occupancy, true, Ghost(1), Ghost(1));
        let b = Self::slide(&self.ray_nw, sq, occupancy, true, Ghost(-1), Ghost(1));
        let c = Self::slide(&self.ray_se, sq, occupancy, false, Ghost(1), Ghost(-1));
        let d = Self::slide(&self.ray_sw, sq, occupancy, false, Ghost(-1), Ghost(-1));
        proof {
            lemma_squares_ops(a, b);
            lemma_squares_ops(a | b, c);
            lemma_squares_ops(a | b | c, d);
        }
        a | b | c | d
    }

    /// Rook attacks by the reference ray method.
    pub fn rook_attacks_ray(&self, sq: Square, occupancy: Bitboard) -> (r: Bitboard)
        requires
            self.wf(),
            sq < 64,
        ensures
            squares(r) == rook_set(sq as int, occupancy),
    {
        let a = Self::slide(&self.ray_n, sq, occupancy, true, Ghost(0), Ghost(1));
        let b = Self::slide(&self.ray_s, sq, occupancy, false, Ghost(0), Ghost(-1));
        let c = Self::slide(&self.ray_e, sq, occupancy, true, Ghost(1), Ghost(0));
        let d = Self::slide(&self.ray_w, sq, occupancy, false, Ghost(-1), Ghost(0));
        proof {
            lemma_squares_ops(a, b);
            lemma_squares_ops(a | b, c);
            lemma_squares_ops(a | b | c, d);
        }
        a | b | c | d
    }

    /// Bishop attacks.
    pub fn bishop_attacks(&self, sq: Square, occupancy: Bitboard) -> (r: Bitboard)
        requires
            sq < 64,
        ensures
            squares(r) == bishop_set(sq as int, occupancy),
    {
        bishop_attacks_of(sq, occupancy)
    }

    /// Rook attacks.
    pub fn rook_attacks(&self, sq: Square, occupancy: Bitboard) -> (r: Bitboard)
        requires
            sq < 64,
        ensures
            squares(r) == rook_set(sq as int, occupancy),
    {
        rook_attacks_of(sq, occupancy)
    }

    pub fn queen_attacks(&self, sq: Square, occupancy: Bitboard) -> (r: Bitboard)
        requires
            sq < 64,
        ensures
            squares(r) == queen_set(sq as int, occupancy),
    {
        let a = self.bishop_attacks(sq, occupancy);
        let b = self.rook_attacks(sq, occupancy);
        proof {
            lemma_squares_ops(a, b);
            assert(squares(a).union(squares(b)) =~= queen_set(sq as int, occupancy));
        }
        a | b
    }
}

/// The attack tables, built fresh.
pub fn tables() -> (t: Tables)
    ensures
        t.wf(),
{
    Tables::new()
}

} // verus!
