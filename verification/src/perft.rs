//! Perft: the number of leaf positions of the tree of legal moves of a given
//! depth, the usual check of a move generator.

use vstd::prelude::*;
use crate::bitboard::{has_bit, lemma_trailing_zeros, squares};
use crate::board::{
    board_after, castling_after, ep_victim, has_king, is_move_result, king_sq, lemma_move_result_unique,
    mailbox_after, placed_kind, square_attacked, Board,
};
use crate::movegen::{
    generate_legal_moves, lemma_pseudo_legal_consistent, lemma_king_stays, castle_path, castling_ok, counters_ok, empty_at, en_passant_ok, is_legal, pawns_ok, position_ok,
    pseudo_legal, promo_rank,
};
use crate::moves::{uci_name, Move, MoveKind};
use crate::types::{Color, Piece, PieceType};

verus! {

// ---------------------------------------------------------------------------
// Positions reached by legal play
// ---------------------------------------------------------------------------

/// Each side has at most one king.
pub open spec fn kings_unique(b: Board) -> bool {
    forall|s: int, t: int|
        #![trigger b.mailbox[s], b.mailbox[t]]
        0 <= s < 64 && 0 <= t < 64 && b.mailbox[s] is Some && b.mailbox[s]->0.kind == PieceType::King
            && b.mailbox[t] == b.mailbox[s] ==> s == t
}

/// A position of a game: moves can be generated and played, each side has
/// one king, and the king of the side that has just moved is not attacked.
pub open spec fn legal_position(b: Board) -> bool {
    let us = b.side_to_move;
    let them = us.spec_opposite();
    &&& position_ok(b)
    &&& has_king(b, them)
    &&& kings_unique(b)
    &&& !square_attacked(b, king_sq(b, them), us)
}

/// With one king of colour `c`, `king_sq` is its square.
proof fn lemma_king_sq_unique(b: Board, c: Color, s: int)
    requires
        b.wf(),
        kings_unique(b),
        0 <= s < 64,
        b.mailbox[s] == Some(Piece { color: c, kind: PieceType::King }),
    ensures
        king_sq(b, c) == s,
{
    let ci = c.spec_index() as int;
    let kb = b.pieces[ci][5];
    assert(crate::board::piece_of(ci, 5) == Piece { color: c, kind: PieceType::King });
    assert(has_bit(kb, s));
    crate::bitboard::lemma_squares_empty(kb);
    assert(squares(kb).contains(s));
    lemma_trailing_zeros(kb);
    let t = king_sq(b, c);
    assert(has_bit(kb, t));
    assert(b.mailbox[t] == Some(Piece { color: c, kind: PieceType::King }));
}

/// A pseudo-legal move onto an occupied square takes a piece the mover
/// attacks.
proof fn lemma_capture_attacks(b: Board, m: Move)
    requires
        position_ok(b),
        pseudo_legal(b, m),
        b.mailbox[m.to as int] is Some,
    ensures
        square_attacked(b, m.to as int, b.side_to_move),
        b.mailbox[m.to as int]->0.color == b.side_to_move.spec_opposite(),
{
    let s = m.from as int;
    assert(b.mailbox[s] is Some && b.mailbox[s]->0.color == b.side_to_move);
}

/// No pawn reaches its last rank without promoting.
proof fn lemma_after_pawns_ok(b: Board, m: Move, nb: Board)
    requires
        position_ok(b),
        pseudo_legal(b, m),
        is_move_result(b, m, nb),
    ensures
        pawns_ok(nb),
{
    assert forall|s: int| 0 <= s < 64 implies (#[trigger] nb.mailbox[s] == Some(Piece { color: Color::White, kind: PieceType::Pawn })
        ==> s / 8 != 7) && (nb.mailbox[s] == Some(Piece { color: Color::Black, kind: PieceType::Pawn }) ==> s / 8 != 0) by {
        assert(nb.mailbox[s] == mailbox_after(b, m)[s]);
        if s == m.to as int {
            if placed_kind(b, m) == PieceType::Pawn {
                assert(b.mailbox[m.from as int] == Some(Piece { color: b.side_to_move, kind: PieceType::Pawn }));
                assert(s / 8 != promo_rank(b.side_to_move));
            }
        }
    }
}

/// A non-empty bitboard has a set square.
proof fn lemma_some_bit(x: u64) -> (s: int)
    requires
        x != 0,
    ensures
        0 <= s < 64,
        has_bit(x, s),
{
    crate::bitboard::lemma_squares_empty(x);
    if !(exists|s: int| squares(x).contains(s)) {
        assert(squares(x) =~= Set::<int>::empty());
    }
    let s = choose|s: int| squares(x).contains(s);
    assert(has_bit(x, s));
    s
}

/// Where the kings stand after a pseudo-legal move that does not take a
/// king: the enemy king stays, the mover's king moves if it is the mover.
proof fn lemma_after_kings(b: Board, m: Move, nb: Board)
    requires
        legal_position(b),
        pseudo_legal(b, m),
        is_move_result(b, m, nb),
    ensures
        has_king(nb, b.side_to_move.spec_opposite()),
        kings_unique(nb),
        forall|s: int|
            0 <= s < 64 ==> (#[trigger] nb.mailbox[s] == Some(Piece { color: b.side_to_move.spec_opposite(), kind: PieceType::King })
                <==> b.mailbox[s] == Some(Piece { color: b.side_to_move.spec_opposite(), kind: PieceType::King })),
{
    let us = b.side_to_move;
    let them = us.spec_opposite();
    let ek = Some(Piece { color: them, kind: PieceType::King });
    let ok = Some(Piece { color: us, kind: PieceType::King });
    let to = m.to as int;
    let from = m.from as int;
    let king_moves = b.mailbox[from] == ok;
    if b.mailbox[to] is Some {
        lemma_capture_attacks(b, m);
        if b.mailbox[to] == ek {
            lemma_king_sq_unique(b, them, to);
        }
    }
    assert forall|s: int| 0 <= s < 64 implies (#[trigger] nb.mailbox[s] == ek <==> b.mailbox[s] == ek) && (nb.mailbox[s] == ok
        <==> (if king_moves { s == to } else { b.mailbox[s] == ok })) by {
        assert(nb.mailbox[s] == mailbox_after(b, m)[s]);
    }
    assert forall|s: int, t: int|
        #![trigger nb.mailbox[s], nb.mailbox[t]]
        0 <= s < 64 && 0 <= t < 64 && nb.mailbox[s] is Some && nb.mailbox[s]->0.kind == PieceType::King && nb.mailbox[t]
            == nb.mailbox[s] implies s == t by {
        if nb.mailbox[s] == ek {
            assert(b.mailbox[s] == ek && b.mailbox[t] == ek);
        } else {
            assert(nb.mailbox[s] == ok);
            if !king_moves {
                assert(b.mailbox[s] == ok && b.mailbox[t] == ok);
            }
        }
    }
    let ti = them.spec_index() as int;
    assert(crate::board::piece_of(ti, 5) == Piece { color: them, kind: PieceType::King });
    let s = lemma_some_bit(b.pieces[ti][5]);
    assert(b.mailbox[s] == ek);
    assert(nb.mailbox[s] == ek);
    assert(has_bit(nb.pieces[ti][5], s));
    crate::bitboard::lemma_squares_empty(nb.pieces[ti][5]);
    assert(squares(nb.pieces[ti][5]).contains(s));
}

/// Castling rights kept after a move still match the king and rook squares.
proof fn lemma_after_castling_ok(b: Board, m: Move, nb: Board)
    requires
        legal_position(b),
        pseudo_legal(b, m),
        is_move_result(b, m, nb),
    ensures
        castling_ok(nb),
{
    lemma_after_kings(b, m, nb);
    assert(nb.mailbox[4] == mailbox_after(b, m)[4]);
    assert(nb.mailbox[7] == mailbox_after(b, m)[7]);
    assert(nb.mailbox[0] == mailbox_after(b, m)[0]);
    assert(nb.mailbox[60] == mailbox_after(b, m)[60]);
    assert(nb.mailbox[63] == mailbox_after(b, m)[63]);
    assert(nb.mailbox[56] == mailbox_after(b, m)[56]);
}

/// The en passant square after a move is the one a double step skipped.
proof fn lemma_after_en_passant_ok(b: Board, m: Move, nb: Board)
    requires
        position_ok(b),
        pseudo_legal(b, m),
        is_move_result(b, m, nb),
    ensures
        en_passant_ok(nb),
{
    if m.kind is DoublePawnPush {
        let e = nb.en_passant->0 as int;
        assert(nb.mailbox[e] == mailbox_after(b, m)[e]);
        assert(nb.mailbox[ep_victim(nb.side_to_move, e)] == mailbox_after(b, m)[ep_victim(nb.side_to_move, e)]);
    }
}

/// A legal move played in a position of a game gives a position of a game:
/// moves can again be generated and played, each side still has one king,
/// and the king of the side that has just moved is not attacked.
pub proof fn lemma_legal_move_keeps_legal_position(b: Board, m: Move, nb: Board)
    requires
        legal_position(b),
        is_legal(b, m),
        is_move_result(b, m, nb),
    ensures
        legal_position(nb),
{
    lemma_move_result_unique(b, m, nb, board_after(b, m));
    lemma_after_pawns_ok(b, m, nb);
    lemma_after_kings(b, m, nb);
    lemma_after_castling_ok(b, m, nb);
    lemma_after_en_passant_ok(b, m, nb);
    lemma_king_stays(b, m, nb);
}

// ---------------------------------------------------------------------------
// Counting leaves
// ---------------------------------------------------------------------------

/// The legal moves of `b`, each once, in some fixed order.
pub open spec fn legal_moves_seq(b: Board) -> Seq<Move> {
    choose|s: Seq<Move>| s.no_duplicates() && (forall|m: Move| #[trigger] s.contains(m) <==> is_legal(b, m))
}

/// Number of leaves of the tree of legal moves of depth `depth` from `b`.
pub open spec fn perft_count(b: Board, depth: nat) -> nat
    decreases depth, 0nat,
{
    if depth == 0 {
        1
    } else {
        perft_sum(b, legal_moves_seq(b), (depth - 1) as nat)
    }
}

/// Sum of `perft_count` of depth `depth` over the boards after the moves of `s`.
pub open spec fn perft_sum(b: Board, s: Seq<Move>, depth: nat) -> nat
    decreases depth, s.len(),
{
    if s.len() == 0 {
        0
    } else {
        perft_sum(b, s.drop_last(), depth) + perft_count(board_after(b, s.last()), depth)
    }
}

/// The term `perft_sum` adds for the move `m`.
pub open spec fn perft_term(b: Board, depth: nat) -> spec_fn(int, Move) -> int {
    |acc: int, m: Move| acc + perft_count(board_after(b, m), depth)
}

proof fn lemma_perft_sum_fold(b: Board, s: Seq<Move>, depth: nat)
    ensures
        perft_sum(b, s, depth) == s.fold_left(0int, perft_term(b, depth)),
    decreases s.len(),
{
    if s.len() > 0 {
        lemma_perft_sum_fold(b, s.drop_last(), depth);
    }
}

/// Two lists of the same moves, each without repetition, are permutations
/// of each other.
proof fn lemma_same_moves_multiset(s1: Seq<Move>, s2: Seq<Move>)
    requires
        s1.no_duplicates(),
        s2.no_duplicates(),
        forall|m: Move| #[trigger] s1.contains(m) <==> s2.contains(m),
    ensures
        s1.to_multiset() == s2.to_multiset(),
        s1.len() == s2.len(),
{
    s1.lemma_multiset_has_no_duplicates();
    s2.lemma_multiset_has_no_duplicates();
    s1.to_multiset_ensures();
    s2.to_multiset_ensures();
    assert forall|m: Move| s1.to_multiset().count(m) == s2.to_multiset().count(m) by {
        assert(s1.contains(m) <==> s1.to_multiset().count(m) > 0);
        assert(s2.contains(m) <==> s2.to_multiset().count(m) > 0);
        if s1.contains(m) {
            assert(s1.to_multiset().contains(m));
            assert(s2.to_multiset().contains(m));
        }
    }
    assert(s1.to_multiset() =~= s2.to_multiset());
}

/// `perft_sum` does not depend on the order of the moves.
proof fn lemma_perft_sum_permutation(b: Board, s1: Seq<Move>, s2: Seq<Move>, depth: nat)
    requires
        s1.no_duplicates(),
        s2.no_duplicates(),
        forall|m: Move| #[trigger] s1.contains(m) <==> s2.contains(m),
    ensures
        perft_sum(b, s1, depth) == perft_sum(b, s2, depth),
{
    lemma_same_moves_multiset(s1, s2);
    lemma_perft_sum_fold(b, s1, depth);
    lemma_perft_sum_fold(b, s2, depth);
    let f = perft_term(b, depth);
    assert(vstd::seq_lib::commutative_foldl(f));
    vstd::seq_lib::lemma_fold_left_permutation(s1, s2, f, 0int);
}

/// Given the legal moves of `b` as a list without repetition, `perft_count`
/// sums over that list.
proof fn lemma_perft_count_over(b: Board, s: Seq<Move>, depth: nat)
    requires
        depth > 0,
        s.no_duplicates(),
        forall|m: Move| #[trigger] s.contains(m) <==> is_legal(b, m),
    ensures
        perft_count(b, depth) == perft_sum(b, s, (depth - 1) as nat),
        legal_moves_seq(b).no_duplicates(),
        forall|m: Move| #[trigger] legal_moves_seq(b).contains(m) <==> is_legal(b, m),
{
    let l = legal_moves_seq(b);
    assert(l.no_duplicates() && (forall|m: Move| #[trigger] l.contains(m) <==> is_legal(b, m)));
    lemma_perft_sum_permutation(b, s, l, (depth - 1) as nat);
}

/// A prefix adds up to no more than the whole list.
proof fn lemma_perft_sum_prefix(b: Board, s: Seq<Move>, i: int, depth: nat)
    requires
        0 <= i <= s.len(),
    ensures
        perft_sum(b, s.take(i), depth) <= perft_sum(b, s, depth),
    decreases s.len(),
{
    if i < s.len() {
        assert(s.drop_last().take(i) == s.take(i));
        lemma_perft_sum_prefix(b, s.drop_last(), i, depth);
    } else {
        assert(s.take(i) == s);
    }
}

/// With depth one there is one leaf per legal move.
proof fn lemma_perft_sum_leaves(b: Board, s: Seq<Move>)
    ensures
        perft_sum(b, s, 0) == s.len(),
    decreases s.len(),
{
    if s.len() > 0 {
        lemma_perft_sum_leaves(b, s.drop_last());
        assert(perft_count(board_after(b, s.last()), 0) == 1);
    }
}

/// Number of leaves of the tree of legal moves of depth `depth` from `board`
/// (1 at depth 0, the number of legal moves at depth 1).
pub fn perft(board: &Board, depth: u32) -> (nodes: u64)
    requires
        legal_position(*board),
        board.halfmove_clock + depth <= u32::MAX,
        board.fullmove_number + depth <= u32::MAX,
        perft_count(*board, depth as nat) <= u64::MAX,
    ensures
        nodes == perft_count(*board, depth as nat),
    decreases depth,
{
    if depth == 0 {
        return 1;
    }
    let moves = generate_legal_moves(board);
    proof {
        lemma_perft_count_over(*board, moves@, depth as nat);
    }
    if depth == 1 {
        proof {
            lemma_perft_sum_leaves(*board, moves@);
        }
        return moves.len() as u64;
    }
    let ghost d1 = (depth - 1) as nat;
    let mut nodes: u64 = 0;
    let mut i: usize = 0;
    while i < moves.len()
        invariant
            legal_position(*board),
            board.halfmove_clock + depth <= u32::MAX,
            board.fullmove_number + depth <= u32::MAX,
            depth >= 2,
            d1 == depth - 1,
            i <= moves.len(),
            forall|m: Move| #[trigger] moves@.contains(m) <==> is_legal(*board, m),
            perft_sum(*board, moves@, d1) <= u64::MAX,
            nodes == perft_sum(*board, moves@.take(i as int), d1),
        decreases moves.len() - i,
    {
        let mv = moves[i];
        proof {
            assert(moves@.contains(mv)) by {
                assert(moves@[i as int] == mv);
            }
            lemma_pseudo_legal_consistent(*board, mv);
            assert(moves@.take(i as int + 1).drop_last() == moves@.take(i as int));
            assert(moves@.take(i as int + 1).last() == mv);
            lemma_perft_sum_prefix(*board, moves@, i as int + 1, d1);
        }
        let next = board.make_move(mv);
        proof {
            lemma_legal_move_keeps_legal_position(*board, mv, next);
        }
        let n = perft(&next, depth - 1);
        nodes = nodes + n;
        i += 1;
    }
    proof {
        assert(moves@.take(moves@.len() as int) == moves@);
    }
    nodes
}

/// At depth one, perft counts the legal moves.
pub proof fn lemma_perft_one(b: Board, s: Seq<Move>)
    requires
        s.no_duplicates(),
        forall|m: Move| #[trigger] s.contains(m) <==> is_legal(b, m),
    ensures
        perft_count(b, 1) == s.len(),
{
    lemma_perft_count_over(b, s, 1);
    lemma_perft_sum_leaves(b, s);
}

/// What `perft_divide` reports for the root move `m`.
pub open spec fn divide_count(b: Board, m: Move, depth: nat) -> nat {
    if depth == 0 {
        1
    } else {
        perft_count(board_after(b, m), (depth - 1) as nat)
    }
}

/// `r` lists, for the legal moves `ms` of `b` (each once), the UCI name of
/// the move and the count below it.
pub open spec fn divide_entries(b: Board, depth: nat, ms: Seq<Move>, r: Seq<(String, u64)>) -> bool {
    &&& ms.no_duplicates()
    &&& forall|m: Move| #[trigger] ms.contains(m) <==> is_legal(b, m)
    &&& r.len() == ms.len()
    &&& forall|i: int| 0 <= i < r.len() ==> (#[trigger] r[i]).0@ == uci_name(ms[i]) && r[i].1 == divide_count(b, ms[i], depth)
}

/// Sum of the counts of a divide report.
pub open spec fn divide_total(r: Seq<(String, u64)>) -> nat
    decreases r.len(),
{
    if r.len() == 0 {
        0
    } else {
        divide_total(r.drop_last()) + r.last().1 as nat
    }
}

proof fn lemma_divide_prefix(b: Board, depth: nat, ms: Seq<Move>, r: Seq<(String, u64)>, n: int)
    requires
        depth > 0,
        divide_entries(b, depth, ms, r),
        0 <= n <= r.len(),
    ensures
        divide_total(r.take(n)) == perft_sum(b, ms.take(n), (depth - 1) as nat),
    decreases n,
{
    if n > 0 {
        lemma_divide_prefix(b, depth, ms, r, n - 1);
        assert(r.take(n).drop_last() == r.take(n - 1));
        assert(ms.take(n).drop_last() == ms.take(n - 1));
        assert(r.take(n).last() == r[n - 1]);
        assert(ms.take(n).last() == ms[n - 1]);
    }
}

/// The counts `perft_divide` reports per root move add up to perft.
pub proof fn lemma_divide_adds_up(b: Board, depth: nat, ms: Seq<Move>, r: Seq<(String, u64)>)
    requires
        depth > 0,
        divide_entries(b, depth, ms, r),
    ensures
        divide_total(r) == perft_count(b, depth),
{
    lemma_divide_prefix(b, depth, ms, r, r.len() as int);
    assert(r.take(r.len() as int) == r);
    assert(ms.take(ms.len() as int) == ms);
    lemma_perft_count_over(b, ms, depth);
}

/// For each legal move of `board`, its UCI name and the number of leaves
/// of depth `depth` below it (1 at depth 0).
pub fn perft_divide(board: &Board, depth: u32) -> (r: Vec<(String, u64)>)
    requires
        legal_position(*board),
        board.halfmove_clock < u32::MAX,
        board.halfmove_clock + depth <= u32::MAX,
        board.fullmove_number < u32::MAX,
        board.fullmove_number + depth <= u32::MAX,
        perft_count(*board, depth as nat) <= u64::MAX,
    ensures
        exists|ms: Seq<Move>| divide_entries(*board, depth as nat, ms, r@),
{
    let moves = generate_legal_moves(board);
    let mut r: Vec<(String, u64)> = Vec::new();
    let mut i: usize = 0;
    proof {
        if depth > 0 {
            lemma_perft_count_over(*board, moves@, depth as nat);
        }
    }
    while i < moves.len()
        invariant
            legal_position(*board),
            board.halfmove_clock < u32::MAX,
            board.halfmove_clock + depth <= u32::MAX,
            board.fullmove_number < u32::MAX,
            board.fullmove_number + depth <= u32::MAX,
            i <= moves.len(),
            moves@.no_duplicates(),
            forall|m: Move| #[trigger] moves@.contains(m) <==> is_legal(*board, m),
            depth > 0 ==> perft_sum(*board, moves@, (depth - 1) as nat) <= u64::MAX,
            r@.len() == i,
            forall|j: int| 0 <= j < i ==> (#[trigger] r@[j]).0@ == uci_name(moves@[j]) && r@[j].1 == divide_count(*board, moves@[j], depth as nat),
        decreases moves.len() - i,
    {
        let mv = moves[i];
        proof {
            assert(moves@.contains(mv)) by {
                assert(moves@[i as int] == mv);
            }
            lemma_pseudo_legal_consistent(*board, mv);
        }
        let next = board.make_move(mv);
        let count: u64 = if depth == 0 {
            1
        } else {
            proof {
                lemma_legal_move_keeps_legal_position(*board, mv, next);
                let d1 = (depth - 1) as nat;
                lemma_perft_sum_prefix(*board, moves@, i as int + 1, d1);
                assert(moves@.take(i as int + 1).drop_last() == moves@.take(i as int));
                assert(moves@.take(i as int + 1).last() == mv);
            }
            perft(&next, depth - 1)
        };
        let name = mv.to_uci();
        r.push((name, count));
        i += 1;
    }
    proof {
        assert(divide_entries(*board, depth as nat, moves@, r@));
    }
    r
}

// ---------------------------------------------------------------------------
// Checking a position
// ---------------------------------------------------------------------------

/// Whether the bitboards and the mailbox describe the same placement and
/// the en passant square is on the board.
pub fn check_wf(b: &Board) -> (r: bool)
    ensures
        r == b.wf(),
{
    match b.en_passant {
        Some(e) => {
            if e >= 64 {
                return false;
            }
        },
        None => {},
    }
    let mut c: usize = 0;
    while c < 2
        invariant
            c <= 2,
            forall|ci: int, k: int, s: int|
                0 <= ci < c && 0 <= k < 6 && 0 <= s < 64 ==> (#[trigger] has_bit(b.pieces[ci][k], s) <==> b.mailbox[s]
                    == Some(crate::board::piece_of(ci, k))),
        decreases 2 - c,
    {
        let mut k: usize = 0;
        while k < 6
            invariant
                c < 2,
                k <= 6,
                forall|ci: int, kk: int, s: int|
                    0 <= ci < c && 0 <= kk < 6 && 0 <= s < 64 ==> (#[trigger] has_bit(b.pieces[ci][kk], s) <==> b.mailbox[s]
                        == Some(crate::board::piece_of(ci, kk))),
                forall|kk: int, s: int|
                    0 <= kk < k && 0 <= s < 64 ==> (#[trigger] has_bit(b.pieces[c as int][kk], s) <==> b.mailbox[s]
                        == Some(crate::board::piece_of(c as int, kk))),
            decreases 6 - k,
        {
            let piece = crate::types::Piece { color: if c == 0 { Color::White } else { Color::Black }, kind: crate::types::kind_from_index(k) };
            proof {
                assert(piece == crate::board::piece_of(c as int, k as int));
            }
            let mut s: u8 = 0;
            while s < 64
                invariant
                    c < 2,
                    k < 6,
                    s <= 64,
                    piece == crate::board::piece_of(c as int, k as int),
                    forall|t: int| 0 <= t < s ==> (#[trigger] has_bit(b.pieces[c as int][k as int], t) <==> b.mailbox[t] == Some(piece)),
                decreases 64 - s,
            {
                let here = match b.mailbox[s as usize] {
                    Some(p) => p == piece,
                    None => false,
                };
                if crate::bitboard::get_bit(b.pieces[c][k], s) != here {
                    return false;
                }
                s += 1;
            }
            k += 1;
        }
        c += 1;
    }
    true
}

/// Whether some square other than `s` holds the same king as `s`.
fn king_elsewhere(b: &Board, s: usize) -> (r: bool)
    requires
        s < 64,
    ensures
        r == exists|t: int| 0 <= t < 64 && t != s && #[trigger] b.mailbox[t] == b.mailbox[s as int],
{
    let mut t: usize = 0;
    while t < 64
        invariant
            s < 64,
            t <= 64,
            forall|u: int| 0 <= u < t && u != s ==> #[trigger] b.mailbox[u] != b.mailbox[s as int],
        decreases 64 - t,
    {
        if t != s {
            let same = match (b.mailbox[t], b.mailbox[s]) {
                (Some(x), Some(y)) => x == y,
                (None, None) => true,
                _ => false,
            };
            if same {
                return true;
            }
        }
        t += 1;
    }
    false
}

/// Whether each side has at most one king.
pub fn check_kings_unique(b: &Board) -> (r: bool)
    ensures
        r == kings_unique(*b),
{
    let mut s: usize = 0;
    while s < 64
        invariant
            s <= 64,
            forall|a: int, t: int|
                #![trigger b.mailbox[a], b.mailbox[t]]
                0 <= a < s && 0 <= t < 64 && b.mailbox[a] is Some && b.mailbox[a]->0.kind == PieceType::King
                    && b.mailbox[t] == b.mailbox[a] ==> a == t,
        decreases 64 - s,
    {
        let is_king = match b.mailbox[s] {
            Some(p) => p.kind == PieceType::King,
            None => false,
        };
        if is_king && king_elsewhere(b, s) {
            return false;
        }
        s += 1;
    }
    true
}

/// Whether no pawn stands on its last rank.
pub fn check_pawns_ok(b: &Board) -> (r: bool)
    ensures
        r == pawns_ok(*b),
{
    let mut s: usize = 0;
    while s < 64
        invariant
            s <= 64,
            forall|t: int|
                0 <= t < s ==> (#[trigger] b.mailbox[t] == Some(Piece { color: Color::White, kind: PieceType::Pawn })
                    ==> t / 8 != 7) && (b.mailbox[t] == Some(Piece { color: Color::Black, kind: PieceType::Pawn }) ==> t / 8
                    != 0),
        decreases 64 - s,
    {
        match b.mailbox[s] {
            Some(p) => {
                if p.kind == PieceType::Pawn {
                    if p.color == Color::White && s / 8 == 7 {
                        return false;
                    }
                    if p.color == Color::Black && s / 8 == 0 {
                        return false;
                    }
                }
            },
            None => {},
        }
        s += 1;
    }
    true
}

fn holds(b: &Board, s: usize, color: Color, kind: PieceType) -> (r: bool)
    requires
        s < 64,
    ensures
        r == (b.mailbox[s as int] == Some(Piece { color, kind })),
{
    match b.mailbox[s] {
        Some(p) => p.color == color && p.kind == kind,
        None => false,
    }
}

/// Whether the castling rights match the king and rook squares.
pub fn check_castling_ok(b: &Board) -> (r: bool)
    ensures
        r == castling_ok(*b),
{
    let w = Color::White;
    let k = Color::Black;
    (!b.castling.white_kingside || (holds(b, 4, w, PieceType::King) && holds(b, 7, w, PieceType::Rook)))
        && (!b.castling.white_queenside || (holds(b, 4, w, PieceType::King) && holds(b, 0, w, PieceType::Rook)))
        && (!b.castling.black_kingside || (holds(b, 60, k, PieceType::King) && holds(b, 63, k, PieceType::Rook)))
        && (!b.castling.black_queenside || (holds(b, 60, k, PieceType::King) && holds(b, 56, k, PieceType::Rook)))
}

/// Whether the en passant square, if any, is one an enemy pawn has just
/// skipped.
pub fn check_en_passant_ok(b: &Board) -> (r: bool)
    requires
        b.en_passant matches Some(e) ==> e < 64,
    ensures
        r == en_passant_ok(*b),
{
    match b.en_passant {
        Some(e) => {
            let us = b.side_to_move;
            let rank_ok = if us == Color::White { e / 8 == 5 } else { e / 8 == 2 };
            if !rank_ok {
                return false;
            }
            let empty = b.mailbox[e as usize].is_none();
            let victim: usize = if us == Color::White { (e - 8) as usize } else { (e + 8) as usize };
            empty && holds(b, victim, us.opposite(), PieceType::Pawn)
        },
        None => true,
    }
}

/// Whether `b` is a position of a game (see `legal_position`).
pub fn check_legal_position(b: &Board) -> (r: bool)
    ensures
        r == legal_position(*b),
{
    if !check_wf(b) || !check_pawns_ok(b) || !check_castling_ok(b) || !check_en_passant_ok(b) || !check_kings_unique(b) {
        return false;
    }
    let us = b.side_to_move;
    let them = us.opposite();
    if b.pieces[us.index()][5] == 0 || b.pieces[them.index()][5] == 0 {
        return false;
    }
    !b.is_square_attacked(b.king_square(them), us)
}

/// Whether moves can be generated and played on `b`: a well-formed board
/// with consistent pawns, castling rights and en passant square, a king
/// for the side to move, and room in its move counters.
pub fn check_playable(b: &Board) -> (r: bool)
    ensures
        r == (position_ok(*b) && counters_ok(*b)),
{
    if !check_wf(b) || !check_pawns_ok(b) || !check_castling_ok(b) || !check_en_passant_ok(b) {
        return false;
    }
    let us = b.side_to_move;
    if b.pieces[us.index()][5] == 0 {
        return false;
    }
    b.halfmove_clock < u32::MAX && (us == Color::White || b.fullmove_number < u32::MAX)
}

} // verus!
