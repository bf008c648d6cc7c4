//! Move generation.
//!
//! Pseudo-legal moves are generated per piece (castling checks its own
//! conditions about attacked squares); legal moves are the pseudo-legal ones
//! that do not leave the mover's king attacked once played.

use vstd::prelude::*;
use crate::bitboard::{
    bishop_attacks_of, bishop_set, get_bit, has_bit, king_attacks_of, king_set, king_target,
    knight_attacks_of, knight_set, knight_target, lemma_squares_ops, pawn_attacks_of, pawn_set,
    pawn_target, pop_lsb, queen_attacks_of, queen_set, rook_attacks_of, rook_set, squares, Bitboard,
    EMPTY,
};
use crate::board::{
    board_after, color_occ, ep_victim, has_king, is_move_result, king_sq, lemma_occupancy, mailbox_after,
    move_consistent, occ_bb, piece_of, square_attacked, Board,
};
use crate::moves::{kind_is_capture, kind_promotion, uci_name, Move, MoveKind};
use crate::types::{color_of_index, Color, Piece, PieceType, Square};

verus! {

// ---------------------------------------------------------------------------
// What a pseudo-legal move is
// ---------------------------------------------------------------------------

pub open spec fn own_at(b: Board, s: int) -> bool {
    b.mailbox[s] is Some && b.mailbox[s]->0.color == b.side_to_move
}

pub open spec fn enemy_at(b: Board, s: int) -> bool {
    b.mailbox[s] is Some && b.mailbox[s]->0.color == b.side_to_move.spec_opposite()
}

pub open spec fn empty_at(b: Board, s: int) -> bool {
    b.mailbox[s] is None
}

/// A move onto `s` takes a piece exactly when an enemy piece stands there.
pub open spec fn target_kind(b: Board, s: int) -> MoveKind {
    if enemy_at(b, s) {
        MoveKind::Capture
    } else {
        MoveKind::Quiet
    }
}

/// `m` is a move of a piece of kind `k` (knight, bishop, rook, queen, king)
/// to a square it attacks that holds no piece of its own side.
pub open spec fn piece_move_ok(b: Board, m: Move, k: PieceType) -> bool {
    let from = m.from as int;
    let to = m.to as int;
    &&& from < 64 && to < 64
    &&& b.mailbox[from] == Some(Piece { color: b.side_to_move, kind: k })
    &&& match k {
        PieceType::Knight => knight_target(from, to),
        PieceType::Bishop => bishop_set(from, occ_bb(b)).contains(to),
        PieceType::Rook => rook_set(from, occ_bb(b)).contains(to),
        PieceType::Queen => queen_set(from, occ_bb(b)).contains(to),
        PieceType::King => king_target(from, to) && from == king_sq(b, b.side_to_move),
        PieceType::Pawn => false,
    }
    &&& !own_at(b, to)
    &&& m.kind == target_kind(b, to)
}

pub open spec fn push_delta(c: Color) -> int {
    if c == Color::White {
        8
    } else {
        -8
    }
}

pub open spec fn start_rank(c: Color) -> int {
    if c == Color::White {
        1
    } else {
        6
    }
}

pub open spec fn promo_rank(c: Color) -> int {
    if c == Color::White {
        7
    } else {
        0
    }
}

pub open spec fn is_promo_piece(p: PieceType) -> bool {
    p == PieceType::Queen || p == PieceType::Rook || p == PieceType::Bishop || p == PieceType::Knight
}

/// `m` is a pawn move: a push to an empty square (promoting on the last
/// rank), a double push from the start rank over an empty square, a capture
/// of an enemy piece on an attacked square (promoting on the last rank), or
/// an en passant capture onto the en passant square.
pub open spec fn pawn_move_ok(b: Board, m: Move) -> bool {
    let us = b.side_to_move;
    let from = m.from as int;
    let to = m.to as int;
    let d = push_delta(us);
    &&& from < 64 && to < 64
    &&& b.mailbox[from] == Some(Piece { color: us, kind: PieceType::Pawn })
    &&& match m.kind {
        MoveKind::Quiet => to == from + d && empty_at(b, to) && to / 8 != promo_rank(us),
        MoveKind::DoublePawnPush => from / 8 == start_rank(us) && empty_at(b, from + d) && to == from + 2
            * d && empty_at(b, to),
        MoveKind::Promotion(p) => to == from + d && empty_at(b, to) && to / 8 == promo_rank(us)
            && is_promo_piece(p),
        MoveKind::Capture => pawn_target(us, from, to) && enemy_at(b, to) && to / 8 != promo_rank(us),
        MoveKind::PromotionCapture(p) => pawn_target(us, from, to) && enemy_at(b, to) && to / 8
            == promo_rank(us) && is_promo_piece(p),
        MoveKind::EnPassantCapture => b.en_passant == Some(m.to) && pawn_target(us, from, to),
        _ => false,
    }
}

/// (home, f, g, d, c, b) squares of the castling side `us`.
pub open spec fn castle_path(us: Color) -> (int, int, int, int, int, int) {
    if us == Color::White {
        (4, 5, 6, 3, 2, 1)
    } else {
        (60, 61, 62, 59, 58, 57)
    }
}

pub open spec fn kingside_right(b: Board) -> bool {
    if b.side_to_move == Color::White {
        b.castling.white_kingside
    } else {
        b.castling.black_kingside
    }
}

pub open spec fn queenside_right(b: Board) -> bool {
    if b.side_to_move == Color::White {
        b.castling.white_queenside
    } else {
        b.castling.black_queenside
    }
}

/// `m` is a castling move: the right is held, the squares between king and
/// rook are empty, and the king's square and the squares it crosses and
/// lands on are not attacked.
pub open spec fn castle_move_ok(b: Board, m: Move) -> bool {
    let us = b.side_to_move;
    let them = us.spec_opposite();
    let (e, f, g, d, c, bb) = castle_path(us);
    ||| (m == Move { from: e as u8, to: g as u8, kind: MoveKind::CastleKingside } && kingside_right(b)
        && empty_at(b, f) && empty_at(b, g) && !square_attacked(b, e, them) && !square_attacked(b, f, them)
        && !square_attacked(b, g, them))
    ||| (m == Move { from: e as u8, to: c as u8, kind: MoveKind::CastleQueenside } && queenside_right(b)
        && empty_at(b, d) && empty_at(b, c) && empty_at(b, bb) && !square_attacked(b, e, them)
        && !square_attacked(b, d, them) && !square_attacked(b, c, them))
}

/// `m` is a pseudo-legal move of `b` (it may leave the mover's king attacked).
pub open spec fn pseudo_legal(b: Board, m: Move) -> bool {
    ||| pawn_move_ok(b, m)
    ||| piece_move_ok(b, m, PieceType::Knight)
    ||| piece_move_ok(b, m, PieceType::Bishop)
    ||| piece_move_ok(b, m, PieceType::Rook)
    ||| piece_move_ok(b, m, PieceType::Queen)
    ||| piece_move_ok(b, m, PieceType::King)
    ||| castle_move_ok(b, m)
}

// ---------------------------------------------------------------------------
// Generating moves of one piece
// ---------------------------------------------------------------------------

/// The move from `from` onto `to`, a capture when `enemy` has a piece there.
pub open spec fn target_move(from: Square, to: Square, enemy: Bitboard) -> Move {
    Move {
        from,
        to,
        kind: if has_bit(enemy, to as int) {
            MoveKind::Capture
        } else {
            MoveKind::Quiet
        },
    }
}

/// `m` goes from `from` onto a square of `targets` outside `left`.
pub open spec fn pushed_target(m: Move, from: Square, targets: Bitboard, left: Bitboard, enemy: Bitboard) -> bool {
    m.from == from && has_bit(targets, m.to as int) && !has_bit(left, m.to as int) && m == target_move(from, m.to, enemy)
}

proof fn lemma_seq_push_contains(s: Seq<Move>, x: Move)
    ensures
        forall|m: Move| #[trigger] s.push(x).contains(m) <==> (s.contains(m) || m == x),
{
    assert forall|m: Move| #[trigger] s.push(x).contains(m) <==> (s.contains(m) || m == x) by {
        if s.push(x).contains(m) && m != x {
            let i = choose|i: int| 0 <= i < s.push(x).len() && s.push(x)[i] == m;
            assert(s[i] == m);
        }
        if s.contains(m) {
            let i = choose|i: int| 0 <= i < s.len() && s[i] == m;
            assert(s.push(x)[i] == m);
        }
        if m == x {
            assert(s.push(x)[s.len() as int] == x);
        }
    }
}

/// Pushes, for each square of `targets`, the move from `from` to it: a
/// capture where `enemy` has a piece, a quiet move elsewhere.
fn push_moves_to(moves: &mut Vec<Move>, from: Square, targets: Bitboard, enemy: Bitboard)
    requires
        from < 64,
    ensures
        forall|m: Move|
            #[trigger] final(moves)@.contains(m) <==> (old(moves)@.contains(m) || pushed_target(m, from, targets, 0, enemy)),
        old(moves)@.no_duplicates() && (forall|m: Move| #[trigger] old(moves)@.contains(m) ==> m.from != from)
            ==> final(moves)@.no_duplicates(),
{
    let ghost old_moves = moves@;
    let mut t = targets;
    while t != EMPTY
        invariant
            from < 64,
            old_moves == old(moves)@,
            forall|m: Move|
                #[trigger] moves@.contains(m) <==> (old_moves.contains(m) || pushed_target(m, from, targets, t, enemy)),
            forall|x: int| has_bit(t, x) ==> has_bit(targets, x),
            old_moves.no_duplicates() && (forall|m: Move| #[trigger] old_moves.contains(m) ==> m.from != from)
                ==> moves@.no_duplicates(),
        decreases t,
    {
        let ghost before = moves@;
        let ghost t0 = t;
        let to = pop_lsb(&mut t);
        let kind = if get_bit(enemy, to) {
            MoveKind::Capture
        } else {
            MoveKind::Quiet
        };
        let mv = Move::new(from, to, kind);
        moves.push(mv);
        proof {
            assert forall|x: int| has_bit(t, x) == (has_bit(t0, x) && x != to as int) by {
                assert(squares(t).contains(x) == squares(t0).remove(to as int).contains(x));
            }
            lemma_seq_push_contains(before, mv);
            assert(moves@ == before.push(mv));
            assert forall|m: Move|
                #[trigger] moves@.contains(m) <==> (old_moves.contains(m) || pushed_target(m, from, targets, t, enemy)) by {
                assert(before.contains(m) <==> (old_moves.contains(m) || pushed_target(m, from, targets, t0, enemy)));
            }
            if old_moves.no_duplicates() && (forall|m: Move| #[trigger] old_moves.contains(m) ==> m.from != from) {
                assert(!before.contains(mv)) by {
                    if before.contains(mv) {
                        assert(old_moves.contains(mv) || pushed_target(mv, from, targets, t0, enemy));
                    }
                }
                assert forall|i: int, j: int| 0 <= i < moves@.len() && 0 <= j < moves@.len() && i != j implies moves@[i] != moves@[j] by {
                    if i == before.len() {
                        assert(before.contains(before[j]));
                    } else if j == before.len() {
                        assert(before.contains(before[i]));
                    }
                }
            }
        }
    }
    proof {
        lemma_squares_ops(0, 0);
        assert forall|m: Move|
            #[trigger] moves@.contains(m) <==> (old_moves.contains(m) || pushed_target(m, from, targets, 0, enemy)) by {
            assert(!squares(0u64).contains(m.to as int));
            assert(!squares(t).contains(m.to as int));
        }
    }
}

/// Squares a piece of kind `k` on `from` attacks (pawns excluded).
pub open spec fn attack_set(k: PieceType, from: int, occ: u64) -> Set<int> {
    match k {
        PieceType::Knight => knight_set(from),
        PieceType::Bishop => bishop_set(from, occ),
        PieceType::Rook => rook_set(from, occ),
        PieceType::Queen => queen_set(from, occ),
        PieceType::King => king_set(from),
        PieceType::Pawn => Set::empty(),
    }
}

/// The moves pushed for one piece are exactly its pseudo-legal moves.
proof fn lemma_piece_targets(b: Board, from: Square, k: PieceType, attacks: u64, own: u64, enemy: u64)
    requires
        b.wf(),
        from < 64,
        k != PieceType::Pawn,
        b.mailbox[from as int] == Some(Piece { color: b.side_to_move, kind: k }),
        k == PieceType::King ==> from == king_sq(b, b.side_to_move),
        squares(attacks) == attack_set(k, from as int, occ_bb(b)),
        own == color_occ(b, b.side_to_move.spec_index() as int),
        enemy == color_occ(b, b.side_to_move.spec_opposite().spec_index() as int),
    ensures
        forall|m: Move| m.from == from ==> (#[trigger] pushed_target(m, from, attacks & !own, 0, enemy) <==> piece_move_ok(b, m, k)),
{
    lemma_occupancy(b);
    lemma_squares_ops(attacks, own);
    lemma_squares_ops(0, 0);
    assert forall|m: Move| m.from == from implies (#[trigger] pushed_target(m, from, attacks & !own, 0, enemy) <==> piece_move_ok(b, m, k)) by {
        let to = m.to as int;
        assert(!squares(0u64).contains(to));
        assert(squares(attacks & !own).contains(to) == (squares(attacks).contains(to) && !squares(own).contains(to)));
        assert(has_bit(own, to) == (0 <= to < 64 && own_at(b, to)));
        assert(has_bit(enemy, to) == (0 <= to < 64 && enemy_at(b, to)));
        if pushed_target(m, from, attacks & !own, 0, enemy) {
            assert(m.kind == target_kind(b, to));
        }
        if piece_move_ok(b, m, k) {
            assert(squares(attacks).contains(to));
        }
    }
}

/// Pseudo-legal moves of the pieces of kind `k` (knight, bishop, rook or
/// queen) of the side to move.
fn generate_piece_kind_moves(board: &Board, k: PieceType, moves: &mut Vec<Move>)
    requires
        board.wf(),
        k == PieceType::Knight || k == PieceType::Bishop || k == PieceType::Rook || k == PieceType::Queen,
    ensures
        forall|m: Move| #[trigger] final(moves)@.contains(m) <==> (old(moves)@.contains(m) || piece_move_ok(*board, m, k)),
        old(moves)@.no_duplicates() && (forall|m: Move| #[trigger] old(moves)@.contains(m) ==> board.mailbox[m.from as int]
            != Some(Piece { color: board.side_to_move, kind: k })) ==> final(moves)@.no_duplicates(),
{
    let us = board.side_to_move;
    let own_occ = board.color_occupancy(us);
    let enemy_occ = board.color_occupancy(us.opposite());
    let occ = board.occupancy();
    let ghost old_moves = moves@;
    let ghost bb0 = board.pieces[us.spec_index() as int][k.spec_index() as int];
    let mut pieces_bb = board.pieces[us.index()][k.index()];
    proof {
        lemma_occupancy(*board);
    }
    while pieces_bb != EMPTY
        invariant
            board.wf(),
            k == PieceType::Knight || k == PieceType::Bishop || k == PieceType::Rook || k == PieceType::Queen,
            us == board.side_to_move,
            own_occ == color_occ(*board, us.spec_index() as int),
            enemy_occ == color_occ(*board, us.spec_opposite().spec_index() as int),
            occ == occ_bb(*board),
            old_moves == old(moves)@,
            bb0 == board.pieces[us.spec_index() as int][k.spec_index() as int],
            forall|x: int| has_bit(pieces_bb, x) ==> has_bit(bb0, x),
            forall|m: Move| #[trigger] moves@.contains(m) <==> (old_moves.contains(m) || (piece_move_ok(*board, m, k)
                && !has_bit(pieces_bb, m.from as int))),
            old_moves.no_duplicates() && (forall|m: Move| #[trigger] old_moves.contains(m) ==> board.mailbox[m.from as int]
                != Some(Piece { color: board.side_to_move, kind: k })) ==> moves@.no_duplicates() && (forall|m: Move|
                #[trigger] moves@.contains(m) ==> old_moves.contains(m) || !has_bit(pieces_bb, m.from as int)),
        decreases pieces_bb,
    {
        let ghost before = moves@;
        let ghost p0 = pieces_bb;
        let from = pop_lsb(&mut pieces_bb);
        let attacks = match k {
            PieceType::Knight => knight_attacks_of(from),
            PieceType::Bishop => bishop_attacks_of(from, occ),
            PieceType::Rook => rook_attacks_of(from, occ),
            _ => queen_attacks_of(from, occ),
        };
        proof {
            assert forall|x: int| has_bit(pieces_bb, x) == (has_bit(p0, x) && x != from as int) by {
                assert(squares(pieces_bb).contains(x) == squares(p0).remove(from as int).contains(x));
            }
            assert(has_bit(bb0, from as int));
            assert(board.mailbox[from as int] == Some(piece_of(us.spec_index() as int, k.spec_index() as int)));
            lemma_piece_targets(*board, from, k, attacks, own_occ, enemy_occ);
        }
        push_moves_to(moves, from, attacks & !own_occ, enemy_occ);
        proof {
            assert forall|m: Move| #[trigger] moves@.contains(m) <==> (old_moves.contains(m) || (piece_move_ok(*board, m, k)
                && !has_bit(pieces_bb, m.from as int))) by {
                assert(before.contains(m) <==> (old_moves.contains(m) || (piece_move_ok(*board, m, k)
                    && !has_bit(p0, m.from as int))));
                if m.from == from {
                    assert(pushed_target(m, from, attacks & !own_occ, 0, enemy_occ) <==> piece_move_ok(*board, m, k));
                }
                if piece_move_ok(*board, m, k) {
                    assert(has_bit(bb0, m.from as int));
                }
            }
            if old_moves.no_duplicates() && (forall|m: Move| #[trigger] old_moves.contains(m) ==> board.mailbox[m.from as int]
                != Some(Piece { color: board.side_to_move, kind: k })) {
                assert forall|m: Move| #[trigger] before.contains(m) implies m.from != from by {
                    if old_moves.contains(m) {
                    } else {
                        assert(!has_bit(p0, m.from as int));
                    }
                }
                assert forall|m: Move| #[trigger] moves@.contains(m) implies old_moves.contains(m) || !has_bit(pieces_bb, m.from as int) by {
                    if before.contains(m) {
                    }
                }
            }
        }
    }
    proof {
        lemma_squares_ops(0, 0);
        assert forall|m: Move| #[trigger] moves@.contains(m) <==> (old_moves.contains(m) || piece_move_ok(*board, m, k)) by {
            assert(!squares(0u64).contains(m.from as int));
            assert(!squares(pieces_bb).contains(m.from as int));
        }
    }
}

fn generate_knight_moves(board: &Board, moves: &mut Vec<Move>)
    requires
        board.wf(),
    ensures
        forall|m: Move| #[trigger] final(moves)@.contains(m) <==> (old(moves)@.contains(m) || piece_move_ok(*board, m, PieceType::Knight)),
        old(moves)@.no_duplicates() && (forall|m: Move| #[trigger] old(moves)@.contains(m) ==> board.mailbox[m.from as int]
            != Some(Piece { color: board.side_to_move, kind: PieceType::Knight })) ==> final(moves)@.no_duplicates(),
{
    generate_piece_kind_moves(board, PieceType::Knight, moves);
}

fn generate_sliding_moves(board: &Board, piece: PieceType, moves: &mut Vec<Move>)
    requires
        board.wf(),
        piece == PieceType::Bishop || piece == PieceType::Rook || piece == PieceType::Queen,
    ensures
        forall|m: Move| #[trigger] final(moves)@.contains(m) <==> (old(moves)@.contains(m) || piece_move_ok(*board, m, piece)),
        old(moves)@.no_duplicates() && (forall|m: Move| #[trigger] old(moves)@.contains(m) ==> board.mailbox[m.from as int]
            != Some(Piece { color: board.side_to_move, kind: piece })) ==> final(moves)@.no_duplicates(),
{
    generate_piece_kind_moves(board, piece, moves);
}

fn generate_king_moves(board: &Board, moves: &mut Vec<Move>)
    requires
        board.wf(),
        has_king(*board, board.side_to_move),
    ensures
        forall|m: Move| #[trigger] final(moves)@.contains(m) <==> (old(moves)@.contains(m) || piece_move_ok(*board, m, PieceType::King)),
        old(moves)@.no_duplicates() && (forall|m: Move| #[trigger] old(moves)@.contains(m) ==> board.mailbox[m.from as int]
            != Some(Piece { color: board.side_to_move, kind: PieceType::King })) ==> final(moves)@.no_duplicates(),
{
    let us = board.side_to_move;
    let own_occ = board.color_occupancy(us);
    let enemy_occ = board.color_occupancy(us.opposite());
    let from = board.king_square(us);
    let attacks = king_attacks_of(from);
    proof {
        lemma_occupancy(*board);
        assert(board.mailbox[from as int] == Some(piece_of(us.spec_index() as int, 5)));
        lemma_piece_targets(*board, from, PieceType::King, attacks, own_occ, enemy_occ);
    }
    let ghost old_moves = moves@;
    push_moves_to(moves, from, attacks & !own_occ, enemy_occ);
    proof {
        assert forall|m: Move| #[trigger] moves@.contains(m) <==> (old_moves.contains(m) || piece_move_ok(*board, m, PieceType::King)) by {
            if m.from == from {
                assert(pushed_target(m, from, attacks & !own_occ, 0, enemy_occ) <==> piece_move_ok(*board, m, PieceType::King));
            }
        }
    }
}

/// No white pawn stands on the eighth rank and no black pawn on the first.
pub open spec fn pawns_ok(b: Board) -> bool {
    forall|s: int|
        0 <= s < 64 ==> (#[trigger] b.mailbox[s] == Some(Piece { color: Color::White, kind: PieceType::Pawn })
            ==> s / 8 != 7) && (b.mailbox[s] == Some(Piece { color: Color::Black, kind: PieceType::Pawn }) ==> s / 8
            != 0)
}

/// Pushes `mv`, keeping track of the set of moves and of duplicates.
fn push_move(moves: &mut Vec<Move>, mv: Move)
    ensures
        final(moves)@ == old(moves)@.push(mv),
        forall|m: Move| #[trigger] final(moves)@.contains(m) <==> (old(moves)@.contains(m) || m == mv),
        old(moves)@.no_duplicates() && !old(moves)@.contains(mv) ==> final(moves)@.no_duplicates(),
{
    let ghost before = moves@;
    moves.push(mv);
    proof {
        lemma_seq_push_contains(before, mv);
        if before.no_duplicates() && !before.contains(mv) {
            assert forall|i: int, j: int| 0 <= i < moves@.len() && 0 <= j < moves@.len() && i != j implies moves@[i] != moves@[j] by {
                if i == before.len() {
                    assert(before.contains(before[j]));
                } else if j == before.len() {
                    assert(before.contains(before[i]));
                }
            }
        }
    }
}

/// The promotion of the pawn move from `from` to `to` (a capture or not)
/// to one of the four pieces a pawn may become.
pub open spec fn promo_move(m: Move, from: Square, to: Square, capture: bool) -> bool {
    &&& m.from == from
    &&& m.to == to
    &&& match m.kind {
        MoveKind::Promotion(p) => !capture && is_promo_piece(p),
        MoveKind::PromotionCapture(p) => capture && is_promo_piece(p),
        _ => false,
    }
}

fn promo_kind(p: PieceType, capture: bool) -> (k: MoveKind)
    ensures
        k == (if capture { MoveKind::PromotionCapture(p) } else { MoveKind::Promotion(p) }),
{
    if capture {
        MoveKind::PromotionCapture(p)
    } else {
        MoveKind::Promotion(p)
    }
}

/// Pushes the four promotions (queen, rook, bishop, knight) of the pawn move
/// from `from` to `to`.
fn push_promotions(moves: &mut Vec<Move>, from: Square, to: Square, capture: bool)
    ensures
        forall|m: Move| #[trigger] final(moves)@.contains(m) <==> (old(moves)@.contains(m) || promo_move(m, from, to, capture)),
        old(moves)@.no_duplicates() && (forall|m: Move| #[trigger] old(moves)@.contains(m) ==> !promo_move(m, from, to, capture))
            ==> final(moves)@.no_duplicates(),
{
    let ghost s0 = moves@;
    let mq = Move::new(from, to, promo_kind(PieceType::Queen, capture));
    let mr = Move::new(from, to, promo_kind(PieceType::Rook, capture));
    let mb = Move::new(from, to, promo_kind(PieceType::Bishop, capture));
    let mn = Move::new(from, to, promo_kind(PieceType::Knight, capture));
    push_move(moves, mq);
    let ghost s1 = moves@;
    push_move(moves, mr);
    let ghost s2 = moves@;
    push_move(moves, mb);
    let ghost s3 = moves@;
    push_move(moves, mn);
    proof {
        assert forall|m: Move| #[trigger] moves@.contains(m) <==> (s0.contains(m) || promo_move(m, from, to, capture)) by {
            assert(moves@.contains(m) <==> (s3.contains(m) || m == mn));
            assert(s3.contains(m) <==> (s2.contains(m) || m == mb));
            assert(s2.contains(m) <==> (s1.contains(m) || m == mr));
            assert(s1.contains(m) <==> (s0.contains(m) || m == mq));
            if promo_move(m, from, to, capture) {
                match m.kind {
                    MoveKind::Promotion(p) => {
                        assert(p == PieceType::Queen || p == PieceType::Rook || p == PieceType::Bishop || p == PieceType::Knight);
                    },
                    MoveKind::PromotionCapture(p) => {
                        assert(p == PieceType::Queen || p == PieceType::Rook || p == PieceType::Bishop || p == PieceType::Knight);
                    },
                    _ => {},
                }
            }
        }
    }
}

/// What a pawn capture of `m` onto an attacked enemy piece on `target` is:
/// a plain capture, or, on the last rank, a capturing promotion.
proof fn lemma_pawn_capture_at(b: Board, from: Square, target: Square, m: Move)
    requires
        pawn_target(b.side_to_move, from as int, target as int),
        enemy_at(b, target as int),
        b.mailbox[from as int] == Some(Piece { color: b.side_to_move, kind: PieceType::Pawn }),
        m.from == from,
        m.to == target,
    ensures
        (pawn_move_ok(b, m) && (m.kind is Capture || m.kind is PromotionCapture)) <==> (if target / 8 == promo_rank(
            b.side_to_move,
        ) {
            promo_move(m, from, target, true)
        } else {
            m.kind is Capture
        }),
{
}

/// Pseudo-legal moves of the pawn on `from`.
fn pawn_moves_from(board: &Board, from: Square, moves: &mut Vec<Move>)
    requires
        board.wf(),
        pawns_ok(*board),
        from < 64,
        board.mailbox[from as int] == Some(Piece { color: board.side_to_move, kind: PieceType::Pawn }),
    ensures
        forall|m: Move| #[trigger] final(moves)@.contains(m) <==> (old(moves)@.contains(m) || (m.from == from && pawn_move_ok(*board, m))),
        old(moves)@.no_duplicates() && (forall|m: Move| #[trigger] old(moves)@.contains(m) ==> m.from != from)
            ==> final(moves)@.no_duplicates(),
{
    let ghost old_moves = moves@;
    let ghost b = *board;
    let us = board.side_to_move;
    let them = us.opposite();
    let occ = board.occupancy();
    let enemy_occ = board.color_occupancy(them);
    let ghost fresh = old_moves.no_duplicates() && (forall|m: Move| #[trigger] old_moves.contains(m) ==> m.from != from);
    proof {
        lemma_occupancy(*board);
        assert(b.mailbox[from as int] == Some(Piece { color: us, kind: PieceType::Pawn }));
        if us == Color::White {
            assert(from / 8 != 7);
        } else {
            assert(from / 8 != 0);
        }
    }
    let is_white = us == Color::White;
    let promo_r: u8 = if is_white { 7 } else { 0 };
    let start_r: u8 = if is_white { 1 } else { 6 };
    let to: u8 = if is_white { from + 8 } else { from - 8 };
    proof {
        assert(to as int == from + push_delta(us));
        assert(promo_r as int == promo_rank(us));
        assert(start_r as int == start_rank(us));
    }

    // Pushes, promoting on the last rank.
    if !get_bit(occ, to) {
        if to / 8 == promo_r {
            push_promotions(moves, from, to, false);
        } else {
            push_move(moves, Move::new(from, to, MoveKind::Quiet));
            if from / 8 == start_r {
                let to2: u8 = if is_white { from + 16 } else { from - 16 };
                if !get_bit(occ, to2) {
                    push_move(moves, Move::new(from, to2, MoveKind::DoublePawnPush));
                }
            }
        }
    }
    let ghost after_push = moves@;
    proof {
        assert forall|m: Move| #[trigger] after_push.contains(m) <==> (old_moves.contains(m) || (m.from == from
            && pawn_move_ok(b, m) && (m.kind is Quiet || m.kind is DoublePawnPush || m.kind is Promotion))) by {
            if m.from == from && pawn_move_ok(b, m) && m.kind is DoublePawnPush {
                assert(from / 8 == start_rank(us));
            }
        }
        if fresh {
            assert(after_push.no_duplicates());
            assert(forall|m: Move| #[trigger] after_push.contains(m) ==> old_moves.contains(m) || (m.from == from
                && (m.kind is Quiet || m.kind is DoublePawnPush || m.kind is Promotion)));
        }
    }

    // Captures, promoting on the last rank.
    let attacks_all = pawn_attacks_of(us, from);
    let mut attacks = attacks_all & enemy_occ;
    proof {
        lemma_squares_ops(attacks_all, enemy_occ);
    }
    let ghost a0 = attacks;
    proof {
        assert forall|m: Move| #[trigger] moves@.contains(m) <==> (after_push.contains(m) || (m.from == from && pawn_move_ok(b, m)
            && (m.kind is Capture || m.kind is PromotionCapture) && !has_bit(attacks, m.to as int))) by {
            if m.from == from && pawn_move_ok(b, m) && (m.kind is Capture || m.kind is PromotionCapture) {
                assert(squares(attacks_all).contains(m.to as int));
                assert(squares(enemy_occ).contains(m.to as int));
                assert(squares(a0).contains(m.to as int));
            }
        }
    }
    while attacks != EMPTY
        invariant
            b == *board,
            b.wf(),
            from < 64,
            b.mailbox[from as int] == Some(Piece { color: b.side_to_move, kind: PieceType::Pawn }),
            us == b.side_to_move,
            them == us.spec_opposite(),
            promo_r as int == promo_rank(us),
            enemy_occ == color_occ(b, them.spec_index() as int),
            squares(attacks_all) == pawn_set(us, from as int),
            a0 == attacks_all & enemy_occ,
            squares(a0) == squares(attacks_all).intersect(squares(enemy_occ)),
            forall|x: int| has_bit(attacks, x) ==> has_bit(a0, x),
            forall|s: int| #[trigger] has_bit(enemy_occ, s) <==> (0 <= s < 64 && enemy_at(b, s)),
            forall|m: Move| #[trigger] moves@.contains(m) <==> (after_push.contains(m) || (m.from == from && pawn_move_ok(b, m)
                && (m.kind is Capture || m.kind is PromotionCapture) && !has_bit(attacks, m.to as int))),
            fresh ==> moves@.no_duplicates() && (forall|m: Move| #[trigger] moves@.contains(m) ==> old_moves.contains(m) || (m.from
                == from && !(m.kind is EnPassantCapture) && ((m.kind is Capture || m.kind is PromotionCapture) ==> !has_bit(attacks, m.to as int)))),
            fresh ==> forall|m: Move| #[trigger] old_moves.contains(m) ==> m.from != from,
        decreases attacks,
    {
        let ghost before = moves@;
        let ghost t0 = attacks;
        let target = pop_lsb(&mut attacks);
        proof {
            assert forall|x: int| has_bit(attacks, x) == (has_bit(t0, x) && x != target as int) by {
                assert(squares(attacks).contains(x) == squares(t0).remove(target as int).contains(x));
            }
            assert(has_bit(a0, target as int));
            assert(squares(a0).contains(target as int));
            assert(pawn_target(us, from as int, target as int));
            assert(enemy_at(b, target as int));
            if fresh {
                assert forall|m: Move| #[trigger] before.contains(m) implies !(m.from == from && m.to == target
                    && (m.kind is Capture || m.kind is PromotionCapture)) by {
                    if m.from == from && m.to == target && (m.kind is Capture || m.kind is PromotionCapture) {
                        assert(!old_moves.contains(m));
                        assert(has_bit(t0, target as int));
                    }
                }
            }
        }
        let promo = target / 8 == promo_r;
        if promo {
            push_promotions(moves, from, target, true);
        } else {
            push_move(moves, Move::new(from, target, MoveKind::Capture));
        }
        proof {
            assert forall|m: Move| #[trigger] moves@.contains(m) <==> (after_push.contains(m) || (m.from == from && pawn_move_ok(b, m)
                && (m.kind is Capture || m.kind is PromotionCapture) && !has_bit(attacks, m.to as int))) by {
                assert(before.contains(m) <==> (after_push.contains(m) || (m.from == from && pawn_move_ok(b, m)
                    && (m.kind is Capture || m.kind is PromotionCapture) && !has_bit(t0, m.to as int))));
                if promo {
                    assert(moves@.contains(m) <==> (before.contains(m) || promo_move(m, from, target, true)));
                } else {
                    assert(moves@.contains(m) <==> (before.contains(m) || m == Move { from, to: target, kind: MoveKind::Capture }));
                }
                if m.from == from && m.to == target {
                    lemma_pawn_capture_at(b, from, target, m);
                }
            }
        }
    }
    let ghost after_captures = moves@;
    proof {
        lemma_squares_ops(0, 0);
        assert forall|m: Move| #[trigger] after_captures.contains(m) <==> (old_moves.contains(m) || (m.from == from && pawn_move_ok(b, m)
            && !(m.kind is EnPassantCapture))) by {
            assert(!squares(0u64).contains(m.to as int));
            assert(!squares(attacks).contains(m.to as int));
            assert(after_captures.contains(m) <==> (after_push.contains(m) || (m.from == from && pawn_move_ok(b, m)
                && (m.kind is Capture || m.kind is PromotionCapture))));
        }
    }

    // En passant.
    let mut ep_target: Option<Square> = None;
    match board.en_passant {
        Some(ep) => {
            if get_bit(attacks_all, ep) {
                ep_target = Some(ep);
            }
        },
        None => {},
    }
    proof {
        assert forall|m: Move| m.from == from && m.kind is EnPassantCapture implies #[trigger] pawn_move_ok(b, m) <==> ep_target
            == Some(m.to) by {
            if pawn_move_ok(b, m) {
                assert(squares(attacks_all).contains(m.to as int));
            }
            if ep_target == Some(m.to) {
                assert(squares(attacks_all).contains(m.to as int));
            }
        }
    }
    match ep_target {
        Some(ep) => {
            let mv = Move::new(from, ep, MoveKind::EnPassantCapture);
            proof {
                if fresh {
                    assert(!after_captures.contains(mv));
                }
            }
            push_move(moves, mv);
            proof {
                assert forall|m: Move| #[trigger] moves@.contains(m) <==> (old_moves.contains(m) || (m.from == from && pawn_move_ok(b, m))) by {
                    assert(moves@.contains(m) <==> (after_captures.contains(m) || m == mv));
                    if m.from == from && m.kind is EnPassantCapture {
                        assert(pawn_move_ok(b, m) <==> ep_target == Some(m.to));
                    }
                }
            }
        },
        None => {
            proof {
                assert forall|m: Move| #[trigger] moves@.contains(m) <==> (old_moves.contains(m) || (m.from == from && pawn_move_ok(b, m))) by {
                    if m.from == from && m.kind is EnPassantCapture {
                        assert(pawn_move_ok(b, m) <==> ep_target == Some(m.to));
                    }
                }
            }
        },
    }
}

/// Pseudo-legal pawn moves of the side to move.
fn generate_pawn_moves(board: &Board, moves: &mut Vec<Move>)
    requires
        board.wf(),
        pawns_ok(*board),
    ensures
        forall|m: Move| #[trigger] final(moves)@.contains(m) <==> (old(moves)@.contains(m) || pawn_move_ok(*board, m)),
        old(moves)@.no_duplicates() && (forall|m: Move| #[trigger] old(moves)@.contains(m) ==> board.mailbox[m.from as int]
            != Some(Piece { color: board.side_to_move, kind: PieceType::Pawn })) ==> final(moves)@.no_duplicates(),
{
    let us = board.side_to_move;
    let ghost old_moves = moves@;
    let ghost bb0 = board.pieces[us.spec_index() as int][0];
    let mut pawns = board.pieces[us.index()][0];
    while pawns != EMPTY
        invariant
            board.wf(),
            pawns_ok(*board),
            us == board.side_to_move,
            old_moves == old(moves)@,
            bb0 == board.pieces[us.spec_index() as int][0],
            forall|x: int| has_bit(pawns, x) ==> has_bit(bb0, x),
            forall|m: Move| #[trigger] moves@.contains(m) <==> (old_moves.contains(m) || (pawn_move_ok(*board, m)
                && !has_bit(pawns, m.from as int))),
            old_moves.no_duplicates() && (forall|m: Move| #[trigger] old_moves.contains(m) ==> board.mailbox[m.from as int]
                != Some(Piece { color: board.side_to_move, kind: PieceType::Pawn })) ==> moves@.no_duplicates() && (forall|m: Move|
                #[trigger] moves@.contains(m) ==> old_moves.contains(m) || !has_bit(pawns, m.from as int)),
        decreases pawns,
    {
        let ghost before = moves@;
        let ghost p0 = pawns;
        let from = pop_lsb(&mut pawns);
        proof {
            assert forall|x: int| has_bit(pawns, x) == (has_bit(p0, x) && x != from as int) by {
                assert(squares(pawns).contains(x) == squares(p0).remove(from as int).contains(x));
            }
            assert(has_bit(bb0, from as int));
            assert(board.mailbox[from as int] == Some(piece_of(us.spec_index() as int, 0)));
            if old_moves.no_duplicates() && (forall|m: Move| #[trigger] old_moves.contains(m) ==> board.mailbox[m.from as int]
                != Some(Piece { color: board.side_to_move, kind: PieceType::Pawn })) {
                assert forall|m: Move| #[trigger] before.contains(m) implies m.from != from by {
                    if !old_moves.contains(m) {
                        assert(!has_bit(p0, m.from as int));
                    }
                }
            }
        }
        pawn_moves_from(board, from, moves);
        proof {
            assert forall|m: Move| #[trigger] moves@.contains(m) <==> (old_moves.contains(m) || (pawn_move_ok(*board, m)
                && !has_bit(pawns, m.from as int))) by {
                assert(before.contains(m) <==> (old_moves.contains(m) || (pawn_move_ok(*board, m)
                    && !has_bit(p0, m.from as int))));
                if pawn_move_ok(*board, m) {
                    assert(has_bit(bb0, m.from as int));
                }
            }
        }
    }
    proof {
        lemma_squares_ops(0, 0);
        assert forall|m: Move| #[trigger] moves@.contains(m) <==> (old_moves.contains(m) || pawn_move_ok(*board, m)) by {
            assert(!squares(0u64).contains(m.from as int));
            assert(!squares(pawns).contains(m.from as int));
        }
    }
}

/// Castling moves of the side to move.
fn generate_castling(board: &Board, moves: &mut Vec<Move>)
    requires
        board.wf(),
    ensures
        forall|m: Move| #[trigger] final(moves)@.contains(m) <==> (old(moves)@.contains(m) || castle_move_ok(*board, m)),
        old(moves)@.no_duplicates() && (forall|m: Move| #[trigger] old(moves)@.contains(m) ==> !(m.kind is CastleKingside
            || m.kind is CastleQueenside)) ==> final(moves)@.no_duplicates(),
{
    let ghost old_moves = moves@;
    let us = board.side_to_move;
    let occ = board.occupancy();
    let enemy = us.opposite();
    proof {
        lemma_occupancy(*board);
    }
    let is_white = us == Color::White;
    let (king_home, kingside_right, queenside_right, f, g, d, c, b): (u8, bool, bool, u8, u8, u8, u8, u8) = if is_white {
        (4, board.castling.white_kingside, board.castling.white_queenside, 5, 6, 3, 2, 1)
    } else {
        (60, board.castling.black_kingside, board.castling.black_queenside, 61, 62, 59, 58, 57)
    };
    proof {
        assert(castle_path(us) == (king_home as int, f as int, g as int, d as int, c as int, b as int));
        assert(kingside_right == crate::movegen::kingside_right(*board));
        assert(queenside_right == crate::movegen::queenside_right(*board));
    }
    let ks = Move::new(king_home, g, MoveKind::CastleKingside);
    let qs = Move::new(king_home, c, MoveKind::CastleQueenside);
    if kingside_right && !get_bit(occ, f) && !get_bit(occ, g) && !board.is_square_attacked(king_home, enemy)
        && !board.is_square_attacked(f, enemy) && !board.is_square_attacked(g, enemy) {
        push_move(moves, ks);
    }
    if queenside_right && !get_bit(occ, d) && !get_bit(occ, c) && !get_bit(occ, b) && !board.is_square_attacked(
        king_home,
        enemy,
    ) && !board.is_square_attacked(d, enemy) && !board.is_square_attacked(c, enemy) {
        push_move(moves, qs);
    }
    proof {
        assert forall|m: Move| #[trigger] moves@.contains(m) <==> (old_moves.contains(m) || castle_move_ok(*board, m)) by {
            if castle_move_ok(*board, m) {
                assert(m == ks || m == qs);
            }
        }
    }
}

/// All pseudo-legal moves of the side to move, each once.
pub fn generate_pseudo_legal_moves(board: &Board) -> (moves: Vec<Move>)
    requires
        board.wf(),
        pawns_ok(*board),
        has_king(*board, board.side_to_move),
    ensures
        forall|m: Move| #[trigger] moves@.contains(m) <==> pseudo_legal(*board, m),
        moves@.no_duplicates(),
{
    let mut moves: Vec<Move> = Vec::new();
    let ghost us = board.side_to_move;
    generate_pawn_moves(board, &mut moves);
    let ghost s1 = moves@;
    generate_knight_moves(board, &mut moves);
    let ghost s2 = moves@;
    generate_sliding_moves(board, PieceType::Bishop, &mut moves);
    let ghost s3 = moves@;
    generate_sliding_moves(board, PieceType::Rook, &mut moves);
    let ghost s4 = moves@;
    generate_sliding_moves(board, PieceType::Queen, &mut moves);
    let ghost s5 = moves@;
    generate_king_moves(board, &mut moves);
    let ghost s6 = moves@;
    generate_castling(board, &mut moves);
    proof {
        assert forall|m: Move| #[trigger] moves@.contains(m) <==> pseudo_legal(*board, m) by {
            assert(s1.contains(m) <==> pawn_move_ok(*board, m));
        }
    }
    moves
}

// ---------------------------------------------------------------------------
// Legal moves
// ---------------------------------------------------------------------------

/// Castling rights are held only with the king and the rook on their squares.
pub open spec fn castling_ok(b: Board) -> bool {
    let wk = Some(Piece { color: Color::White, kind: PieceType::King });
    let wr = Some(Piece { color: Color::White, kind: PieceType::Rook });
    let bk = Some(Piece { color: Color::Black, kind: PieceType::King });
    let br = Some(Piece { color: Color::Black, kind: PieceType::Rook });
    &&& b.castling.white_kingside ==> b.mailbox[4] == wk && b.mailbox[7] == wr
    &&& b.castling.white_queenside ==> b.mailbox[4] == wk && b.mailbox[0] == wr
    &&& b.castling.black_kingside ==> b.mailbox[60] == bk && b.mailbox[63] == br
    &&& b.castling.black_queenside ==> b.mailbox[60] == bk && b.mailbox[56] == br
}

/// The en passant square, if any, is the empty square an enemy pawn has
/// just skipped with a double step.
pub open spec fn en_passant_ok(b: Board) -> bool {
    match b.en_passant {
        Some(e) => {
            let us = b.side_to_move;
            &&& e as int / 8 == (if us == Color::White { 5int } else { 2int })
            &&& empty_at(b, e as int)
            &&& b.mailbox[ep_victim(us, e as int)] == Some(Piece { color: us.spec_opposite(), kind: PieceType::Pawn })
        },
        None => true,
    }
}

/// A position moves can be generated and played in: bitboards and mailbox
/// agree, no pawn stands on its last rank, the side to move has a king, and
/// the castling rights and en passant square match the pieces.
pub open spec fn position_ok(b: Board) -> bool {
    &&& b.wf()
    &&& pawns_ok(b)
    &&& has_king(b, b.side_to_move)
    &&& castling_ok(b)
    &&& en_passant_ok(b)
}

/// The move counters have room to grow by one move.
pub open spec fn counters_ok(b: Board) -> bool {
    &&& b.halfmove_clock < u32::MAX
    &&& b.side_to_move == Color::Black ==> b.fullmove_number < u32::MAX
}

/// Every pseudo-legal move of such a position can be played.
pub proof fn lemma_pseudo_legal_consistent(b: Board, m: Move)
    requires
        position_ok(b),
        counters_ok(b),
        pseudo_legal(b, m),
    ensures
        move_consistent(b, m),
{
}

/// Playing `m` does not leave the mover's king attacked.
pub open spec fn king_safe_after(b: Board, m: Move) -> bool {
    let nb = board_after(b, m);
    !square_attacked(nb, king_sq(nb, b.side_to_move), b.side_to_move.spec_opposite())
}

/// `m` is a legal move of `b`.
pub open spec fn is_legal(b: Board, m: Move) -> bool {
    pseudo_legal(b, m) && king_safe_after(b, m)
}

/// A set bit makes a bitboard non-zero.
proof fn lemma_bit_nonzero(x: u64, s: int)
    requires
        has_bit(x, s),
    ensures
        x != 0,
{
    crate::bitboard::lemma_squares_empty(x);
    assert(squares(x).contains(s));
}

/// The mover keeps its king.
pub proof fn lemma_king_stays(b: Board, m: Move, nb: Board)
    requires
        position_ok(b),
        pseudo_legal(b, m),
        is_move_result(b, m, nb),
    ensures
        has_king(nb, b.side_to_move),
{
    let us = b.side_to_move;
    let c = us.spec_index() as int;
    let kb = b.pieces[c][5];
    crate::bitboard::lemma_squares_empty(kb);
    if !(exists|s: int| squares(kb).contains(s)) {
        assert(squares(kb) =~= Set::<int>::empty());
    }
    let s = choose|s: int| squares(kb).contains(s);
    assert(has_bit(kb, s));
    assert(b.mailbox[s] == Some(piece_of(c, 5)));
    let king = Some(Piece { color: us, kind: PieceType::King });
    assert(piece_of(c, 5) == Piece { color: us, kind: PieceType::King });
    let t: int = if s == m.from as int { m.to as int } else { s };
    assert(mailbox_after(b, m)[t] == king);
    assert(nb.mailbox[t] == king);
    assert(has_bit(nb.pieces[c][5], t));
    lemma_bit_nonzero(nb.pieces[c][5], t);
}

/// All legal moves of the side to move, each once: the pseudo-legal moves
/// that do not leave its king attacked.
pub fn generate_legal_moves(board: &Board) -> (legal: Vec<Move>)
    requires
        position_ok(*board),
        counters_ok(*board),
    ensures
        forall|m: Move| #[trigger] legal@.contains(m) <==> is_legal(*board, m),
        legal@.no_duplicates(),
{
    let us = board.side_to_move;
    let pseudo = generate_pseudo_legal_moves(board);
    let mut legal: Vec<Move> = Vec::new();
    let mut i: usize = 0;
    while i < pseudo.len()
        invariant
            position_ok(*board),
            counters_ok(*board),
            us == board.side_to_move,
            i <= pseudo.len(),
            forall|m: Move| #[trigger] pseudo@.contains(m) <==> pseudo_legal(*board, m),
            pseudo@.no_duplicates(),
            forall|m: Move| #[trigger] legal@.contains(m) <==> (pseudo@.take(i as int).contains(m) && king_safe_after(*board, m)),
            legal@.no_duplicates(),
        decreases pseudo.len() - i,
    {
        let mv = pseudo[i];
        proof {
            assert(pseudo@.contains(mv)) by {
                assert(pseudo@[i as int] == mv);
            }
            lemma_pseudo_legal_consistent(*board, mv);
            assert(pseudo@.take(i as int + 1) == pseudo@.take(i as int).push(mv));
            lemma_seq_push_contains(pseudo@.take(i as int), mv);
            assert(!pseudo@.take(i as int).contains(mv)) by {
                if pseudo@.take(i as int).contains(mv) {
                    let j = choose|j: int| 0 <= j < i && pseudo@.take(i as int)[j] == mv;
                    assert(pseudo@[j] == pseudo@[i as int]);
                }
            }
        }
        let next = board.make_move(mv);
        proof {
            lemma_king_stays(*board, mv, next);
        }
        if !next.in_check(us) {
            push_move(&mut legal, mv);
        }
        i += 1;
    }
    proof {
        assert(pseudo@.take(pseudo@.len() as int) == pseudo@);
        assert forall|m: Move| #[trigger] legal@.contains(m) <==> is_legal(*board, m) by {
            assert(pseudo@.contains(m) <==> pseudo_legal(*board, m));
        }
    }
    legal
}

/// The legal move whose UCI name is `uci` ("e2e4", "e7e8q"), if there is one.
pub fn find_move(board: &Board, uci: &str) -> (r: Option<Move>)
    requires
        position_ok(*board),
        counters_ok(*board),
    ensures
        r matches Some(m) ==> is_legal(*board, m) && uci_name(m) == uci@,
        r is None <==> !(exists|m: Move| is_legal(*board, m) && #[trigger] uci_name(m) == uci@),
{
    let legal = generate_legal_moves(board);
    let target = uci.to_owned();
    let mut i: usize = 0;
    while i < legal.len()
        invariant
            i <= legal.len(),
            target@ == uci@,
            forall|m: Move| #[trigger] legal@.contains(m) <==> is_legal(*board, m),
            forall|j: int| 0 <= j < i ==> uci_name(#[trigger] legal@[j]) != uci@,
        decreases legal.len() - i,
    {
        let mv = legal[i];
        if mv.to_uci() == target {
            proof {
                assert(legal@.contains(mv)) by {
                    assert(legal@[i as int] == mv);
                }
            }
            return Some(mv);
        }
        i += 1;
    }
    proof {
        assert forall|m: Move| is_legal(*board, m) implies #[trigger] uci_name(m) != uci@ by {
            assert(legal@.contains(m));
            let j = choose|j: int| 0 <= j < legal@.len() && legal@[j] == m;
            assert(uci_name(legal@[j]) != uci@);
        }
    }
    None
}

} // verus!
