//! Board state and move application.
//!
//! `make_move` does not modify the board: it returns a new board with the
//! move applied ("copy-make"). The board keeps a Zobrist hash, updated
//! incrementally by xoring only what a move changes.

use vstd::prelude::*;
use crate::bitboard::{
    bishop_attacks_of, bishop_set, clear_bit, has_bit, king_attacks_of, king_set, king_target,
    knight_attacks_of, knight_set, knight_target, lemma_bishop_symmetric, lemma_rook_symmetric,
    lemma_squares_ops, lemma_step_symmetric, pawn_attacks_of, pawn_set, pawn_target, queen_set,
    rook_attacks_of, rook_set, set_bit, squares, Bitboard, EMPTY,
};
use crate::moves::{kind_is_capture, kind_promotion, Move, MoveKind};
use crate::types::{color_of_index, kind_of_index, Color, Piece, PieceType, Square, A1, A8, C1, C8, D1, D8, E1, E8, F1, F8, G1, G8, H1, H8};
use crate::zobrist::{
    castling_key, castling_key_of, en_passant_key, en_passant_key_of, piece_key, piece_square_key,
    SIDE_TO_MOVE_KEY,
};

verus! {

#[derive(Clone, Copy, Debug, PartialEq, Eq, Structural)]
pub struct CastlingRights {
    pub white_kingside: bool,
    pub white_queenside: bool,
    pub black_kingside: bool,
    pub black_queenside: bool,
}

impl CastlingRights {
    /// No castling right.
    pub fn none() -> (c: CastlingRights)
        ensures
            !c.white_kingside && !c.white_queenside && !c.black_kingside && !c.black_queenside,
    {
        CastlingRights {
            white_kingside: false,
            white_queenside: false,
            black_kingside: false,
            black_queenside: false,
        }
    }
}

impl Default for CastlingRights {
    fn default() -> (c: CastlingRights)
        ensures
            !c.white_kingside && !c.white_queenside && !c.black_kingside && !c.black_queenside,
    {
        CastlingRights::none()
    }
}

#[derive(Clone, Copy, Debug)]
pub struct Board {
    /// pieces[colour][kind]: the squares holding that piece.
    pub pieces: [[Bitboard; 6]; 2],
    /// The piece on each square (kept in step with `pieces`).
    pub mailbox: [Option<Piece>; 64],
    pub side_to_move: Color,
    pub castling: CastlingRights,
    pub en_passant: Option<Square>,
    pub halfmove_clock: u32,
    pub fullmove_number: u32,
    /// Zobrist hash of the position, kept up to date incrementally.
    pub hash: u64,
}

/// The piece with colour index `c` and kind index `k`.
pub open spec fn piece_of(c: int, k: int) -> Piece {
    Piece { color: color_of_index(c), kind: kind_of_index(k) }
}

/// Union of the six bitboards of colour index `c`.
pub open spec fn color_occ(b: Board, c: int) -> u64 {
    b.pieces[c][0] | b.pieces[c][1] | b.pieces[c][2] | b.pieces[c][3] | b.pieces[c][4]
        | b.pieces[c][5]
}

/// All occupied squares.
pub open spec fn occ_bb(b: Board) -> u64 {
    color_occ(b, 0) | color_occ(b, 1)
}

/// The piece on `s` of colour `by` attacks `t`, given occupancy `occ`.
pub open spec fn piece_attacks(p: Piece, s: int, occ: u64, t: int) -> bool {
    match p.kind {
        PieceType::Pawn => pawn_target(p.color, s, t),
        PieceType::Knight => knight_target(s, t),
        PieceType::Bishop => bishop_set(s, occ).contains(t),
        PieceType::Rook => rook_set(s, occ).contains(t),
        PieceType::Queen => queen_set(s, occ).contains(t),
        PieceType::King => king_target(s, t),
    }
}

/// Some piece of colour `by` attacks square `sq`.
pub open spec fn square_attacked(b: Board, sq: int, by: Color) -> bool {
    exists|s: int|
        0 <= s < 64 && #[trigger] b.mailbox[s] is Some && b.mailbox[s]->0.color == by
            && piece_attacks(b.mailbox[s]->0, s, occ_bb(b), sq)
}

/// The square `king_square` reports for colour `c`: its lowest king square.
pub open spec fn king_sq(b: Board, c: Color) -> int {
    vstd::std_specs::bits::u64_trailing_zeros(b.pieces[c.spec_index() as int][5]) as int
}

pub open spec fn has_king(b: Board, c: Color) -> bool {
    b.pieces[c.spec_index() as int][5] != 0
}

impl Board {
    /// The bitboards and the mailbox describe the same placement, and the
    /// en passant square is on the board.
    pub open spec fn wf(&self) -> bool {
        &&& forall|c: int, k: int, s: int|
            0 <= c < 2 && 0 <= k < 6 && 0 <= s < 64 ==> (#[trigger] has_bit(self.pieces[c][k], s)
                <==> self.mailbox[s] == Some(piece_of(c, k)))
        &&& self.en_passant matches Some(e) ==> e < 64
    }

    pub fn color_occupancy(&self, color: Color) -> (r: Bitboard)
        ensures
            r == color_occ(*self, color.spec_index() as int),
    {
        let p = &self.pieces[color.index()];
        p[0] | p[1] | p[2] | p[3] | p[4] | p[5]
    }

    pub fn occupancy(&self) -> (r: Bitboard)
        ensures
            r == occ_bb(*self),
    {
        self.color_occupancy(Color::White) | self.color_occupancy(Color::Black)
    }

    /// The king square of `color` (its lowest, should there be several).
    pub fn king_square(&self, color: Color) -> (sq: Square)
        requires
            has_king(*self, color),
        ensures
            sq == king_sq(*self, color),
            sq < 64,
            has_bit(self.pieces[color.spec_index() as int][5], sq as int),
    {
        let bb = self.pieces[color.index()][5];
        crate::bitboard::lsb(bb)
    }

    /// Is `sq` attacked by a piece of `by_color`?
    pub fn is_square_attacked(&self, sq: Square, by_color: Color) -> (r: bool)
        requires
            self.wf(),
            sq < 64,
        ensures
            r == square_attacked(*self, sq as int, by_color),
    {
        let occ = self.occupancy();
        let idx = by_color.index();
        let pawns = self.pieces[idx][0];
        let knights = self.pieces[idx][1];
        let bishops = self.pieces[idx][2];
        let rooks = self.pieces[idx][3];
        let queens = self.pieces[idx][4];
        let kings = self.pieces[idx][5];
        let pwt = pawn_attacks_of(by_color.opposite(), sq);
        let knt = knight_attacks_of(sq);
        let kgt = king_attacks_of(sq);
        let bst = bishop_attacks_of(sq, occ);
        let rkt = rook_attacks_of(sq, occ);
        let pa = pwt & pawns;
        let na = knt & knights;
        let ka = kgt & kings;
        let ba = bst & (bishops | queens);
        let ra = rkt & (rooks | queens);
        let r = pa != EMPTY || na != EMPTY || ka != EMPTY || ba != EMPTY || ra != EMPTY;
        proof {
            lemma_attacked_lookup(*self, sq as int, by_color);
            let t = sq as int;
            let o = occ_bb(*self);
            lemma_squares_ops(pwt, pawns);
            lemma_squares_ops(knt, knights);
            lemma_squares_ops(kgt, kings);
            lemma_squares_ops(bishops, queens);
            lemma_squares_ops(rooks, queens);
            lemma_squares_ops(bst, bishops | queens);
            lemma_squares_ops(rkt, rooks | queens);
            crate::bitboard::lemma_squares_empty(pa);
            crate::bitboard::lemma_squares_empty(na);
            crate::bitboard::lemma_squares_empty(ka);
            crate::bitboard::lemma_squares_empty(ba);
            crate::bitboard::lemma_squares_empty(ra);
            if r {
                let bb = if pa != EMPTY { pa } else if na != EMPTY { na } else if ka != EMPTY { ka } else if ba != EMPTY { ba } else { ra };
                crate::bitboard::lemma_squares_empty(bb);
                if !(exists|s: int| squares(bb).contains(s)) {
                    assert(squares(bb) =~= Set::<int>::empty());
                }
                let s = choose|s: int| squares(bb).contains(s);
                assert(0 <= s < 64);
                let k: int = if pa != EMPTY { 0 } else if na != EMPTY { 1 } else if ka != EMPTY { 5 } else if ba != EMPTY {
                    if has_bit(bishops, s) { 2 } else { 4 }
                } else {
                    if has_bit(rooks, s) { 3 } else { 4 }
                };
                assert(has_bit(self.pieces[idx as int][k], s));
                assert(self.mailbox[s] == Some(piece_of(idx as int, k)));
                assert(piece_attacks(self.mailbox[s]->0, s, o, t));
                assert(square_attacked(*self, t, by_color));
            }
            if square_attacked(*self, t, by_color) {
                let s = choose|s: int|
                    0 <= s < 64 && #[trigger] self.mailbox[s] is Some && self.mailbox[s]->0.color
                        == by_color && piece_attacks(self.mailbox[s]->0, s, o, t);
                assert(squares(pa).contains(s) || squares(na).contains(s) || squares(ka).contains(s)
                    || squares(ba).contains(s) || squares(ra).contains(s));
            }
        }
        r
    }

    /// Is the king of `color` attacked?
    pub fn in_check(&self, color: Color) -> (r: bool)
        requires
            self.wf(),
            has_king(*self, color),
        ensures
            r == square_attacked(*self, king_sq(*self, color), color.opposite()),
    {
        self.is_square_attacked(self.king_square(color), color.opposite())
    }
}

/// Occupancy bitboards of a well-formed board, read through the mailbox.
pub proof fn lemma_occupancy(b: Board)
    requires
        b.wf(),
    ensures
        forall|c: int, s: int|
            0 <= c < 2 ==> (#[trigger] has_bit(color_occ(b, c), s) <==> (0 <= s < 64 && b.mailbox[s] is Some
                && b.mailbox[s]->0.color == color_of_index(c))),
        forall|s: int| #[trigger] has_bit(occ_bb(b), s) <==> (0 <= s < 64 && b.mailbox[s] is Some),
{
    assert forall|c: int, s: int|
        0 <= c < 2 implies (#[trigger] has_bit(color_occ(b, c), s) <==> (0 <= s < 64 && b.mailbox[s] is Some
            && b.mailbox[s]->0.color == color_of_index(c))) by {
        if 0 <= s < 64 {
            let p = b.pieces[c];
            let u = s as u64;
            crate::bitboard::lemma_bit_or(p[0] | p[1] | p[2] | p[3] | p[4], p[5], u);
            crate::bitboard::lemma_bit_or(p[0] | p[1] | p[2] | p[3], p[4], u);
            crate::bitboard::lemma_bit_or(p[0] | p[1] | p[2], p[3], u);
            crate::bitboard::lemma_bit_or(p[0] | p[1], p[2], u);
            crate::bitboard::lemma_bit_or(p[0], p[1], u);
            assert(has_bit(p[0], s) == (b.mailbox[s] == Some(piece_of(c, 0))));
            assert(has_bit(p[1], s) == (b.mailbox[s] == Some(piece_of(c, 1))));
            assert(has_bit(p[2], s) == (b.mailbox[s] == Some(piece_of(c, 2))));
            assert(has_bit(p[3], s) == (b.mailbox[s] == Some(piece_of(c, 3))));
            assert(has_bit(p[4], s) == (b.mailbox[s] == Some(piece_of(c, 4))));
            assert(has_bit(p[5], s) == (b.mailbox[s] == Some(piece_of(c, 5))));
            if b.mailbox[s] is Some && b.mailbox[s]->0.color == color_of_index(c) {
                let k = b.mailbox[s]->0.kind.spec_index() as int;
                assert(b.mailbox[s] == Some(piece_of(c, k)));
            }
        }
    }
    assert forall|s: int| #[trigger] has_bit(occ_bb(b), s) <==> (0 <= s < 64 && b.mailbox[s] is Some) by {
        if 0 <= s < 64 {
            crate::bitboard::lemma_bit_or(color_occ(b, 0), color_occ(b, 1), s as u64);
            assert(has_bit(color_occ(b, 0), s) == (b.mailbox[s] is Some && b.mailbox[s]->0.color == Color::White));
            assert(has_bit(color_occ(b, 1), s) == (b.mailbox[s] is Some && b.mailbox[s]->0.color == Color::Black));
        }
    }
}

/// How `is_square_attacked` looks attackers up: from the target square,
/// with the attack pattern of each kind (pawns: of the other colour).
proof fn lemma_attacked_lookup(b: Board, t: int, by: Color)
    requires
        b.wf(),
        0 <= t < 64,
    ensures
        forall|s: int|
            0 <= s < 64 && #[trigger] b.mailbox[s] is Some && b.mailbox[s]->0.color == by ==> (
            piece_attacks(b.mailbox[s]->0, s, occ_bb(b), t) <==> match b.mailbox[s]->0.kind {
                PieceType::Pawn => pawn_set(by.spec_opposite(), t).contains(s),
                PieceType::Knight => knight_set(t).contains(s),
                PieceType::Bishop => bishop_set(t, occ_bb(b)).contains(s),
                PieceType::Rook => rook_set(t, occ_bb(b)).contains(s),
                PieceType::Queen => bishop_set(t, occ_bb(b)).contains(s) || rook_set(t, occ_bb(b)).contains(s),
                PieceType::King => king_set(t).contains(s),
            }),
        forall|s: int, k: int|
            0 <= s < 64 && 0 <= k < 6 && #[trigger] has_bit(b.pieces[by.spec_index() as int][k], s) ==> b.mailbox[s]
                == Some(piece_of(by.spec_index() as int, k)),
{
    let o = occ_bb(b);
    assert forall|s: int|
        0 <= s < 64 && #[trigger] b.mailbox[s] is Some && b.mailbox[s]->0.color == by implies (
        piece_attacks(b.mailbox[s]->0, s, o, t) <==> match b.mailbox[s]->0.kind {
            PieceType::Pawn => pawn_set(by.spec_opposite(), t).contains(s),
            PieceType::Knight => knight_set(t).contains(s),
            PieceType::Bishop => bishop_set(t, o).contains(s),
            PieceType::Rook => rook_set(t, o).contains(s),
            PieceType::Queen => bishop_set(t, o).contains(s) || rook_set(t, o).contains(s),
            PieceType::King => king_set(t).contains(s),
        }) by {
        lemma_step_symmetric(s, t);
        lemma_rook_symmetric(s, t, o);
        lemma_bishop_symmetric(s, t, o);
    }
}


// ---------------------------------------------------------------------------
// The Zobrist hash of a position
// ---------------------------------------------------------------------------

/// Key contributed by the content of square `s`.
pub open spec fn mailbox_key(m: Option<Piece>, s: int) -> u64 {
    match m {
        Some(p) => piece_key(p.color, p.kind, s),
        None => 0,
    }
}

/// Xor of the keys of the pieces on squares `0..n`.
pub open spec fn squares_hash(mb: Seq<Option<Piece>>, n: int) -> u64
    decreases n,
{
    if n <= 0 {
        0
    } else {
        squares_hash(mb, n - 1) ^ mailbox_key(mb[n - 1], n - 1)
    }
}

pub open spec fn side_part(c: Color) -> u64 {
    if c == Color::Black {
        SIDE_TO_MOVE_KEY
    } else {
        0
    }
}

pub open spec fn right_key(has: bool, i: int) -> u64 {
    if has {
        castling_key(i)
    } else {
        0
    }
}

pub open spec fn castling_part(c: CastlingRights) -> u64 {
    ((right_key(c.white_kingside, 0) ^ right_key(c.white_queenside, 1)) ^ right_key(c.black_kingside, 2))
        ^ right_key(c.black_queenside, 3)
}

pub open spec fn ep_part(e: Option<Square>) -> u64 {
    match e {
        Some(x) => en_passant_key((x % 8) as int),
        None => 0,
    }
}

/// The Zobrist hash of a board computed from scratch: the keys of all
/// pieces on their squares, of Black to move, of each castling right held
/// and of the file of the en passant square.
pub open spec fn zobrist_hash(b: Board) -> u64 {
    ((squares_hash(b.mailbox@, 64) ^ side_part(b.side_to_move)) ^ castling_part(b.castling)) ^ ep_part(
        b.en_passant,
    )
}

pub proof fn lemma_xor_swap(a: u64, b: u64, c: u64)
    by (bit_vector)
    ensures
        (a ^ b) ^ c == (a ^ c) ^ b,
        (a ^ b) ^ b == a,
        a ^ 0 == a,
        0 ^ a == a,
        (a ^ b) ^ c == a ^ (b ^ c),
        a ^ b == b ^ a,
{
}

pub proof fn lemma_xor_self(a: u64)
    by (bit_vector)
    ensures
        a ^ a == 0,
        a ^ 0 == a,
        0 ^ a == a,
{
}

proof fn lemma_squares_hash_prefix(mb: Seq<Option<Piece>>, s: int, v: Option<Piece>, n: int)
    requires
        0 <= n <= s < mb.len(),
    ensures
        squares_hash(mb.update(s, v), n) == squares_hash(mb, n),
    decreases n,
{
    if n > 0 {
        lemma_squares_hash_prefix(mb, s, v, n - 1);
    }
}

/// Changing one square changes the hash by the keys of the old and the new content.
pub proof fn lemma_squares_hash_update(mb: Seq<Option<Piece>>, s: int, v: Option<Piece>, n: int)
    requires
        0 <= s < n <= mb.len(),
    ensures
        squares_hash(mb.update(s, v), n) == (squares_hash(mb, n) ^ mailbox_key(mb[s], s)) ^ mailbox_key(v, s),
    decreases n,
{
    let m2 = mb.update(s, v);
    if n == s + 1 {
        lemma_squares_hash_prefix(mb, s, v, s);
        let a = squares_hash(mb, s);
        lemma_xor_swap(a, mailbox_key(mb[s], s), mailbox_key(mb[s], s));
    } else {
        lemma_squares_hash_update(mb, s, v, n - 1);
        let a = squares_hash(mb, n - 1);
        let km = mailbox_key(mb[s], s);
        let kv = mailbox_key(v, s);
        let kl = mailbox_key(mb[n - 1], n - 1);
        assert(m2[n - 1] == mb[n - 1]);
        assert(((a ^ km) ^ kv) ^ kl == ((a ^ kl) ^ km) ^ kv) by (bit_vector);
    }
}

/// The placement part of `wf`.
pub open spec fn placement_ok(pieces: [[Bitboard; 6]; 2], mailbox: [Option<Piece>; 64]) -> bool {
    forall|c: int, k: int, s: int|
        0 <= c < 2 && 0 <= k < 6 && 0 <= s < 64 ==> (#[trigger] has_bit(pieces[c][k], s) <==> mailbox[s]
            == Some(piece_of(c, k)))
}

proof fn lemma_piece_of(p: Piece)
    ensures
        piece_of(p.color.spec_index() as int, p.kind.spec_index() as int) == p,
{
}

/// Takes the piece `c`/`k` off square `s`, updating bitboards, mailbox and hash.
pub(crate) fn remove_piece(
    pieces: &mut [[Bitboard; 6]; 2],
    mailbox: &mut [Option<Piece>; 64],
    hash: &mut u64,
    c: Color,
    k: PieceType,
    s: Square,
)
    requires
        placement_ok(*old(pieces), *old(mailbox)),
        s < 64,
        old(mailbox)[s as int] == Some(Piece { color: c, kind: k }),
    ensures
        placement_ok(*final(pieces), *final(mailbox)),
        final(mailbox)@ == old(mailbox)@.update(s as int, None),
        *final(hash) ^ squares_hash(final(mailbox)@, 64) == *old(hash) ^ squares_hash(old(mailbox)@, 64),
{
    let ghost old_mb = mailbox@;
    let ghost old_h = *hash;
    let ghost old_pieces = *pieces;
    let ci = c.index();
    let ki = k.index();
    let mut row = pieces[ci];
    row[ki] = clear_bit(row[ki], s);
    pieces[ci] = row;
    mailbox[s as usize] = None;
    let key = piece_square_key(c, k, s);
    *hash = *hash ^ key;
    proof {
        lemma_piece_of(Piece { color: c, kind: k });
        assert forall|cc: int, kk: int, ss: int|
            0 <= cc < 2 && 0 <= kk < 6 && 0 <= ss < 64 implies (#[trigger] has_bit(pieces[cc][kk], ss)
                <==> mailbox[ss] == Some(piece_of(cc, kk))) by {
            assert(has_bit(old_pieces[cc][kk], ss) <==> old_mb[ss] == Some(piece_of(cc, kk)));
            if cc == ci && kk == ki {
                assert(squares(pieces[cc][kk]).contains(ss) == squares(old_pieces[cc][kk]).remove(s as int).contains(ss));
            }
        }
        assert(mailbox@ =~= old_mb.update(s as int, None));
        lemma_squares_hash_update(old_mb, s as int, None, 64);
        let a = squares_hash(old_mb, 64);
        assert(((old_h ^ key) ^ ((a ^ key) ^ 0u64)) == old_h ^ a) by (bit_vector);
    }
}

/// Puts the piece `c`/`k` on the empty square `s`, updating bitboards, mailbox and hash.
pub(crate) fn put_piece(
    pieces: &mut [[Bitboard; 6]; 2],
    mailbox: &mut [Option<Piece>; 64],
    hash: &mut u64,
    c: Color,
    k: PieceType,
    s: Square,
)
    requires
        placement_ok(*old(pieces), *old(mailbox)),
        s < 64,
        old(mailbox)[s as int] is None,
    ensures
        placement_ok(*final(pieces), *final(mailbox)),
        final(mailbox)@ == old(mailbox)@.update(s as int, Some(Piece { color: c, kind: k })),
        *final(hash) ^ squares_hash(final(mailbox)@, 64) == *old(hash) ^ squares_hash(old(mailbox)@, 64),
{
    let ghost old_mb = mailbox@;
    let ghost old_h = *hash;
    let ghost old_pieces = *pieces;
    let ci = c.index();
    let ki = k.index();
    let mut row = pieces[ci];
    row[ki] = set_bit(row[ki], s);
    pieces[ci] = row;
    mailbox[s as usize] = Some(Piece::new(c, k));
    let key = piece_square_key(c, k, s);
    *hash = *hash ^ key;
    proof {
        lemma_piece_of(Piece { color: c, kind: k });
        assert forall|cc: int, kk: int, ss: int|
            0 <= cc < 2 && 0 <= kk < 6 && 0 <= ss < 64 implies (#[trigger] has_bit(pieces[cc][kk], ss)
                <==> mailbox[ss] == Some(piece_of(cc, kk))) by {
            assert(has_bit(old_pieces[cc][kk], ss) <==> old_mb[ss] == Some(piece_of(cc, kk)));
            if cc == ci && kk == ki {
                assert(squares(pieces[cc][kk]).contains(ss) == squares(old_pieces[cc][kk]).insert(s as int).contains(ss));
            }
        }
        assert(mailbox@ =~= old_mb.update(s as int, Some(Piece { color: c, kind: k })));
        lemma_squares_hash_update(old_mb, s as int, Some(Piece { color: c, kind: k }), 64);
        let a = squares_hash(old_mb, 64);
        assert(((old_h ^ key) ^ ((a ^ 0u64) ^ key)) == old_h ^ a) by (bit_vector);
    }
}


// ---------------------------------------------------------------------------
// Applying a move
// ---------------------------------------------------------------------------

/// Square of the pawn taken by an en passant capture landing on `to`.
pub open spec fn ep_victim(us: Color, to: int) -> int {
    if us == Color::White {
        to - 8
    } else {
        to + 8
    }
}

/// Square skipped by a double pawn push from `from`.
pub open spec fn ep_square_of(us: Color, from: int) -> int {
    if us == Color::White {
        from + 8
    } else {
        from - 8
    }
}

pub open spec fn king_home(us: Color) -> int {
    if us == Color::White {
        4
    } else {
        60
    }
}

/// (king target, rook origin, rook target) of a castling move.
pub open spec fn castle_squares(us: Color, kingside: bool) -> (int, int, int) {
    if us == Color::White {
        if kingside {
            (6, 7, 5)
        } else {
            (2, 0, 3)
        }
    } else {
        if kingside {
            (62, 63, 61)
        } else {
            (58, 56, 59)
        }
    }
}

/// The kind of piece standing on the target square after `mv`.
pub open spec fn placed_kind(b: Board, mv: Move) -> PieceType {
    match kind_promotion(mv.kind) {
        Some(p) => p,
        None => b.mailbox[mv.from as int]->0.kind,
    }
}

/// `mv` can be applied to `b` keeping bitboards, mailbox and hash in step:
/// the mover stands on `from` and belongs to the side to move, a capture
/// finds an enemy piece (en passant: an enemy pawn behind the target), other
/// moves land on an empty square, castling finds the king at home and its
/// rook in the corner, and the counters have room to grow. Every
/// pseudo-legal move of a well-formed board is such a move.
pub open spec fn move_consistent(b: Board, mv: Move) -> bool {
    let us = b.side_to_move;
    let them = us.spec_opposite();
    let from = mv.from as int;
    let to = mv.to as int;
    &&& from < 64 && to < 64
    &&& b.mailbox[from] is Some && b.mailbox[from]->0.color == us
    &&& match mv.kind {
        MoveKind::Capture | MoveKind::PromotionCapture(_) => b.mailbox[to] is Some && b.mailbox[to]->0.color
            == them,
        MoveKind::EnPassantCapture => b.mailbox[to] is None && 0 <= ep_victim(us, to) < 64 && b.mailbox[ep_victim(
            us,
            to,
        )] == Some(Piece { color: them, kind: PieceType::Pawn }),
        MoveKind::CastleKingside => {
            let (kt, rf, rt) = castle_squares(us, true);
            from == king_home(us) && to == kt && b.mailbox[to] is None && b.mailbox[rf] == Some(
                Piece { color: us, kind: PieceType::Rook },
            ) && b.mailbox[rt] is None
        },
        MoveKind::CastleQueenside => {
            let (kt, rf, rt) = castle_squares(us, false);
            from == king_home(us) && to == kt && b.mailbox[to] is None && b.mailbox[rf] == Some(
                Piece { color: us, kind: PieceType::Rook },
            ) && b.mailbox[rt] is None
        },
        MoveKind::DoublePawnPush => b.mailbox[to] is None && 0 <= ep_square_of(us, from) < 64,
        _ => b.mailbox[to] is None,
    }
    &&& (!(b.mailbox[from]->0.kind == PieceType::Pawn || kind_is_capture(mv.kind)) ==> b.halfmove_clock
        < u32::MAX)
    &&& (us == Color::Black ==> b.fullmove_number < u32::MAX)
}

/// The mailbox after `mv`: the mover leaves `from`, an en passant victim
/// disappears, the mover (or its promotion) lands on `to`, and castling moves
/// the rook too.
pub open spec fn mailbox_after(b: Board, mv: Move) -> Seq<Option<Piece>> {
    let us = b.side_to_move;
    let m1 = b.mailbox@.update(mv.from as int, None);
    let m2 = if mv.kind is EnPassantCapture {
        m1.update(ep_victim(us, mv.to as int), None)
    } else {
        m1
    };
    let m3 = m2.update(mv.to as int, Some(Piece { color: us, kind: placed_kind(b, mv) }));
    let rook = Some(Piece { color: us, kind: PieceType::Rook });
    if mv.kind is CastleKingside {
        let (kt, rf, rt) = castle_squares(us, true);
        m3.update(rf, None).update(rt, rook)
    } else if mv.kind is CastleQueenside {
        let (kt, rf, rt) = castle_squares(us, false);
        m3.update(rf, None).update(rt, rook)
    } else {
        m3
    }
}

/// Castling rights after `mv`: a king move loses both rights of its side,
/// and any move from or to a corner loses the right of that corner.
pub open spec fn castling_after(b: Board, mv: Move) -> CastlingRights {
    let c = b.castling;
    let us = b.side_to_move;
    let king_moved = b.mailbox[mv.from as int]->0.kind == PieceType::King;
    let from = mv.from as int;
    let to = mv.to as int;
    CastlingRights {
        white_kingside: c.white_kingside && !(us == Color::White && king_moved) && from != 7 && to != 7,
        white_queenside: c.white_queenside && !(us == Color::White && king_moved) && from != 0 && to != 0,
        black_kingside: c.black_kingside && !(us == Color::Black && king_moved) && from != 63 && to != 63,
        black_queenside: c.black_queenside && !(us == Color::Black && king_moved) && from != 56 && to != 56,
    }
}

pub open spec fn en_passant_after(b: Board, mv: Move) -> Option<Square> {
    if mv.kind is DoublePawnPush {
        Some(ep_square_of(b.side_to_move, mv.from as int) as u8)
    } else {
        None
    }
}

pub open spec fn halfmove_after(b: Board, mv: Move) -> u32 {
    if b.mailbox[mv.from as int]->0.kind == PieceType::Pawn || kind_is_capture(mv.kind) {
        0
    } else {
        (b.halfmove_clock + 1) as u32
    }
}

pub open spec fn fullmove_after(b: Board, mv: Move) -> u32 {
    if b.side_to_move == Color::Black {
        (b.fullmove_number + 1) as u32
    } else {
        b.fullmove_number
    }
}

/// The hash `make_move` gives the board after `mv`: the hash of `b` with the
/// keys of what the move changes exchanged.
pub open spec fn hash_after(b: Board, mv: Move) -> u64 {
    (b.hash ^ zobrist_hash(b)) ^ (((squares_hash(mailbox_after(b, mv), 64) ^ side_part(
        b.side_to_move.spec_opposite(),
    )) ^ castling_part(castling_after(b, mv))) ^ ep_part(en_passant_after(b, mv)))
}

/// `nb` is the board that playing `mv` on `b` gives.
pub open spec fn is_move_result(b: Board, mv: Move, nb: Board) -> bool {
    &&& nb.wf()
    &&& nb.mailbox@ == mailbox_after(b, mv)
    &&& nb.side_to_move == b.side_to_move.spec_opposite()
    &&& nb.castling == castling_after(b, mv)
    &&& nb.en_passant == en_passant_after(b, mv)
    &&& nb.halfmove_clock == halfmove_after(b, mv)
    &&& nb.fullmove_number == fullmove_after(b, mv)
    &&& nb.hash == hash_after(b, mv)
}

/// The board after playing `mv` on `b`.
pub open spec fn board_after(b: Board, mv: Move) -> Board {
    choose|nb: Board| is_move_result(b, mv, nb)
}

/// Two well-formed boards with the same mailbox have the same bitboards.
pub proof fn lemma_same_placement(x: Board, y: Board)
    requires
        x.wf(),
        y.wf(),
        x.mailbox@ == y.mailbox@,
    ensures
        x.pieces == y.pieces,
        x.mailbox == y.mailbox,
{
    broadcast use vstd::array::axiom_array_ext_equal;

    assert forall|c: int, k: int| 0 <= c < 2 && 0 <= k < 6 implies x.pieces[c][k] == y.pieces[c][k] by {
        crate::bitboard::lemma_squares_bounded(x.pieces[c][k]);
        crate::bitboard::lemma_squares_bounded(y.pieces[c][k]);
        assert forall|s: int| squares(x.pieces[c][k]).contains(s) == squares(y.pieces[c][k]).contains(s) by {
            if 0 <= s < 64 {
                assert(has_bit(x.pieces[c][k], s) == (x.mailbox[s] == Some(piece_of(c, k))));
                assert(has_bit(y.pieces[c][k], s) == (y.mailbox[s] == Some(piece_of(c, k))));
                assert(x.mailbox[s] == x.mailbox@[s]);
                assert(y.mailbox[s] == y.mailbox@[s]);
            }
        }
        assert(squares(x.pieces[c][k]) =~= squares(y.pieces[c][k]));
        crate::bitboard::lemma_squares_ext(x.pieces[c][k], y.pieces[c][k]);
    }
    assert forall|c: int| 0 <= c < 2 implies x.pieces[c] =~= y.pieces[c] by {}
    assert(x.pieces =~= y.pieces);
    assert forall|s: int| 0 <= s < 64 implies x.mailbox[s] == y.mailbox[s] by {
        assert(x.mailbox[s] == x.mailbox@[s]);
        assert(y.mailbox[s] == y.mailbox@[s]);
    }
    assert(x.mailbox =~= y.mailbox);
}

/// Playing a move gives a single board.
pub proof fn lemma_move_result_unique(b: Board, mv: Move, x: Board, y: Board)
    requires
        is_move_result(b, mv, x),
        is_move_result(b, mv, y),
    ensures
        x == y,
{
    lemma_same_placement(x, y);
}

pub open spec fn diff_key(a: bool, b: bool, i: int) -> u64 {
    if a != b {
        castling_key(i)
    } else {
        0
    }
}

proof fn lemma_castling_diff(o: CastlingRights, n: CastlingRights)
    ensures
        castling_part(o) ^ castling_part(n) == ((diff_key(o.white_kingside, n.white_kingside, 0) ^ diff_key(
            o.white_queenside,
            n.white_queenside,
            1,
        )) ^ diff_key(o.black_kingside, n.black_kingside, 2)) ^ diff_key(o.black_queenside, n.black_queenside, 3),
{
    let a0 = right_key(o.white_kingside, 0);
    let a1 = right_key(o.white_queenside, 1);
    let a2 = right_key(o.black_kingside, 2);
    let a3 = right_key(o.black_queenside, 3);
    let b0 = right_key(n.white_kingside, 0);
    let b1 = right_key(n.white_queenside, 1);
    let b2 = right_key(n.black_kingside, 2);
    let b3 = right_key(n.black_queenside, 3);
    let d0 = diff_key(o.white_kingside, n.white_kingside, 0);
    let d1 = diff_key(o.white_queenside, n.white_queenside, 1);
    let d2 = diff_key(o.black_kingside, n.black_kingside, 2);
    let d3 = diff_key(o.black_queenside, n.black_queenside, 3);
    assert(a0 ^ b0 == d0) by {
        lemma_xor_self(castling_key(0));
        lemma_xor_self(0);
    }
    assert(a1 ^ b1 == d1) by {
        lemma_xor_self(castling_key(1));
        lemma_xor_self(0);
    }
    assert(a2 ^ b2 == d2) by {
        lemma_xor_self(castling_key(2));
        lemma_xor_self(0);
    }
    assert(a3 ^ b3 == d3) by {
        lemma_xor_self(castling_key(3));
        lemma_xor_self(0);
    }
    assert(((((a0 ^ a1) ^ a2) ^ a3) ^ (((b0 ^ b1) ^ b2) ^ b3)) == ((((a0 ^ b0) ^ (a1 ^ b1)) ^ (a2 ^ b2)) ^ (a3
        ^ b3))) by (bit_vector);
}

proof fn lemma_make_move_hash(
    h0: u64,
    s0: u64,
    sf: u64,
    hp: u64,
    epo: u64,
    epn: u64,
    sk: u64,
    sdo: u64,
    sdn: u64,
    cpo: u64,
    cpn: u64,
    cd: u64,
)
    by (bit_vector)
    requires
        hp ^ sf == (h0 ^ epo) ^ s0,
        sdo ^ sdn == sk,
        cpo ^ cpn == cd,
    ensures
        (((hp ^ epn) ^ cd) ^ sk) ^ (((sf ^ sdn) ^ cpn) ^ epn) == h0 ^ (((s0 ^ sdo) ^ cpo) ^ epo),
{
}

impl Board {
    /// Moves the pieces for `mv` (mover, captured piece, castling rook),
    /// keeping bitboards, mailbox and hash in step.
    fn move_pieces(
        &self,
        mv: Move,
        pieces: &mut [[Bitboard; 6]; 2],
        mailbox: &mut [Option<Piece>; 64],
        hash: &mut u64,
    )
        requires
            self.wf(),
            move_consistent(*self, mv),
            *old(pieces) == self.pieces,
            *old(mailbox) == self.mailbox,
        ensures
            placement_ok(*final(pieces), *final(mailbox)),
            final(mailbox)@ == mailbox_after(*self, mv),
            *final(hash) ^ squares_hash(final(mailbox)@, 64) == *old(hash) ^ squares_hash(self.mailbox@, 64),
    {
        let ghost h_in = *hash;
        let us = self.side_to_move;
        let them = us.opposite();
        let moving_piece = self.mailbox[mv.from as usize].unwrap();
        remove_piece(pieces, mailbox, hash, us, moving_piece.kind, mv.from);
        match mv.kind {
            MoveKind::Capture | MoveKind::PromotionCapture(_) => {
                let captured = self.mailbox[mv.to as usize].unwrap();
                remove_piece(pieces, mailbox, hash, them, captured.kind, mv.to);
            },
            MoveKind::EnPassantCapture => {
                let captured_sq = if us == Color::White {
                    mv.to - 8
                } else {
                    mv.to + 8
                };
                remove_piece(pieces, mailbox, hash, them, PieceType::Pawn, captured_sq);
            },
            _ => {},
        }
        let placed_kind = match mv.promotion() {
            Some(p) => p,
            None => moving_piece.kind,
        };
        put_piece(pieces, mailbox, hash, us, placed_kind, mv.to);
        match mv.kind {
            MoveKind::CastleKingside => {
                let (rook_from, rook_to) = if us == Color::White {
                    (H1, F1)
                } else {
                    (H8, F8)
                };
                remove_piece(pieces, mailbox, hash, us, PieceType::Rook, rook_from);
                put_piece(pieces, mailbox, hash, us, PieceType::Rook, rook_to);
            },
            MoveKind::CastleQueenside => {
                let (rook_from, rook_to) = if us == Color::White {
                    (A1, D1)
                } else {
                    (A8, D8)
                };
                remove_piece(pieces, mailbox, hash, us, PieceType::Rook, rook_from);
                put_piece(pieces, mailbox, hash, us, PieceType::Rook, rook_to);
            },
            _ => {},
        }
        proof {
            assert(mailbox@ =~= mailbox_after(*self, mv));
        }
    }

    /// Castling rights after `mv`, whose mover is of kind `moving`.
    fn castling_rights_after(&self, mv: Move, moving: PieceType) -> (c: CastlingRights)
        requires
            self.mailbox[mv.from as int] == Some(Piece { color: self.side_to_move, kind: moving }),
        ensures
            c == castling_after(*self, mv),
    {
        let us = self.side_to_move;
        let mut castling = self.castling;
        match (us, moving) {
            (Color::White, PieceType::King) => {
                castling.white_kingside = false;
                castling.white_queenside = false;
            },
            (Color::Black, PieceType::King) => {
                castling.black_kingside = false;
                castling.black_queenside = false;
            },
            _ => {},
        }
        // A move from or to a corner covers both "the rook left its corner"
        // and "the rook was taken in its corner".
        if mv.from == A1 || mv.to == A1 {
            castling.white_queenside = false;
        }
        if mv.from == H1 || mv.to == H1 {
            castling.white_kingside = false;
        }
        if mv.from == A8 || mv.to == A8 {
            castling.black_queenside = false;
        }
        if mv.from == H8 || mv.to == H8 {
            castling.black_kingside = false;
        }
        castling
    }

    /// Applies `mv` and returns the resulting board. `mv` is taken to be at
    /// least pseudo-legal in `self` (see `move_consistent`); whether it
    /// leaves the mover's king in check is not examined here.
    pub fn make_move(&self, mv: Move) -> (b: Board)
        requires
            self.wf(),
            move_consistent(*self, mv),
        ensures
            b.wf(),
            b.mailbox@ == mailbox_after(*self, mv),
            b.side_to_move == self.side_to_move.spec_opposite(),
            b.castling == castling_after(*self, mv),
            b.en_passant == en_passant_after(*self, mv),
            b.halfmove_clock == halfmove_after(*self, mv),
            b.fullmove_number == fullmove_after(*self, mv),
            b.hash ^ zobrist_hash(b) == self.hash ^ zobrist_hash(*self),
            is_move_result(*self, mv, b),
            b == board_after(*self, mv),
    {
        let ghost s0 = squares_hash(self.mailbox@, 64);
        let us = self.side_to_move;
        let them = us.opposite();
        let mut pieces = self.pieces;
        let mut mailbox = self.mailbox;
        let mut hash = self.hash;
        let moving_piece = self.mailbox[mv.from as usize].unwrap();
        let ghost epo = ep_part(self.en_passant);

        // Take the file of the previous en passant square out of the hash.
        match self.en_passant {
            Some(old_ep) => {
                hash = hash ^ en_passant_key_of(old_ep % 8);
            },
            None => {
                proof {
                    lemma_xor_swap(hash, 0, 0);
                }
            },
        }
        let ghost h1 = hash;

        let halfmove_clock = if moving_piece.kind == PieceType::Pawn || mv.is_capture() {
            0
        } else {
            self.halfmove_clock + 1
        };
        self.move_pieces(mv, &mut pieces, &mut mailbox, &mut hash);
        let ghost hp = hash;
        let ghost sf = squares_hash(mailbox@, 64);
        assert(hp ^ sf == (self.hash ^ epo) ^ s0);
        let mut en_passant: Option<Square> = None;

        match mv.kind {
            MoveKind::DoublePawnPush => {
                let ep_sq = if us == Color::White {
                    mv.from + 8
                } else {
                    mv.from - 8
                };
                en_passant = Some(ep_sq);
                hash = hash ^ en_passant_key_of(ep_sq % 8);
            },
            _ => {
                proof {
                    lemma_xor_swap(hash, 0, 0);
                }
            },
        }
        let ghost epn = ep_part(en_passant);
        assert(hash == hp ^ epn);

        let castling = self.castling_rights_after(mv, moving_piece.kind);

        let ghost h2 = hash;
        let d0 = if self.castling.white_kingside != castling.white_kingside {
            castling_key_of(0)
        } else {
            0
        };
        let d1 = if self.castling.white_queenside != castling.white_queenside {
            castling_key_of(1)
        } else {
            0
        };
        let d2 = if self.castling.black_kingside != castling.black_kingside {
            castling_key_of(2)
        } else {
            0
        };
        let d3 = if self.castling.black_queenside != castling.black_queenside {
            castling_key_of(3)
        } else {
            0
        };
        hash = hash ^ d0;
        hash = hash ^ d1;
        hash = hash ^ d2;
        hash = hash ^ d3;

        let fullmove_number = if us == Color::Black {
            self.fullmove_number + 1
        } else {
            self.fullmove_number
        };
        hash = hash ^ SIDE_TO_MOVE_KEY;

        let b = Board {
            pieces,
            mailbox,
            side_to_move: them,
            castling,
            en_passant,
            halfmove_clock,
            fullmove_number,
            hash,
        };
        proof {
            lemma_castling_diff(self.castling, castling);
            let cd = ((d0 ^ d1) ^ d2) ^ d3;
            assert(hash == (((h2 ^ d0) ^ d1) ^ d2) ^ d3 ^ SIDE_TO_MOVE_KEY);
            assert((((h2 ^ d0) ^ d1) ^ d2) ^ d3 == h2 ^ (((d0 ^ d1) ^ d2) ^ d3)) by (bit_vector);
            lemma_xor_swap(0, SIDE_TO_MOVE_KEY, 0);
            lemma_xor_swap(SIDE_TO_MOVE_KEY, 0, 0);
            lemma_make_move_hash(
                self.hash,
                s0,
                sf,
                hp,
                epo,
                epn,
                SIDE_TO_MOVE_KEY,
                side_part(us),
                side_part(them),
                castling_part(self.castling),
                castling_part(castling),
                cd,
            );
            let z = zobrist_hash(b);
            let x = self.hash ^ zobrist_hash(*self);
            let h = b.hash;
            assert(h == x ^ z) by (bit_vector)
                requires
                    h ^ z == x,
            ;
            assert(is_move_result(*self, mv, b));
            lemma_move_result_unique(*self, mv, b, board_after(*self, mv));
        }
        b
    }

    /// "Null move": hands the turn to the other side without moving a piece.
    /// Only used for null-move pruning in the search; never a legal move.
    pub fn make_null_move(&self) -> (b: Board)
        requires
            self.halfmove_clock < u32::MAX,
        ensures
            b.pieces == self.pieces,
            b.mailbox == self.mailbox,
            b.castling == self.castling,
            b.en_passant is None,
            b.side_to_move == self.side_to_move.spec_opposite(),
            b.halfmove_clock == self.halfmove_clock + 1,
            b.fullmove_number == self.fullmove_number,
            b.hash ^ zobrist_hash(b) == self.hash ^ zobrist_hash(*self),
            self.wf() ==> b.wf(),
    {
        let mut b = *self;
        let ghost epo = ep_part(self.en_passant);
        match self.en_passant {
            Some(ep) => {
                b.hash = b.hash ^ en_passant_key_of(ep % 8);
            },
            None => {
                proof {
                    lemma_xor_swap(b.hash, 0, 0);
                }
            },
        }
        b.en_passant = None;
        b.side_to_move = self.side_to_move.opposite();
        b.hash = b.hash ^ SIDE_TO_MOVE_KEY;
        b.halfmove_clock = b.halfmove_clock + 1;
        proof {
            let s0 = squares_hash(self.mailbox@, 64);
            let cp = castling_part(self.castling);
            lemma_xor_self(cp);
            lemma_xor_self(self.hash ^ epo);
            lemma_xor_swap(self.hash ^ epo, s0, s0);
            lemma_xor_swap(0, SIDE_TO_MOVE_KEY, 0);
            lemma_xor_swap(SIDE_TO_MOVE_KEY, 0, 0);
            lemma_make_move_hash(
                self.hash,
                s0,
                s0,
                self.hash ^ epo,
                epo,
                0,
                SIDE_TO_MOVE_KEY,
                side_part(self.side_to_move),
                side_part(b.side_to_move),
                cp,
                cp,
                0,
            );
            lemma_xor_swap(self.hash ^ epo, s0, s0);
            lemma_xor_self(cp);
            assert(((self.hash ^ epo) ^ s0) ^ s0 == self.hash ^ epo);
            assert(b.hash == ((((self.hash ^ epo) ^ 0u64) ^ 0u64) ^ SIDE_TO_MOVE_KEY));
        }
        b
    }
}


// ---------------------------------------------------------------------------
// The initial position
// ---------------------------------------------------------------------------

/// Kind of the piece that starts on file `f` of the back rank.
pub open spec fn back_rank_kind(f: int) -> PieceType {
    if f == 0 || f == 7 {
        PieceType::Rook
    } else if f == 1 || f == 6 {
        PieceType::Knight
    } else if f == 2 || f == 5 {
        PieceType::Bishop
    } else if f == 3 {
        PieceType::Queen
    } else {
        PieceType::King
    }
}

/// The piece on square `s` in the initial position.
pub open spec fn start_piece(s: int) -> Option<Piece> {
    let r = s / 8;
    let f = s % 8;
    if r == 0 {
        Some(Piece { color: Color::White, kind: back_rank_kind(f) })
    } else if r == 1 {
        Some(Piece { color: Color::White, kind: PieceType::Pawn })
    } else if r == 6 {
        Some(Piece { color: Color::Black, kind: PieceType::Pawn })
    } else if r == 7 {
        Some(Piece { color: Color::Black, kind: back_rank_kind(f) })
    } else {
        None
    }
}

proof fn lemma_squares_hash_empty(n: int)
    requires
        0 <= n <= 64,
    ensures
        squares_hash(Seq::new(64, |s: int| None::<Piece>), n) == 0,
    decreases n,
{
    if n > 0 {
        lemma_squares_hash_empty(n - 1);
        lemma_xor_self(0);
    }
}

fn back_rank_kind_of(f: u8) -> (k: PieceType)
    requires
        f < 8,
    ensures
        k == back_rank_kind(f as int),
{
    if f == 0 || f == 7 {
        PieceType::Rook
    } else if f == 1 || f == 6 {
        PieceType::Knight
    } else if f == 2 || f == 5 {
        PieceType::Bishop
    } else if f == 3 {
        PieceType::Queen
    } else {
        PieceType::King
    }
}

impl Board {
    /// The initial position: "rnbqkbnr/pppppppp/8/8/8/8/PPPPPPPP/RNBQKBNR w KQkq - 0 1".
    pub fn start_pos() -> (b: Board)
        ensures
            b.wf(),
            forall|s: int| 0 <= s < 64 ==> #[trigger] b.mailbox[s] == start_piece(s),
            b.side_to_move == Color::White,
            b.castling.white_kingside && b.castling.white_queenside && b.castling.black_kingside
                && b.castling.black_queenside,
            b.en_passant is None,
            b.halfmove_clock == 0,
            b.fullmove_number == 1,
            b.hash == zobrist_hash(b),
    {
        let mut pieces = [[EMPTY; 6]; 2];
        let mut mailbox: [Option<Piece>; 64] = [None; 64];
        let mut hash: u64 = 0;
        proof {
            assert(mailbox@ =~= Seq::new(64, |s: int| None::<Piece>));
            lemma_squares_hash_empty(64);
            lemma_xor_self(0);
            assert forall|cc: int, kk: int, ss: int|
                0 <= cc < 2 && 0 <= kk < 6 && 0 <= ss < 64 implies (#[trigger] has_bit(pieces[cc][kk], ss)
                    <==> mailbox[ss] == Some(piece_of(cc, kk))) by {
                crate::bitboard::lemma_bit_zero(ss as u64);
            }
        }
        let mut sq: u8 = 0;
        while sq < 64
            invariant
                sq <= 64,
                placement_ok(pieces, mailbox),
                forall|s: int| 0 <= s < sq ==> #[trigger] mailbox[s] == start_piece(s),
                forall|s: int| sq <= s < 64 ==> #[trigger] mailbox[s] is None,
                hash ^ squares_hash(mailbox@, 64) == 0,
            decreases 64 - sq,
        {
            let rank = sq / 8;
            let file = sq % 8;
            if rank == 0 {
                put_piece(&mut pieces, &mut mailbox, &mut hash, Color::White, back_rank_kind_of(file), sq);
            } else if rank == 1 {
                put_piece(&mut pieces, &mut mailbox, &mut hash, Color::White, PieceType::Pawn, sq);
            } else if rank == 6 {
                put_piece(&mut pieces, &mut mailbox, &mut hash, Color::Black, PieceType::Pawn, sq);
            } else if rank == 7 {
                put_piece(&mut pieces, &mut mailbox, &mut hash, Color::Black, back_rank_kind_of(file), sq);
            }
            sq = sq + 1;
        }
        let ghost sh = hash;
        let castling = CastlingRights {
            white_kingside: true,
            white_queenside: true,
            black_kingside: true,
            black_queenside: true,
        };
        let k0 = castling_key_of(0);
        let k1 = castling_key_of(1);
        let k2 = castling_key_of(2);
        let k3 = castling_key_of(3);
        hash = hash ^ k0;
        hash = hash ^ k1;
        hash = hash ^ k2;
        hash = hash ^ k3;
        let b = Board {
            pieces,
            mailbox,
            side_to_move: Color::White,
            castling,
            en_passant: None,
            halfmove_clock: 0,
            fullmove_number: 1,
            hash,
        };
        proof {
            let s = squares_hash(mailbox@, 64);
            assert(sh ^ s == 0);
            assert(sh == s) by (bit_vector)
                requires
                    sh ^ s == 0,
            ;
            assert((((sh ^ k0) ^ k1) ^ k2) ^ k3 == (((s ^ 0u64) ^ (((k0 ^ k1) ^ k2) ^ k3)) ^ 0u64)) by (bit_vector)
                requires
                    sh == s,
            ;
        }
        b
    }
}

/// Whether both sides have a king.
pub fn has_both_kings(b: &Board) -> (r: bool)
    ensures
        r == (has_king(*b, Color::White) && has_king(*b, Color::Black)),
{
    b.pieces[0][5] != 0 && b.pieces[1][5] != 0
}

} // verus!
