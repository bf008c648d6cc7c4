//! Opening books in the Polyglot format.
//!
//! A book is a list of 16-byte entries sorted by position key: the key
//! (u64), an encoded move (u16), a weight (u16) and a learning field (u32,
//! unused here), all big-endian. The key is a Zobrist hash over the
//! standard table of 781 Polyglot random numbers, distinct from the
//! engine's own position hash; the table is handed to the functions that
//! need it.

use vstd::prelude::*;
use crate::bitboard::{get_bit, has_bit};
use crate::board::Board;
use crate::movegen::{counters_ok, generate_legal_moves, is_legal, position_ok};
use crate::moves::{kind_promotion, Move};
use crate::types::{make_square, Color, Piece, PieceType, Square, A1, A8, C1, C8, E1, E8, G1, G8, H1, H8};

verus! {

/// Size of a book entry, in bytes.
pub const ENTRY_SIZE: usize = 16;

/// Number of random values of the Polyglot key table.
pub const POLYGLOT_KEYS: usize = 781;

// ---------------------------------------------------------------------------
// Position keys
// ---------------------------------------------------------------------------

/// Polyglot piece index: black pawn 0, white pawn 1, black knight 2, ...,
/// white king 11.
pub open spec fn pg_piece_index(color: Color, kind: PieceType) -> int {
    kind.spec_index() as int * 2 + if color == Color::White { 1int } else { 0int }
}

fn polyglot_piece_index(color: Color, kind: PieceType) -> (r: usize)
    ensures
        r == pg_piece_index(color, kind),
        r < 12,
{
    kind.index() * 2 + if color == Color::White { 1 } else { 0 }
}

/// Key of the piece (if any) on square `s`.
pub open spec fn pg_square_key(keys: Seq<u64>, p: Option<Piece>, s: int) -> u64 {
    match p {
        Some(pc) => keys[64 * pg_piece_index(pc.color, pc.kind) + s],
        None => 0,
    }
}

/// Keys of the pieces on squares `0..n`.
pub open spec fn pg_squares(keys: Seq<u64>, mb: Seq<Option<Piece>>, n: int) -> u64
    decreases n,
{
    if n <= 0 {
        0
    } else {
        pg_squares(keys, mb, n - 1) ^ pg_square_key(keys, mb[n - 1], n - 1)
    }
}

/// The row of a piece in the Polyglot key table, as the Polyglot book
/// format fixes it: black pawn 0, white pawn 1, black knight 2, white
/// knight 3, black bishop 4, white bishop 5, black rook 6, white rook 7,
/// black queen 8, white queen 9, black king 10, white king 11.
pub open spec fn polyglot_row(p: Piece) -> int {
    let w: int = if p.color == Color::White { 1 } else { 0 };
    match p.kind {
        PieceType::Pawn => w,
        PieceType::Knight => 2 + w,
        PieceType::Bishop => 4 + w,
        PieceType::Rook => 6 + w,
        PieceType::Queen => 8 + w,
        PieceType::King => 10 + w,
    }
}

/// Adding a piece to empty square `s` of the first `n` squares changes
/// their keys by the key of that piece there.
proof fn lemma_pg_squares_add(keys: Seq<u64>, mb: Seq<Option<Piece>>, s: int, p: Piece, n: int)
    requires
        0 <= s < 64,
        mb.len() == 64,
        mb[s] is None,
        0 <= n <= 64,
    ensures
        pg_squares(keys, mb.update(s, Some(p)), n) == pg_squares(keys, mb, n) ^ (if n > s {
            pg_square_key(keys, Some(p), s)
        } else {
            0u64
        }),
    decreases n,
{
    let mb2 = mb.update(s, Some(p));
    if n > 0 {
        lemma_pg_squares_add(keys, mb, s, p, n - 1);
        let a = pg_squares(keys, mb, n - 1);
        let k = pg_square_key(keys, Some(p), s);
        if n - 1 == s {
            assert(pg_square_key(keys, mb[n - 1], n - 1) == 0);
            assert((a ^ 0u64) ^ k == a ^ k) by (bit_vector);
        } else if n - 1 > s {
            assert(mb2[n - 1] == mb[n - 1]);
            let x = pg_square_key(keys, mb[n - 1], n - 1);
            assert((a ^ k) ^ x == (a ^ x) ^ k) by (bit_vector);
        } else {
            assert(mb2[n - 1] == mb[n - 1]);
            let x = pg_square_key(keys, mb[n - 1], n - 1);
            assert((a ^ 0u64) ^ x == (a ^ x) ^ 0u64) by (bit_vector);
        }
    } else {
        assert(0u64 ^ 0u64 == 0u64) by (bit_vector);
    }
}

/// Putting piece `p` on the empty square `s` of a position, nothing else
/// changed, changes its Polyglot key by the key in row `polyglot_row(p)`,
/// column `s` of the key table: the standard Polyglot layout, so that a
/// position hashes as it does in every Polyglot book.
pub proof fn lemma_pg_hash_adds_piece(keys: Seq<u64>, b: Board, b2: Board, s: int, p: Piece)
    requires
        keys.len() == 781,
        0 <= s < 64,
        b.mailbox@[s] is None,
        b2.mailbox@ == b.mailbox@.update(s, Some(p)),
        b2.pieces == b.pieces,
        b2.side_to_move == b.side_to_move,
        b2.castling == b.castling,
        b2.en_passant == b.en_passant,
    ensures
        pg_hash(keys, b2) == pg_hash(keys, b) ^ keys[64 * polyglot_row(p) + s],
{
    lemma_pg_squares_add(keys, b.mailbox@, s, p, 64);
    assert(pg_piece_index(p.color, p.kind) == polyglot_row(p));
    let a = pg_squares(keys, b.mailbox@, 64);
    let k = keys[64 * polyglot_row(p) + s];
    let c = ((pg_right(keys, b.castling.white_kingside, 0) ^ pg_right(keys, b.castling.white_queenside, 1))
        ^ pg_right(keys, b.castling.black_kingside, 2)) ^ pg_right(keys, b.castling.black_queenside, 3);
    let e = match b.en_passant {
        Some(x) => if ep_capturer(b, x as int) {
            keys[772 + (x as int) % 8]
        } else {
            0
        },
        None => 0,
    };
    let d = if b.side_to_move == Color::White {
        keys[780]
    } else {
        0
    };
    assert(((a ^ k) ^ c ^ e) ^ d == (((a ^ c) ^ e) ^ d) ^ k) by (bit_vector);
}

pub open spec fn pg_right(keys: Seq<u64>, held: bool, i: int) -> u64 {
    if held {
        keys[768 + i]
    } else {
        0
    }
}

/// A pawn of the side to move stands next to the pawn that has just made
/// a double step, ready to take it en passant.
pub open spec fn ep_capturer(b: Board, ep: int) -> bool {
    let f = ep % 8;
    let pawn_rank = if b.side_to_move == Color::White { ep / 8 - 1 } else { ep / 8 + 1 };
    let pawns = b.pieces[b.side_to_move.spec_index() as int][0];
    (f > 0 && has_bit(pawns, pawn_rank * 8 + f - 1)) || (f < 7 && has_bit(pawns, pawn_rank * 8 + f + 1))
}

/// The Polyglot key of a position: the keys of the pieces, of each castling
/// right, of the en passant file when a pawn can take there, and of White
/// to move.
pub open spec fn pg_hash(keys: Seq<u64>, b: Board) -> u64 {
    let pieces = pg_squares(keys, b.mailbox@, 64);
    let castle = ((pg_right(keys, b.castling.white_kingside, 0) ^ pg_right(keys, b.castling.white_queenside, 1))
        ^ pg_right(keys, b.castling.black_kingside, 2)) ^ pg_right(keys, b.castling.black_queenside, 3);
    let ep = match b.en_passant {
        Some(e) => if ep_capturer(b, e as int) {
            keys[772 + (e as int) % 8]
        } else {
            0
        },
        None => 0,
    };
    let side = if b.side_to_move == Color::White {
        keys[780]
    } else {
        0
    };
    ((pieces ^ castle) ^ ep) ^ side
}

/// The Polyglot key of a position, over the table `keys` of 781 random
/// numbers. The en passant square must leave a rank for the pawn that would
/// take there (not the first rank with White to move, nor the eighth with
/// Black to move).
pub fn polyglot_hash(board: &Board, keys: &Vec<u64>) -> (h: u64)
    requires
        keys@.len() == POLYGLOT_KEYS,
        board.en_passant matches Some(e) ==> e < 64 && (board.side_to_move == Color::White ==> e >= 8) && (
        board.side_to_move == Color::Black ==> e < 56),
    ensures
        h == pg_hash(keys@, *board),
{
    let mut h: u64 = 0;
    let mut sq: usize = 0;
    while sq < 64
        invariant
            sq <= 64,
            keys@.len() == POLYGLOT_KEYS,
            h == pg_squares(keys@, board.mailbox@, sq as int),
        decreases 64 - sq,
    {
        match board.mailbox[sq] {
            Some(p) => {
                let idx = polyglot_piece_index(p.color, p.kind);
                h = h ^ keys[64 * idx + sq];
            },
            None => {
                proof {
                    crate::board::lemma_xor_swap(h, 0, 0);
                }
            },
        }
        sq += 1;
    }
    let ghost pieces = h;
    let k0 = if board.castling.white_kingside { keys[768] } else { 0 };
    let k1 = if board.castling.white_queenside { keys[769] } else { 0 };
    let k2 = if board.castling.black_kingside { keys[770] } else { 0 };
    let k3 = if board.castling.black_queenside { keys[771] } else { 0 };
    let castle = ((k0 ^ k1) ^ k2) ^ k3;
    h = h ^ castle;
    let mut ep_key: u64 = 0;
    match board.en_passant {
        Some(ep) => {
            let ep_file = ep % 8;
            let ep_rank = ep / 8;
            let us = board.side_to_move;
            let pawn_rank = if us == Color::White { ep_rank - 1 } else { ep_rank + 1 };
            let our_pawns = board.pieces[us.index()][0];
            let mut capturer_present = false;
            if ep_file > 0 && get_bit(our_pawns, make_square(ep_file - 1, pawn_rank)) {
                capturer_present = true;
            }
            if ep_file < 7 && get_bit(our_pawns, make_square(ep_file + 1, pawn_rank)) {
                capturer_present = true;
            }
            if capturer_present {
                ep_key = keys[772 + ep_file as usize];
            }
        },
        None => {},
    }
    h = h ^ ep_key;
    let side = if board.side_to_move == Color::White { keys[780] } else { 0 };
    h = h ^ side;
    h
}

// ---------------------------------------------------------------------------
// Book moves
// ---------------------------------------------------------------------------

/// The origin of a raw book move.
pub open spec fn raw_from(raw: u16) -> int {
    ((raw >> 6u16) & 0x3f) as int
}

/// The destination of a raw book move, castling written as the king
/// taking its own rook (e1h1) read as the king's real destination (e1g1).
pub open spec fn raw_to(raw: u16) -> int {
    let from = raw_from(raw);
    let to = (raw & 0x3f) as int;
    if from == E1 && to == H1 {
        G1 as int
    } else if from == E1 && to == A1 {
        C1 as int
    } else if from == E8 && to == H8 {
        G8 as int
    } else if from == E8 && to == A8 {
        C8 as int
    } else {
        to
    }
}

/// The promotion of a raw book move.
pub open spec fn raw_promotion(raw: u16) -> Option<PieceType> {
    let p = (raw >> 12u16) & 0x7;
    if p == 1 {
        Some(PieceType::Knight)
    } else if p == 2 {
        Some(PieceType::Bishop)
    } else if p == 3 {
        Some(PieceType::Rook)
    } else if p == 4 {
        Some(PieceType::Queen)
    } else {
        None
    }
}

/// `m` is the move a raw book move describes.
pub open spec fn decodes_to(raw: u16, m: Move) -> bool {
    m.from as int == raw_from(raw) && m.to as int == raw_to(raw) && kind_promotion(m.kind) == raw_promotion(raw)
}

/// The first move of `legal` that the raw book move describes.
fn decode_polyglot_move(raw: u16, legal: &Vec<Move>) -> (r: Option<Move>)
    ensures
        match r {
            Some(m) => legal@.contains(m) && decodes_to(raw, m),
            None => forall|i: int| 0 <= i < legal@.len() ==> !decodes_to(raw, #[trigger] legal@[i]),
        },
{
    let to_raw: u8 = (raw & 0x3f) as u8;
    let from_raw: u8 = ((raw >> 6u16) & 0x3f) as u8;
    let promo_part: u16 = (raw >> 12u16) & 0x7;
    assert((raw & 0x3f) < 64) by (bit_vector);
    assert(((raw >> 6u16) & 0x3f) < 64) by (bit_vector);
    let to_sq: Square = if from_raw == E1 && to_raw == H1 {
        G1
    } else if from_raw == E1 && to_raw == A1 {
        C1
    } else if from_raw == E8 && to_raw == H8 {
        G8
    } else if from_raw == E8 && to_raw == A8 {
        C8
    } else {
        to_raw
    };
    let promotion = if promo_part == 1 {
        Some(PieceType::Knight)
    } else if promo_part == 2 {
        Some(PieceType::Bishop)
    } else if promo_part == 3 {
        Some(PieceType::Rook)
    } else if promo_part == 4 {
        Some(PieceType::Queen)
    } else {
        None
    };
    let mut i: usize = 0;
    while i < legal.len()
        invariant
            i <= legal.len(),
            from_raw as int == raw_from(raw),
            to_sq as int == raw_to(raw),
            promotion == raw_promotion(raw),
            forall|j: int| 0 <= j < i ==> !decodes_to(raw, #[trigger] legal@[j]),
        decreases legal.len() - i,
    {
        let mv = legal[i];
        if mv.from == from_raw && mv.to == to_sq && mv.promotion() == promotion {
            proof {
                assert(legal@[i as int] == mv);
            }
            return Some(mv);
        }
        i += 1;
    }
    None
}

// ---------------------------------------------------------------------------
// The book
// ---------------------------------------------------------------------------

/// A Polyglot book held in memory.
pub struct Book {
    data: Vec<u8>,
}

/// The big-endian 64-bit value of the eight bytes from position `i`.
pub open spec fn be64(d: Seq<u8>, i: int) -> int {
    d[i] * 0x100_0000_0000_0000 + d[i + 1] * 0x1_0000_0000_0000 + d[i + 2] * 0x100_0000_0000 + d[i + 3]
        * 0x1_0000_0000 + d[i + 4] * 0x100_0000 + d[i + 5] * 0x1_0000 + d[i + 6] * 0x100 + d[i + 7]
}

/// The big-endian 16-bit value of the two bytes from position `i`.
pub open spec fn be16(d: Seq<u8>, i: int) -> int {
    d[i] * 0x100 + d[i + 1]
}

/// Entry `i` lies within `len` bytes.
proof fn lemma_entry_in_range(i: int, len: int)
    by (nonlinear_arith)
    requires
        0 <= i < len / 16,
        len >= 0,
    ensures
        16 * i + 16 <= len,
        i * 16 + 16 <= len,
{
}

impl Book {
    /// The bytes hold whole entries, at least one.
    pub closed spec fn wf(&self) -> bool {
        self.data@.len() > 0 && self.data@.len() % 16 == 0
    }

    pub closed spec fn bytes(&self) -> Seq<u8> {
        self.data@
    }

    /// Number of entries.
    pub open spec fn size(&self) -> int {
        (self.bytes().len() / 16) as int
    }

    /// The key of entry `i`.
    pub open spec fn key_at(&self, i: int) -> int {
        be64(self.bytes(), 16 * i)
    }

    /// The raw move of entry `i`.
    pub open spec fn raw_at(&self, i: int) -> int {
        be16(self.bytes(), 16 * i + 8)
    }

    /// The weight of entry `i`.
    pub open spec fn weight_at(&self, i: int) -> int {
        be16(self.bytes(), 16 * i + 10)
    }

    /// The entries are in order of their keys, as the format prescribes.
    pub open spec fn sorted(&self) -> bool {
        forall|i: int, j: int| 0 <= i <= j < self.size() ==> self.key_at(i) <= self.key_at(j)
    }

    /// A book over the given bytes, when they hold whole entries (at least one).
    pub fn from_bytes(data: Vec<u8>) -> (r: Option<Book>)
        ensures
            match r {
                Some(b) => b.wf() && b.bytes() == data@,
                None => data@.len() == 0 || data@.len() % 16 != 0,
            },
    {
        if data.len() == 0 || data.len() % ENTRY_SIZE != 0 {
            return None;
        }
        Some(Book { data })
    }

    /// Number of entries.
    fn len(&self) -> (r: usize)
        requires
            self.wf(),
        ensures
            r == self.size(),
    {
        self.data.len() / ENTRY_SIZE
    }

    fn entry_key(&self, i: usize) -> (r: u64)
        requires
            self.wf(),
            i < self.size(),
        ensures
            r == self.key_at(i as int),
    {
        proof {
            lemma_entry_in_range(i as int, self.data@.len() as int);
        }
        assert(i * 16 + 16 <= self.data.len());
        let base = i * 16;
        let d = &self.data;
        let r = (d[base] as u64) * 0x100_0000_0000_0000 + (d[base + 1] as u64) * 0x1_0000_0000_0000 + (d[base
            + 2] as u64) * 0x100_0000_0000 + (d[base + 3] as u64) * 0x1_0000_0000 + (d[base + 4] as u64)
            * 0x100_0000 + (d[base + 5] as u64) * 0x1_0000 + (d[base + 6] as u64) * 0x100 + (d[base + 7] as u64);
        r
    }

    fn entry_u16(&self, i: usize, offset: usize) -> (r: u16)
        requires
            self.wf(),
            i < self.size(),
            offset == 8 || offset == 10,
        ensures
            r == be16(self.bytes(), 16 * i + offset),
    {
        proof {
            lemma_entry_in_range(i as int, self.data@.len() as int);
        }
        assert(i * 16 + 16 <= self.data.len());
        let base = i * 16 + offset;
        (self.data[base] as u16) * 256 + (self.data[base + 1] as u16)
    }

    /// The first entry whose key is not below `key` (the number of entries
    /// when there is none), by binary search.
    fn bisect_left(&self, key: u64) -> (r: usize)
        requires
            self.wf(),
        ensures
            r <= self.size(),
            self.sorted() ==> (forall|i: int| 0 <= i < r ==> self.key_at(i) < key),
            self.sorted() ==> (forall|i: int| r <= i < self.size() ==> self.key_at(i) >= key),
    {
        let mut lo: usize = 0;
        let mut hi: usize = self.len();
        while lo < hi
            invariant
                self.wf(),
                lo <= hi <= self.size(),
                self.sorted() ==> (forall|i: int| 0 <= i < lo ==> self.key_at(i) < key),
                self.sorted() ==> (forall|i: int| hi <= i < self.size() ==> self.key_at(i) >= key),
            decreases hi - lo,
        {
            let mid = lo + (hi - lo) / 2;
            if self.entry_key(mid) < key {
                lo = mid + 1;
            } else {
                hi = mid;
            }
        }
        lo
    }

    /// The book moves of a position, with their weights, in the order of
    /// the book: each entry with the position's key whose move is legal
    /// there (entries whose move is not legal are left out).
    pub fn probe(&self, board: &Board, keys: &Vec<u64>) -> (r: Vec<(Move, u32)>)
        requires
            self.wf(),
            keys@.len() == POLYGLOT_KEYS,
            position_ok(*board),
            counters_ok(*board),
        ensures
            forall|j: int| 0 <= j < r@.len() ==> is_legal(*board, (#[trigger] r@[j]).0),
            self.sorted() ==> probe_result(*self, *board, pg_hash(keys@, *board) as int, 0, self.size(), r@),
    {
        proof {
            lemma_ep_range(*board);
        }
        let key = polyglot_hash(board, keys);
        let legal = generate_legal_moves(board);
        let mut results: Vec<(Move, u32)> = Vec::new();
        let start = self.bisect_left(key);
        let n = self.len();
        proof {
            if self.sorted() {
                lemma_probe_skip(*self, *board, key as int, 0, start as int, results@);
            }
        }
        let mut i = start;
        while i < n && self.entry_key(i) == key
            invariant
                self.wf(),
                start <= i <= n,
                n == self.size(),
                forall|m: Move| #[trigger] legal@.contains(m) <==> is_legal(*board, m),
                forall|j: int| 0 <= j < results@.len() ==> is_legal(*board, (#[trigger] results@[j]).0),
                self.sorted() ==> (forall|j: int| start <= j < i ==> self.key_at(j) == key),
                self.sorted() ==> (forall|j: int| 0 <= j < start ==> self.key_at(j) < key),
                self.sorted() ==> probe_result(*self, *board, key as int, 0, i as int, results@),
            decreases n - i,
        {
            let raw = self.entry_u16(i, 8);
            let ghost before = results@;
            match decode_polyglot_move(raw, &legal) {
                Some(mv) => {
                    let w = self.entry_u16(i, 10);
                    results.push((mv, w as u32));
                    proof {
                        assert(results@.drop_last() =~= before);
                    }
                },
                None => {
                    proof {
                        assert forall|m: Move| is_legal(*board, m) implies !decodes_to(raw, m) by {
                            assert(legal@.contains(m));
                        }
                    }
                },
            }
            i += 1;
        }
        proof {
            if self.sorted() {
                assert forall|j: int| i <= j < n implies self.key_at(j) != key by {
                    assert(self.key_at(i as int) <= self.key_at(j));
                    assert(self.key_at(i as int) >= key);
                }
                lemma_probe_skip(*self, *board, key as int, i as int, n as int, Seq::empty());
                lemma_probe_concat(*self, *board, key as int, 0, i as int, n as int, results@);
            }
        }
        results
    }
}

/// The en passant square of a consistent position lies on the third or
/// sixth rank.
proof fn lemma_ep_range(b: Board)
    requires
        position_ok(b),
    ensures
        b.en_passant matches Some(e) ==> 16 <= e < 48,
{
}

/// The book moves of the entries `lo..hi` that carry the key `key`: each
/// entry with a legal move (the one it decodes to) and its weight, in order.
pub open spec fn probe_result(book: Book, b: Board, key: int, lo: int, hi: int, r: Seq<(Move, u32)>) -> bool
    decreases hi - lo,
{
    if hi <= lo {
        r.len() == 0
    } else {
        let i = hi - 1;
        let raw = book.raw_at(i) as u16;
        if book.key_at(i) == key && exists|m: Move| is_legal(b, m) && #[trigger] decodes_to(raw, m) {
            &&& r.len() > 0
            &&& is_legal(b, r.last().0)
            &&& decodes_to(raw, r.last().0)
            &&& r.last().1 == book.weight_at(i)
            &&& probe_result(book, b, key, lo, hi - 1, r.drop_last())
        } else {
            probe_result(book, b, key, lo, hi - 1, r)
        }
    }
}

/// Entries without the key add no book move.
proof fn lemma_probe_skip(book: Book, b: Board, key: int, lo: int, hi: int, r: Seq<(Move, u32)>)
    requires
        lo <= hi,
        r.len() == 0,
        forall|j: int| lo <= j < hi ==> book.key_at(j) != key,
    ensures
        probe_result(book, b, key, lo, hi, r),
    decreases hi - lo,
{
    if hi > lo {
        lemma_probe_skip(book, b, key, lo, hi - 1, r);
    }
}

/// The moves of `lo..mid` followed by none from `mid..hi` are those of `lo..hi`.
proof fn lemma_probe_concat(book: Book, b: Board, key: int, lo: int, mid: int, hi: int, r: Seq<(Move, u32)>)
    requires
        lo <= mid <= hi,
        probe_result(book, b, key, lo, mid, r),
        probe_result(book, b, key, mid, hi, Seq::empty()),
    ensures
        probe_result(book, b, key, lo, hi, r),
    decreases hi - mid,
{
    if hi > mid {
        let i = hi - 1;
        let raw = book.raw_at(i) as u16;
        if book.key_at(i) == key && exists|m: Move| is_legal(b, m) && #[trigger] decodes_to(raw, m) {
            assert(false);
        } else {
            lemma_probe_concat(book, b, key, lo, mid, hi - 1, r);
        }
    }
}

// ---------------------------------------------------------------------------
// Choosing a book move
// ---------------------------------------------------------------------------

/// One step of the xorshift64 generator.
pub open spec fn xorshift(x: u64) -> u64 {
    let a = x ^ (x << 13u64);
    let b = a ^ (a >> 7u64);
    b ^ (b << 17u64)
}

/// A small xorshift64 generator for picking among book moves.
pub struct BookRng(u64);

impl BookRng {
    pub closed spec fn state(&self) -> u64 {
        self.0
    }

    /// A generator seeded with `seed` (1 in place of 0, which would stay 0).
    pub fn new(seed: u64) -> (r: BookRng)
        ensures
            r.state() == (if seed < 1 { 1 } else { seed }),
            r.state() != 0,
    {
        BookRng(if seed < 1 { 1 } else { seed })
    }

    fn next_u64(&mut self) -> (r: u64)
        ensures
            r == xorshift(old(self).state()),
            final(self).state() == r,
    {
        let mut x = self.0;
        x = x ^ (x << 13u64);
        x = x ^ (x >> 7u64);
        x = x ^ (x << 17u64);
        self.0 = x;
        x
    }
}

/// The generator never reaches 0 from a state that is not 0.
pub proof fn lemma_xorshift_nonzero(x: u64)
    requires
        x != 0,
    ensures
        xorshift(x) != 0,
{
    assert(x != 0 ==> ((x ^ (x << 13u64)) ^ ((x ^ (x << 13u64)) >> 7u64)) ^ (((x ^ (x << 13u64)) ^ ((x
        ^ (x << 13u64)) >> 7u64)) << 17u64) != 0) by (bit_vector);
}

/// Sum of the weights of the first `n` entries.
pub open spec fn weight_prefix(e: Seq<(Move, u32)>, n: int) -> int
    decreases n,
{
    if n <= 0 {
        0
    } else {
        weight_prefix(e, n - 1) + e[n - 1].1
    }
}

/// The entry a draw `pick` below the total weight falls on: the first whose
/// running sum of weights exceeds it.
pub open spec fn weighted_pick(e: Seq<(Move, u32)>, pick: int) -> int {
    choose|k: int| 0 <= k < e.len() && #[trigger] weight_prefix(e, k) <= pick < weight_prefix(e, k + 1)
}

proof fn lemma_weight_prefix_mono(e: Seq<(Move, u32)>, a: int, b: int)
    requires
        0 <= a <= b <= e.len(),
    ensures
        0 <= weight_prefix(e, a) <= weight_prefix(e, b),
    decreases b,
{
    if a < b {
        lemma_weight_prefix_mono(e, a, b - 1);
    } else if a > 0 {
        lemma_weight_prefix_mono(e, 0, a - 1);
    }
}

/// Picks a book move with probability proportional to its weight, drawing
/// one number from the generator; when every weight is 0 the draw picks
/// uniformly among the entries. `None` when there are no entries.
pub fn choose_weighted(entries: &Vec<(Move, u32)>, rng: &mut BookRng) -> (r: Option<Move>)
    requires
        entries@.len() <= u32::MAX,
    ensures
        entries@.len() == 0 ==> r is None && final(rng).state() == old(rng).state(),
        entries@.len() > 0 ==> exists|k: int| 0 <= k < entries@.len() && r == Some(#[trigger] entries@[k].0),
        entries@.len() > 0 ==> ({
            let draw = xorshift(old(rng).state());
            let total = weight_prefix(entries@, entries@.len() as int);
            &&& final(rng).state() == draw
            &&& r == Some(
                if total == 0 {
                    entries@[((draw as usize) as int) % (entries@.len() as int)].0
                } else {
                    entries@[weighted_pick(entries@, (draw as int) % total)].0
                },
            )
        }),
{
    if entries.len() == 0 {
        return None;
    }
    let n = entries.len();
    let mut total: u64 = 0;
    let mut i: usize = 0;
    while i < n
        invariant
            i <= n,
            n == entries@.len(),
            n <= u32::MAX,
            total == weight_prefix(entries@, i as int),
            total <= i * 0xffff_ffff,
        decreases n - i,
    {
        assert(total + entries@[i as int].1 <= (i + 1) * 0xffff_ffff) by (nonlinear_arith)
            requires
                total <= i * 0xffff_ffff,
                entries@[i as int].1 <= 0xffff_ffff,
        ;
        assert((i + 1) * 0xffff_ffff <= 0xffff_ffff * 0xffff_ffff) by (nonlinear_arith)
            requires
                i + 1 <= 0xffff_ffff,
        ;
        total = total + entries[i].1 as u64;
        i += 1;
    }
    let draw = rng.next_u64();
    if total == 0 {
        let idx = (draw as usize) % n;
        proof {
            assert(entries@[idx as int].0 == entries[idx as int].0);
        }
        return Some(entries[idx].0);
    }
    let ghost pick0 = (draw as int) % (total as int);
    let mut pick = draw % total;
    let mut k: usize = 0;
    while k < n
        invariant
            k <= n,
            n == entries@.len(),
            total == weight_prefix(entries@, n as int),
            0 <= pick0 < total,
            pick0 == (draw as int) % weight_prefix(entries@, entries@.len() as int),
            draw == xorshift(old(rng).state()),
            rng.state() == draw,
            pick as int == pick0 - weight_prefix(entries@, k as int),
            weight_prefix(entries@, k as int) <= pick0,
        decreases n - k,
    {
        let w = entries[k].1 as u64;
        if pick < w {
            proof {
                assert(weight_prefix(entries@, k + 1) == weight_prefix(entries@, k as int) + entries@[k as int].1);
                assert(weight_prefix(entries@, k as int) <= pick0 < weight_prefix(entries@, k + 1));
                let c = weighted_pick(entries@, pick0);
                assert(0 <= c < entries@.len() && weight_prefix(entries@, c) <= pick0 < weight_prefix(entries@, c + 1));
                if c < k {
                    lemma_weight_prefix_mono(entries@, c + 1, k as int);
                } else if c > k {
                    lemma_weight_prefix_mono(entries@, k + 1, c);
                }
                assert(c == k);
                assert(entries@[k as int].0 == entries@[k as int].0);
                assert(pick0 == (draw as int) % weight_prefix(entries@, entries@.len() as int));
            }
            return Some(entries[k].0);
        }
        pick = pick - w;
        k += 1;
    }
    proof {
        assert(false);
    }
    None
}

} // verus!
