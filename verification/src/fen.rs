//! Forsyth-Edwards Notation: reading and writing board positions as text.
//!
//! A FEN record is a sequence of whitespace-separated fields: the piece
//! placement (ranks 8 to 1 separated by '/', digits counting empty squares),
//! the side to move ("w" or "b"), castling rights ("-" or letters of
//! "KQkq"), the en passant square ("-" or a square name), and optionally the
//! halfmove clock and the fullmove number.

use vstd::prelude::*;
use crate::bitboard::{has_bit, set_bit, squares, Bitboard, EMPTY};
use crate::board::{
    castling_part, ep_part, mailbox_key, piece_of, side_part, squares_hash, zobrist_hash, Board,
    CastlingRights,
};
use crate::types::{fen_char, kind_from_char, square_chars, square_name, string_from_chars, Color, Piece, PieceType, Square};
use crate::zobrist::{castling_key_of, en_passant_key_of, piece_square_key, SIDE_TO_MOVE_KEY};

verus! {

// ---------------------------------------------------------------------------
// Characters and tokens
// ---------------------------------------------------------------------------

/// Unicode White_Space characters (what `char::is_whitespace` accepts).
pub open spec fn is_ws(c: char) -> bool {
    ('\u{9}' <= c && c <= '\u{d}') || c == ' ' || c == '\u{85}' || c == '\u{a0}' || c == '\u{1680}'
        || ('\u{2000}' <= c && c <= '\u{200a}') || c == '\u{2028}' || c == '\u{2029}' || c == '\u{202f}'
        || c == '\u{205f}' || c == '\u{3000}'
}

pub fn char_is_whitespace(c: char) -> (r: bool)
    ensures
        r == is_ws(c),
{
    ('\u{9}' <= c && c <= '\u{d}') || c == ' ' || c == '\u{85}' || c == '\u{a0}' || c == '\u{1680}'
        || ('\u{2000}' <= c && c <= '\u{200a}') || c == '\u{2028}' || c == '\u{2029}' || c == '\u{202f}'
        || c == '\u{205f}' || c == '\u{3000}'
}

/// The characters of a string slice.
pub fn chars_of(s: &str) -> (v: Vec<char>)
    ensures
        v@ == s@,
{
    broadcast use vstd::string::axiom_spec_iter;
    let mut v: Vec<char> = Vec::new();
    for c in it: s.chars()
        invariant
            v@ == it.seq().take(it.index() as int),
    {
        v.push(c);
    }
    v
}

/// Splitting the first `n` characters of `s` at whitespace: the finished
/// tokens and the token being read.
pub open spec fn ws_split_state(s: Seq<char>, n: int) -> (Seq<Seq<char>>, Seq<char>)
    decreases n,
{
    if n <= 0 {
        (Seq::empty(), Seq::empty())
    } else {
        let (toks, cur) = ws_split_state(s, n - 1);
        let c = s[n - 1];
        if is_ws(c) {
            if cur.len() > 0 {
                (toks.push(cur), Seq::empty())
            } else {
                (toks, cur)
            }
        } else {
            (toks, cur.push(c))
        }
    }
}

/// The non-empty runs of non-whitespace characters of `s`, in order.
pub open spec fn ws_tokens(s: Seq<char>) -> Seq<Seq<char>> {
    let (toks, cur) = ws_split_state(s, s.len() as int);
    if cur.len() > 0 {
        toks.push(cur)
    } else {
        toks
    }
}

/// Splitting the first `n` characters of `s` at `sep`, keeping empty pieces.
pub open spec fn sep_split_state(s: Seq<char>, sep: char, n: int) -> (Seq<Seq<char>>, Seq<char>)
    decreases n,
{
    if n <= 0 {
        (Seq::empty(), Seq::empty())
    } else {
        let (toks, cur) = sep_split_state(s, sep, n - 1);
        let c = s[n - 1];
        if c == sep {
            (toks.push(cur), Seq::empty())
        } else {
            (toks, cur.push(c))
        }
    }
}

/// The pieces of `s` between occurrences of `sep` (like `str::split`).
pub open spec fn sep_split(s: Seq<char>, sep: char) -> Seq<Seq<char>> {
    let (toks, cur) = sep_split_state(s, sep, s.len() as int);
    toks.push(cur)
}

pub fn split_whitespace(s: &Vec<char>) -> (r: Vec<Vec<char>>)
    ensures
        r@.len() == ws_tokens(s@).len(),
        forall|i: int| 0 <= i < r@.len() ==> #[trigger] r@[i]@ == ws_tokens(s@)[i],
{
    let mut toks: Vec<Vec<char>> = Vec::new();
    let mut cur: Vec<char> = Vec::new();
    let mut i: usize = 0;
    while i < s.len()
        invariant
            i <= s@.len(),
            toks@.len() == ws_split_state(s@, i as int).0.len(),
            forall|j: int| 0 <= j < toks@.len() ==> #[trigger] toks@[j]@ == ws_split_state(s@, i as int).0[j],
            cur@ == ws_split_state(s@, i as int).1,
        decreases s@.len() - i,
    {
        let c = s[i];
        if char_is_whitespace(c) {
            if cur.len() > 0 {
                toks.push(cur);
                cur = Vec::new();
            }
        } else {
            cur.push(c);
        }
        i = i + 1;
    }
    if cur.len() > 0 {
        toks.push(cur);
    }
    toks
}

pub fn split_on(s: &Vec<char>, sep: char) -> (r: Vec<Vec<char>>)
    ensures
        r@.len() == sep_split(s@, sep).len(),
        forall|i: int| 0 <= i < r@.len() ==> #[trigger] r@[i]@ == sep_split(s@, sep)[i],
{
    let mut toks: Vec<Vec<char>> = Vec::new();
    let mut cur: Vec<char> = Vec::new();
    let mut i: usize = 0;
    while i < s.len()
        invariant
            i <= s@.len(),
            toks@.len() == sep_split_state(s@, sep, i as int).0.len(),
            forall|j: int| 0 <= j < toks@.len() ==> #[trigger] toks@[j]@ == sep_split_state(s@, sep, i as int).0[j],
            cur@ == sep_split_state(s@, sep, i as int).1,
        decreases s@.len() - i,
    {
        let c = s[i];
        if c == sep {
            toks.push(cur);
            cur = Vec::new();
        } else {
            cur.push(c);
        }
        i = i + 1;
    }
    toks.push(cur);
    toks
}

// ---------------------------------------------------------------------------
// Numbers
// ---------------------------------------------------------------------------

pub open spec fn is_digit(c: char) -> bool {
    '0' <= c && c <= '9'
}

pub open spec fn digit_value(c: char) -> int {
    (c as int) - ('0' as int)
}

/// Value of a string of decimal digits.
pub open spec fn decimal_value(s: Seq<char>) -> int
    decreases s.len(),
{
    if s.len() == 0 {
        0
    } else {
        decimal_value(s.drop_last()) * 10 + digit_value(s.last())
    }
}

pub open spec fn all_digits(s: Seq<char>) -> bool {
    forall|i: int| 0 <= i < s.len() ==> is_digit(#[trigger] s[i])
}

/// What `str::parse::<u32>` accepts: an optional '+' followed by at least
/// one decimal digit, with a value that fits in a `u32`.
pub open spec fn parse_u32_spec(s: Seq<char>) -> Option<u32> {
    let body = if s.len() > 0 && s[0] == '+' {
        s.drop_first()
    } else {
        s
    };
    if body.len() > 0 && all_digits(body) && decimal_value(body) <= u32::MAX {
        Some(decimal_value(body) as u32)
    } else {
        None
    }
}

pub proof fn lemma_decimal_value_nonneg(s: Seq<char>)
    requires
        all_digits(s),
    ensures
        decimal_value(s) >= 0,
    decreases s.len(),
{
    if s.len() > 0 {
        assert(all_digits(s.drop_last()));
        lemma_decimal_value_nonneg(s.drop_last());
    }
}

pub fn parse_u32(s: &Vec<char>) -> (r: Option<u32>)
    ensures
        r == parse_u32_spec(s@),
{
    let start: usize = if s.len() > 0 && s[0] == '+' {
        1
    } else {
        0
    };
    let ghost body = if s@.len() > 0 && s@[0] == '+' {
        s@.drop_first()
    } else {
        s@
    };
    assert(body == s@.subrange(start as int, s@.len() as int));
    if start >= s.len() {
        return None;
    }
    let mut value: u64 = 0;
    let mut i: usize = start;
    while i < s.len()
        invariant
            start <= i <= s@.len(),
            body == s@.subrange(start as int, s@.len() as int),
            body == (if s@.len() > 0 && s@[0] == '+' { s@.drop_first() } else { s@ }),
            all_digits(s@.subrange(start as int, i as int)),
            value == decimal_value(s@.subrange(start as int, i as int)),
            value <= u32::MAX,
        decreases s@.len() - i,
    {
        let c = s[i];
        if !('0' <= c && c <= '9') {
            proof {
                assert(body[i - start] == c);
                assert(!is_digit(body[i - start]));
                assert(!all_digits(body));
                assert(parse_u32_spec(s@) is None);
            }
            return None;
        }
        let d = (c as u32 - '0' as u32) as u64;
        let next = value * 10 + d;
        proof {
            let pre = s@.subrange(start as int, i as int);
            let post = s@.subrange(start as int, i + 1);
            assert(post.drop_last() =~= pre);
            assert(post.last() == c);
            assert(all_digits(post));
            assert(decimal_value(post) == value * 10 + d);
        }
        if next > 4294967295 {
            proof {
                let post = s@.subrange(start as int, i + 1);
                assert(body.subrange(0, (i + 1 - start) as int) =~= post);
                assert(decimal_value(post) == next);
                lemma_decimal_prefix_grows(body, (i + 1 - start) as int);
            }
            return None;
        }
        value = next;
        i = i + 1;
    }
    proof {
        assert(s@.subrange(start as int, s@.len() as int) == body);
    }
    Some(value as u32)
}

/// The value of a digit string is at least the value of any of its prefixes.
pub proof fn lemma_decimal_prefix_grows(s: Seq<char>, n: int)
    requires
        0 <= n <= s.len(),
        all_digits(s.subrange(0, n)),
    ensures
        all_digits(s) ==> decimal_value(s) >= decimal_value(s.subrange(0, n)),
    decreases s.len() - n,
{
    if n < s.len() && all_digits(s) {
        let p = s.subrange(0, n);
        let q = s.subrange(0, n + 1);
        assert(q.drop_last() =~= p);
        assert(all_digits(q));
        lemma_decimal_value_nonneg(p);
        lemma_decimal_prefix_grows(s, n + 1);
    } else if n == s.len() {
        assert(s.subrange(0, n) =~= s);
    }
}

/// Decimal text of a number, without leading zeros ("0" for zero).
pub open spec fn decimal_text(n: nat) -> Seq<char>
    decreases n,
{
    if n < 10 {
        seq![(('0' as int) + n) as char]
    } else {
        decimal_text(n / 10).push((('0' as int) + n % 10) as char)
    }
}

pub fn u32_chars(n: u32) -> (v: Vec<char>)
    ensures
        v@ == decimal_text(n as nat),
    decreases n,
{
    if n < 10 {
        let mut v: Vec<char> = Vec::new();
        v.push(((48 + n) as u8) as char);
        assert(v@ =~= decimal_text(n as nat));
        v
    } else {
        let mut v = u32_chars(n / 10);
        v.push(((48 + n % 10) as u8) as char);
        assert(v@ =~= decimal_text(n as nat));
        v
    }
}


// ---------------------------------------------------------------------------
// Reading a FEN record
// ---------------------------------------------------------------------------

/// File counter after adding `d` empty squares, held at 255 at most.
pub open spec fn file_add(file: int, d: int) -> int {
    if file + d > 255 {
        255
    } else {
        file + d
    }
}

/// Colour named by the case of a piece letter.
pub open spec fn letter_color(c: char) -> Color {
    if 'A' <= c && c <= 'Z' {
        Color::White
    } else {
        Color::Black
    }
}

/// One character of a rank: a digit skips empty squares, a piece letter puts
/// a piece on the next file (an error past the eighth file), anything else
/// is an error.
pub open spec fn rank_step(acc: Option<(Seq<Option<Piece>>, int)>, c: char, rank: int) -> Option<
    (Seq<Option<Piece>>, int),
> {
    match acc {
        None => None,
        Some((m, file)) => if is_digit(c) {
            Some((m, file_add(file, digit_value(c))))
        } else if file >= 8 {
            None
        } else {
            match kind_from_char(c) {
                None => None,
                Some(k) => Some(
                    (m.update(rank * 8 + file, Some(Piece { color: letter_color(c), kind: k })), file + 1),
                ),
            }
        },
    }
}

/// Reading the first `n` characters of a rank onto mailbox `m`.
pub open spec fn rank_state(r: Seq<char>, n: int, rank: int, m: Seq<Option<Piece>>) -> Option<
    (Seq<Option<Piece>>, int),
>
    decreases n,
{
    if n <= 0 {
        Some((m, 0))
    } else {
        rank_step(rank_state(r, n - 1, rank, m), r[n - 1], rank)
    }
}

pub open spec fn empty_mailbox() -> Seq<Option<Piece>> {
    Seq::new(64, |s: int| None)
}

/// Reading the first `i` ranks (rank 8 first).
pub open spec fn placement_state(ranks: Seq<Seq<char>>, i: int) -> Option<Seq<Option<Piece>>>
    decreases i,
{
    if i <= 0 {
        Some(empty_mailbox())
    } else {
        match placement_state(ranks, i - 1) {
            None => None,
            Some(m) => match rank_state(ranks[i - 1], ranks[i - 1].len() as int, 7 - (i - 1), m) {
                None => None,
                Some((m2, f)) => Some(m2),
            },
        }
    }
}

/// The mailbox described by the placement field, if it is valid: exactly
/// eight ranks separated by '/'.
pub open spec fn placement(field: Seq<char>) -> Option<Seq<Option<Piece>>> {
    let ranks = sep_split(field, '/');
    if ranks.len() != 8 {
        None
    } else {
        placement_state(ranks, 8)
    }
}

pub open spec fn side_field(s: Seq<char>) -> Option<Color> {
    if s == seq!['w'] {
        Some(Color::White)
    } else if s == seq!['b'] {
        Some(Color::Black)
    } else {
        None
    }
}

pub open spec fn no_rights() -> CastlingRights {
    CastlingRights {
        white_kingside: false,
        white_queenside: false,
        black_kingside: false,
        black_queenside: false,
    }
}

pub open spec fn castling_step(acc: Option<CastlingRights>, c: char) -> Option<CastlingRights> {
    match acc {
        None => None,
        Some(cr) => if c == 'K' {
            Some(CastlingRights { white_kingside: true, ..cr })
        } else if c == 'Q' {
            Some(CastlingRights { white_queenside: true, ..cr })
        } else if c == 'k' {
            Some(CastlingRights { black_kingside: true, ..cr })
        } else if c == 'q' {
            Some(CastlingRights { black_queenside: true, ..cr })
        } else {
            None
        },
    }
}

pub open spec fn castling_state(s: Seq<char>, n: int) -> Option<CastlingRights>
    decreases n,
{
    if n <= 0 {
        Some(no_rights())
    } else {
        castling_step(castling_state(s, n - 1), s[n - 1])
    }
}

/// Castling rights named by the castling field: "-" for none, otherwise
/// letters of "KQkq" (any other letter is an error).
pub open spec fn castling_field(s: Seq<char>) -> Option<CastlingRights> {
    if s == seq!['-'] {
        Some(no_rights())
    } else {
        castling_state(s, s.len() as int)
    }
}

/// The square named by two characters, if any.
pub open spec fn square_of_chars(s: Seq<char>) -> Option<Square> {
    if s.len() == 2 && 'a' <= s[0] && s[0] <= 'h' && '1' <= s[1] && s[1] <= '8' {
        Some((((s[1] as int) - 49) * 8 + ((s[0] as int) - 97)) as u8)
    } else {
        None
    }
}

/// The en passant field: "-" or a square name (anything else counts as no square).
pub open spec fn ep_field(s: Seq<char>) -> Option<Square> {
    if s == seq!['-'] {
        None
    } else {
        square_of_chars(s)
    }
}

/// The position a FEN record describes, as (mailbox, side to move, castling
/// rights, en passant square, halfmove clock, fullmove number), or `None`
/// when the record is rejected. Missing or unreadable clocks count as 0 and 1.
pub open spec fn fen_position(s: Seq<char>) -> Option<
    (Seq<Option<Piece>>, Color, CastlingRights, Option<Square>, u32, u32),
> {
    let t = ws_tokens(s);
    if t.len() < 4 {
        None
    } else {
        match placement(t[0]) {
            None => None,
            Some(mb) => match side_field(t[1]) {
                None => None,
                Some(side) => match castling_field(t[2]) {
                    None => None,
                    Some(cr) => {
                        let hm = if t.len() > 4 {
                            match parse_u32_spec(t[4]) {
                                Some(v) => v,
                                None => 0,
                            }
                        } else {
                            0
                        };
                        let fm = if t.len() > 5 {
                            match parse_u32_spec(t[5]) {
                                Some(v) => v,
                                None => 1,
                            }
                        } else {
                            1
                        };
                        Some((mb, side, cr, ep_field(t[3]), hm, fm))
                    },
                },
            },
        }
    }
}

/// The message of a rejected FEN record: it names the first field that could
/// not be read.
pub open spec fn fen_error(s: Seq<char>) -> Seq<char> {
    let t = ws_tokens(s);
    if t.len() < 4 {
        "FEN incompleto (se esperaban al menos 4 campos): "@ + s
    } else if sep_split(t[0], '/').len() != 8 {
        "La posición FEN debe tener 8 filas, tiene "@ + decimal_text(sep_split(t[0], '/').len())
    } else if placement(t[0]) is None {
        match placement_error(sep_split(t[0], '/'), 0) {
            Some(e) => e,
            None => Seq::empty(),
        }
    } else if side_field(t[1]) is None {
        "Color de turno FEN inválido: "@ + t[1]
    } else {
        "Derecho de enroque FEN inválido: "@ + seq![t[2][first_bad_castling(t[2], 0)]]
    }
}

/// The message for the first character of a rank, from index `i` with the
/// file counter at `file`, that cannot be read: a piece letter past the
/// eighth file, or a character that is neither a digit nor a piece letter.
pub open spec fn rank_error(r: Seq<char>, i: int, file: int) -> Option<Seq<char>>
    decreases r.len() - i,
{
    if i < 0 || i >= r.len() {
        None
    } else {
        let c = r[i];
        if is_digit(c) {
            rank_error(r, i + 1, file_add(file, digit_value(c)))
        } else if file >= 8 {
            Some("Fila FEN excede 8 columnas: "@ + r)
        } else if kind_from_char(c) is None {
            Some("Carácter de pieza FEN inválido: "@ + seq![c])
        } else {
            rank_error(r, i + 1, file + 1)
        }
    }
}

/// The message of the first of the ranks from `i` on that cannot be read.
pub open spec fn placement_error(ranks: Seq<Seq<char>>, i: int) -> Option<Seq<char>>
    decreases 8 - i,
{
    if i < 0 || i >= 8 {
        None
    } else {
        match rank_error(ranks[i], 0, 0) {
            Some(e) => Some(e),
            None => placement_error(ranks, i + 1),
        }
    }
}

/// Index of the first character of `s`, from `i` on, that names no castling
/// right.
pub open spec fn first_bad_castling(s: Seq<char>, i: int) -> int
    decreases s.len() - i,
{
    if i < 0 || i >= s.len() {
        s.len() as int
    } else if s[i] == 'K' || s[i] == 'Q' || s[i] == 'k' || s[i] == 'q' {
        first_bad_castling(s, i + 1)
    } else {
        i
    }
}

/// Squares of ranks below `rank`, and of `rank` from file `file` on, are empty.
pub open spec fn fresh(m: [Option<Piece>; 64], rank: int, file: int) -> bool {
    forall|s: int| 0 <= s < 64 && (s / 8 < rank || (s / 8 == rank && s % 8 >= file)) ==> #[trigger] m[s] is None
}

fn parse_rank(
    chars: &Vec<char>,
    rank: u8,
    pieces: &mut [[Bitboard; 6]; 2],
    mailbox: &mut [Option<Piece>; 64],
) -> (res: Result<(), Vec<char>>)
    requires
        rank < 8,
        crate::board::placement_ok(*old(pieces), *old(mailbox)),
        fresh(*old(mailbox), rank as int, 0),
    ensures
        res is Ok == rank_state(chars@, chars@.len() as int, rank as int, old(mailbox)@) is Some,
        match res {
            Ok(_) => rank_error(chars@, 0, 0) is None,
            Err(e) => rank_error(chars@, 0, 0) == Some(e@),
        },
        res is Ok ==> final(mailbox)@ == (rank_state(chars@, chars@.len() as int, rank as int, old(mailbox)@)->0).0,
        crate::board::placement_ok(*final(pieces), *final(mailbox)),
        res is Ok ==> fresh(*final(mailbox), rank as int, 8) && forall|s: int|
            0 <= s < 64 && s / 8 < rank ==> #[trigger] final(mailbox)[s] is None,
{
    let ghost m0 = mailbox@;
    let mut file: u8 = 0;
    let mut i: usize = 0;
    while i < chars.len()
        invariant
            rank < 8,
            i <= chars@.len(),
            crate::board::placement_ok(*pieces, *mailbox),
            m0 == old(mailbox)@,
            rank_state(chars@, i as int, rank as int, m0) == Some((mailbox@, file as int)),
            fresh(*mailbox, rank as int, file as int),
            rank_error(chars@, 0, 0) == rank_error(chars@, i as int, file as int),
        decreases chars@.len() - i,
    {
        let c = chars[i];
        if '0' <= c && c <= '9' {
            let d = (c as u32 - '0' as u32) as u8;
            file = file.saturating_add(d);
        } else {
            if file >= 8 {
                proof {
                    assert(rank_state(chars@, i as int + 1, rank as int, m0) is None);
                    lemma_rank_state_none(chars@, i as int + 1, rank as int, m0);
                }
                let mut msg = chars_of("Fila FEN excede 8 columnas: ");
                push_all(&mut msg, chars);
                return Err(msg);
            }
            let kind = match PieceType::from_char(c) {
                Some(k) => k,
                None => {
                    proof {
                        assert(rank_state(chars@, i as int + 1, rank as int, m0) is None);
                        lemma_rank_state_none(chars@, i as int + 1, rank as int, m0);
                    }
                    let mut msg = chars_of("Carácter de pieza FEN inválido: ");
                    msg.push(c);
                    return Err(msg);
                },
            };
            let color = if 'A' <= c && c <= 'Z' {
                Color::White
            } else {
                Color::Black
            };
            let sq: u8 = rank * 8 + file;
            let ghost old_mb = *mailbox;
            let ghost old_pieces = *pieces;
            let ci = color.index();
            let ki = kind.index();
            let mut row = pieces[ci];
            row[ki] = set_bit(row[ki], sq);
            pieces[ci] = row;
            mailbox[sq as usize] = Some(Piece::new(color, kind));
            proof {
                assert(old_mb[sq as int] is None);
                assert forall|cc: int, kk: int, ss: int|
                    0 <= cc < 2 && 0 <= kk < 6 && 0 <= ss < 64 implies (#[trigger] has_bit(pieces[cc][kk], ss)
                        <==> mailbox[ss] == Some(piece_of(cc, kk))) by {
                    assert(has_bit(old_pieces[cc][kk], ss) <==> old_mb[ss] == Some(piece_of(cc, kk)));
                    if cc == ci && kk == ki {
                        assert(squares(pieces[cc][kk]).contains(ss) == squares(old_pieces[cc][kk]).insert(sq as int).contains(ss));
                    }
                }
                assert(mailbox@ =~= old_mb@.update(sq as int, Some(Piece { color: letter_color(c), kind: kind })));
            }
            file = file + 1;
        }
        i = i + 1;
    }
    proof {
        assert(chars@.len() == i);
    }
    Ok(())
}

proof fn lemma_rank_state_none(r: Seq<char>, n: int, rank: int, m: Seq<Option<Piece>>)
    requires
        0 <= n <= r.len(),
        rank_state(r, n, rank, m) is None,
    ensures
        rank_state(r, r.len() as int, rank, m) is None,
    decreases r.len() - n,
{
    if n < r.len() {
        lemma_rank_state_none(r, n + 1, rank, m);
    }
}

proof fn lemma_placement_state_none(ranks: Seq<Seq<char>>, i: int, n: int)
    requires
        0 <= i <= n,
        placement_state(ranks, i) is None,
    ensures
        placement_state(ranks, n) is None,
    decreases n - i,
{
    if i < n {
        lemma_placement_state_none(ranks, i + 1, n);
    }
}

/// Reads the placement field into bitboards and mailbox.
fn parse_placement(field: &Vec<char>) -> (r: Result<([[Bitboard; 6]; 2], [Option<Piece>; 64]), Vec<char>>)
    ensures
        r is Err <==> placement(field@) is None,
        r matches Ok((p, m)) ==> m@ == placement(field@)->0 && crate::board::placement_ok(p, m),
        r matches Err(e) ==> e@ == (if sep_split(field@, '/').len() != 8 {
            "La posición FEN debe tener 8 filas, tiene "@ + decimal_text(sep_split(field@, '/').len())
        } else {
            match placement_error(sep_split(field@, '/'), 0) {
                Some(e) => e,
                None => Seq::empty(),
            }
        }),
{
    let ranks = split_on(field, '/');
    if ranks.len() != 8 {
        let mut msg = chars_of("La posición FEN debe tener 8 filas, tiene ");
        let digits = crate::search::u128_chars(ranks.len() as u128);
        push_all(&mut msg, &digits);
        return Err(msg);
    }
    let mut pieces = [[EMPTY; 6]; 2];
    let mut mailbox: [Option<Piece>; 64] = [None; 64];
    proof {
        assert(mailbox@ =~= empty_mailbox());
        assert forall|cc: int, kk: int, ss: int|
            0 <= cc < 2 && 0 <= kk < 6 && 0 <= ss < 64 implies (#[trigger] has_bit(pieces[cc][kk], ss)
                <==> mailbox[ss] == Some(piece_of(cc, kk))) by {
            crate::bitboard::lemma_bit_zero(ss as u64);
        }
    }
    let mut i: usize = 0;
    while i < 8
        invariant
            i <= 8,
            ranks@.len() == 8,
            ranks@.len() == sep_split(field@, '/').len(),
            forall|j: int| 0 <= j < ranks@.len() ==> #[trigger] ranks@[j]@ == sep_split(field@, '/')[j],
            crate::board::placement_ok(pieces, mailbox),
            placement_state(sep_split(field@, '/'), i as int) == Some(mailbox@),
            fresh(mailbox, 7 - i, 0),
            placement_error(sep_split(field@, '/'), 0) == placement_error(sep_split(field@, '/'), i as int),
        decreases 8 - i,
    {
        let rank: u8 = 7 - i as u8;
        let res = parse_rank(&ranks[i], rank, &mut pieces, &mut mailbox);
        match res {
            Err(e) => {
                proof {
                    lemma_placement_state_none(sep_split(field@, '/'), i as int + 1, 8);
                }
                return Err(e);
            },
            Ok(_) => {},
        }
        i = i + 1;
    }
    Ok((pieces, mailbox))
}

pub fn parse_castling(field: &Vec<char>) -> (r: Option<CastlingRights>)
    ensures
        r == castling_field(field@),
        r is None ==> first_bad_castling(field@, 0) < field@.len(),
{
    if field.len() == 1 && field[0] == '-' {
        assert(field@ =~= seq!['-']);
        return Some(CastlingRights::none());
    }
    assert(field@ != seq!['-']);
    let mut cr = CastlingRights::none();
    let mut i: usize = 0;
    while i < field.len()
        invariant
            i <= field@.len(),
            field@ != seq!['-'],
            castling_state(field@, i as int) == Some(cr),
            first_bad_castling(field@, 0) == first_bad_castling(field@, i as int),
        decreases field@.len() - i,
    {
        let c = field[i];
        if c == 'K' {
            cr.white_kingside = true;
        } else if c == 'Q' {
            cr.white_queenside = true;
        } else if c == 'k' {
            cr.black_kingside = true;
        } else if c == 'q' {
            cr.black_queenside = true;
        } else {
            proof {
                assert(castling_state(field@, i as int + 1) is None);
                lemma_castling_state_none(field@, i as int + 1);
            }
            return None;
        }
        i = i + 1;
    }
    Some(cr)
}

/// Index of the first character of `s` that names no castling right.
fn first_bad_castling_index(s: &Vec<char>) -> (k: usize)
    ensures
        k == first_bad_castling(s@, 0),
{
    let mut i: usize = 0;
    while i < s.len()
        invariant
            i <= s@.len(),
            first_bad_castling(s@, 0) == first_bad_castling(s@, i as int),
        decreases s@.len() - i,
    {
        let c = s[i];
        if !(c == 'K' || c == 'Q' || c == 'k' || c == 'q') {
            return i;
        }
        i += 1;
    }
    i
}

proof fn lemma_castling_state_none(s: Seq<char>, n: int)
    requires
        0 <= n <= s.len(),
        castling_state(s, n) is None,
    ensures
        castling_state(s, s.len() as int) is None,
    decreases s.len() - n,
{
    if n < s.len() {
        lemma_castling_state_none(s, n + 1);
    }
}

fn parse_side(field: &Vec<char>) -> (r: Option<Color>)
    ensures
        r == side_field(field@),
{
    if field.len() == 1 && field[0] == 'w' {
        assert(field@ =~= seq!['w']);
        Some(Color::White)
    } else if field.len() == 1 && field[0] == 'b' {
        assert(field@ =~= seq!['b']);
        Some(Color::Black)
    } else {
        assert(field@ != seq!['w'] && field@ != seq!['b']);
        None
    }
}

fn parse_ep(field: &Vec<char>) -> (r: Option<Square>)
    ensures
        r == ep_field(field@),
        r matches Some(e) ==> e < 64,
{
    if field.len() == 1 && field[0] == '-' {
        assert(field@ =~= seq!['-']);
        return None;
    }
    assert(field@ != seq!['-']);
    if field.len() == 2 && 'a' <= field[0] && field[0] <= 'h' && '1' <= field[1] && field[1] <= '8' {
        let f = (field[0] as u32 - 97) as u8;
        let r = (field[1] as u32 - 49) as u8;
        Some(r * 8 + f)
    } else {
        None
    }
}


/// Hash of the pieces on squares `0..64`, computed square by square.
fn hash_squares(mailbox: &[Option<Piece>; 64]) -> (h: u64)
    ensures
        h == squares_hash(mailbox@, 64),
{
    let mut h: u64 = 0;
    let mut sq: u8 = 0;
    while sq < 64
        invariant
            sq <= 64,
            h == squares_hash(mailbox@, sq as int),
        decreases 64 - sq,
    {
        match mailbox[sq as usize] {
            Some(p) => {
                h = h ^ piece_square_key(p.color, p.kind, sq);
            },
            None => {
                proof {
                    crate::board::lemma_xor_self(h);
                }
            },
        }
        sq = sq + 1;
    }
    h
}

impl Board {
    /// Reads a position from a FEN record.
    pub fn from_fen(fen: &str) -> (r: Result<Board, String>)
        ensures
            match r {
                Ok(b) => fen_position(fen@) == Some(
                    (b.mailbox@, b.side_to_move, b.castling, b.en_passant, b.halfmove_clock, b.fullmove_number),
                ) && b.wf() && b.hash == zobrist_hash(b),
                Err(e) => fen_position(fen@) is None && e@ == fen_error(fen@),
            },
    {
        let chars = chars_of(fen);
        let parts = split_whitespace(&chars);
        if parts.len() < 4 {
            let mut msg = chars_of("FEN incompleto (se esperaban al menos 4 campos): ");
            push_all(&mut msg, &chars);
            return Err(string_from_chars(&msg));
        }
        let (pieces, mailbox) = match parse_placement(&parts[0]) {
            Ok(x) => x,
            Err(e) => {
                return Err(string_from_chars(&e));
            },
        };
        let side_to_move = match parse_side(&parts[1]) {
            Some(c) => c,
            None => {
                let mut msg = chars_of("Color de turno FEN inválido: ");
                push_all(&mut msg, &parts[1]);
                return Err(string_from_chars(&msg));
            },
        };
        let castling = match parse_castling(&parts[2]) {
            Some(c) => c,
            None => {
                let mut msg = chars_of("Derecho de enroque FEN inválido: ");
                let k = first_bad_castling_index(&parts[2]);
                msg.push(parts[2][k]);
                return Err(string_from_chars(&msg));
            },
        };
        let en_passant = parse_ep(&parts[3]);
        let halfmove_clock: u32 = if parts.len() > 4 {
            match parse_u32(&parts[4]) {
                Some(v) => v,
                None => 0,
            }
        } else {
            0
        };
        let fullmove_number: u32 = if parts.len() > 5 {
            match parse_u32(&parts[5]) {
                Some(v) => v,
                None => 1,
            }
        } else {
            1
        };

        // Hash computed from scratch (make_move updates it incrementally).
        let mut hash = hash_squares(&mailbox);
        let ghost sh = hash;
        if side_to_move == Color::Black {
            hash = hash ^ SIDE_TO_MOVE_KEY;
        }
        let ghost h1 = hash;
        let k0 = if castling.white_kingside { castling_key_of(0) } else { 0 };
        let k1 = if castling.white_queenside { castling_key_of(1) } else { 0 };
        let k2 = if castling.black_kingside { castling_key_of(2) } else { 0 };
        let k3 = if castling.black_queenside { castling_key_of(3) } else { 0 };
        hash = hash ^ k0;
        hash = hash ^ k1;
        hash = hash ^ k2;
        hash = hash ^ k3;
        let ghost h2 = hash;
        let ek = match en_passant {
            Some(ep) => en_passant_key_of(ep % 8),
            None => 0,
        };
        hash = hash ^ ek;
        let b = Board {
            pieces,
            mailbox,
            side_to_move,
            castling,
            en_passant,
            halfmove_clock,
            fullmove_number,
            hash,
        };
        proof {
            crate::board::lemma_xor_self(sh);
            assert(h1 == sh ^ side_part(side_to_move));
            assert((((h1 ^ k0) ^ k1) ^ k2) ^ k3 == h1 ^ (((k0 ^ k1) ^ k2) ^ k3)) by (bit_vector);
            assert(castling_part(castling) == ((k0 ^ k1) ^ k2) ^ k3);
            assert(ek == ep_part(en_passant));
        }
        Ok(b)
    }
}


// ---------------------------------------------------------------------------
// Writing a FEN record
// ---------------------------------------------------------------------------

/// Text of one rank from file `file` on, `run` empty squares being pending.
pub open spec fn rank_text(mb: Seq<Option<Piece>>, rank: int, file: int, run: int) -> Seq<char>
    decreases 8 - file,
{
    if file >= 8 {
        if run > 0 {
            decimal_text(run as nat)
        } else {
            Seq::empty()
        }
    } else {
        match mb[rank * 8 + file] {
            None => rank_text(mb, rank, file + 1, run + 1),
            Some(p) => (if run > 0 {
                decimal_text(run as nat)
            } else {
                Seq::empty()
            }) + seq![fen_char(p)] + rank_text(mb, rank, file + 1, 0),
        }
    }
}

/// Placement text of ranks `rank` down to 1, separated by '/'.
pub open spec fn placement_text(mb: Seq<Option<Piece>>, rank: int) -> Seq<char>
    decreases rank + 1,
{
    if rank < 0 {
        Seq::empty()
    } else {
        rank_text(mb, rank, 0, 0) + (if rank > 0 {
            seq!['/']
        } else {
            Seq::empty()
        }) + placement_text(mb, rank - 1)
    }
}

pub open spec fn castling_text(c: CastlingRights) -> Seq<char> {
    if !(c.white_kingside || c.white_queenside || c.black_kingside || c.black_queenside) {
        seq!['-']
    } else {
        (if c.white_kingside { seq!['K'] } else { Seq::empty() }) + (if c.white_queenside {
            seq!['Q']
        } else {
            Seq::empty()
        }) + (if c.black_kingside { seq!['k'] } else { Seq::empty() }) + (if c.black_queenside {
            seq!['q']
        } else {
            Seq::empty()
        })
    }
}

pub open spec fn ep_text(e: Option<Square>) -> Seq<char> {
    match e {
        Some(x) => square_name(x as int),
        None => seq!['-'],
    }
}

/// The FEN record of a board.
pub open spec fn fen_text(b: Board) -> Seq<char> {
    placement_text(b.mailbox@, 7) + seq![' '] + (if b.side_to_move == Color::White {
        seq!['w']
    } else {
        seq!['b']
    }) + seq![' '] + castling_text(b.castling) + seq![' '] + ep_text(b.en_passant) + seq![' ']
        + decimal_text(b.halfmove_clock as nat) + seq![' '] + decimal_text(b.fullmove_number as nat)
}

pub(crate) fn push_all(v: &mut Vec<char>, w: &Vec<char>)
    ensures
        final(v)@ == old(v)@ + w@,
{
    let mut i: usize = 0;
    while i < w.len()
        invariant
            i <= w@.len(),
            v@ == old(v)@ + w@.subrange(0, i as int),
        decreases w@.len() - i,
    {
        v.push(w[i]);
        i = i + 1;
        proof {
            assert(w@.subrange(0, i as int) =~= w@.subrange(0, i - 1).push(w@[i - 1]));
        }
    }
    proof {
        assert(w@.subrange(0, w@.len() as int) =~= w@);
    }
}

fn push_rank(v: &mut Vec<char>, mailbox: &[Option<Piece>; 64], rank: u8)
    requires
        rank < 8,
    ensures
        final(v)@ == old(v)@ + rank_text(mailbox@, rank as int, 0, 0),
{
    let mut empty_run: u32 = 0;
    let mut file: u8 = 0;
    while file < 8
        invariant
            rank < 8,
            file <= 8,
            empty_run <= file,
            v@ + rank_text(mailbox@, rank as int, file as int, empty_run as int) == old(v)@ + rank_text(
                mailbox@,
                rank as int,
                0,
                0,
            ),
        decreases 8 - file,
    {
        let ghost before = v@;
        let sq = rank * 8 + file;
        match mailbox[sq as usize] {
            None => {
                empty_run = empty_run + 1;
            },
            Some(p) => {
                let ghost run0 = empty_run;
                if empty_run > 0 {
                    let d = u32_chars(empty_run);
                    push_all(v, &d);
                }
                let ghost mid = v@;
                v.push(p.to_fen_char());
                empty_run = 0;
                proof {
                    let run_text = if run0 > 0 { decimal_text(run0 as nat) } else { Seq::<char>::empty() };
                    assert(mid == before + run_text);
                    assert(rank_text(mailbox@, rank as int, file as int, run0 as int) == run_text + seq![fen_char(p)]
                        + rank_text(mailbox@, rank as int, file + 1, 0));
                    assert(v@ + rank_text(mailbox@, rank as int, file + 1, 0) =~= before + rank_text(
                        mailbox@,
                        rank as int,
                        file as int,
                        run0 as int,
                    ));
                }
            },
        }
        file = file + 1;
    }
    let ghost before_end = v@;
    if empty_run > 0 {
        let d = u32_chars(empty_run);
        push_all(v, &d);
    }
    proof {
        assert(v@ =~= before_end + rank_text(mailbox@, rank as int, 8, empty_run as int));
        assert(v@ =~= old(v)@ + rank_text(mailbox@, rank as int, 0, 0));
    }
}


fn push_placement(v: &mut Vec<char>, mailbox: &[Option<Piece>; 64])
    ensures
        final(v)@ == old(v)@ + placement_text(mailbox@, 7),
{
    let mut rank: i8 = 7;
    while rank >= 0
        invariant
            -1 <= rank <= 7,
            v@ + placement_text(mailbox@, rank as int) == old(v)@ + placement_text(mailbox@, 7),
        decreases rank + 1,
    {
        let ghost before = v@;
        push_rank(v, mailbox, rank as u8);
        if rank > 0 {
            v.push('/');
        }
        proof {
            assert(v@ + placement_text(mailbox@, rank - 1) =~= before + placement_text(mailbox@, rank as int));
        }
        rank = rank - 1;
    }
    proof {
        assert(v@ =~= old(v)@ + placement_text(mailbox@, 7));
    }
}

fn push_castling(v: &mut Vec<char>, c: CastlingRights)
    ensures
        final(v)@ == old(v)@ + castling_text(c),
{
    if !(c.white_kingside || c.white_queenside || c.black_kingside || c.black_queenside) {
        v.push('-');
    } else {
        if c.white_kingside {
            v.push('K');
        }
        if c.white_queenside {
            v.push('Q');
        }
        if c.black_kingside {
            v.push('k');
        }
        if c.black_queenside {
            v.push('q');
        }
    }
    assert(v@ =~= old(v)@ + castling_text(c));
}

fn push_ep(v: &mut Vec<char>, e: Option<Square>)
    ensures
        final(v)@ == old(v)@ + ep_text(e),
{
    match e {
        Some(x) => {
            let w = square_chars(x);
            push_all(v, &w);
        },
        None => {
            v.push('-');
            assert(v@ =~= old(v)@ + ep_text(e));
        },
    }
}

impl Board {
    /// Characters of the FEN record of this board.
    pub fn fen_chars(&self) -> (v: Vec<char>)
        ensures
            v@ == fen_text(*self),
    {
        let mut v: Vec<char> = Vec::new();
        push_placement(&mut v, &self.mailbox);
        let ghost a = v@;
        v.push(' ');
        v.push(if self.side_to_move == Color::White { 'w' } else { 'b' });
        v.push(' ');
        let ghost b = v@;
        push_castling(&mut v, self.castling);
        v.push(' ');
        let ghost c = v@;
        push_ep(&mut v, self.en_passant);
        v.push(' ');
        let ghost d = v@;
        let hm = u32_chars(self.halfmove_clock);
        push_all(&mut v, &hm);
        v.push(' ');
        let fm = u32_chars(self.fullmove_number);
        push_all(&mut v, &fm);
        proof {
            let side = if self.side_to_move == Color::White { seq!['w'] } else { seq!['b'] };
            assert(a =~= placement_text(self.mailbox@, 7));
            assert(b =~= a + seq![' '] + side + seq![' ']);
            assert(c =~= b + castling_text(self.castling) + seq![' ']);
            assert(d =~= c + ep_text(self.en_passant) + seq![' ']);
            assert(v@ =~= d + decimal_text(self.halfmove_clock as nat) + seq![' '] + decimal_text(self.fullmove_number as nat));
            assert(v@ =~= fen_text(*self));
        }
        v
    }

    /// The FEN record of this board.
    pub fn to_fen(&self) -> (s: String)
        ensures
            s@ == fen_text(*self),
    {
        let v = self.fen_chars();
        string_from_chars(&v)
    }
}

// ---------------------------------------------------------------------------
// A diagram of the board
// ---------------------------------------------------------------------------

/// The character shown for a square: the piece's FEN letter, or '.'.
pub open spec fn cell_char(p: Option<Piece>) -> char {
    match p {
        Some(pc) => fen_char(pc),
        None => '.',
    }
}

/// The cells of files `0..n` of `rank`, each followed by a space.
pub open spec fn rank_cells(mb: Seq<Option<Piece>>, rank: int, n: int) -> Seq<char>
    decreases n,
{
    if n <= 0 {
        Seq::empty()
    } else {
        rank_cells(mb, rank, n - 1) + seq![cell_char(mb[rank * 8 + n - 1]), ' ']
    }
}

/// The rows of the first `n` ranks from the eighth down, each labelled
/// with its number.
pub open spec fn diagram_rows(mb: Seq<Option<Piece>>, n: int) -> Seq<char>
    decreases n,
{
    if n <= 0 {
        Seq::empty()
    } else {
        diagram_rows(mb, n - 1) + seq![' ', ' ', (('1' as int) + 8 - n) as char, ' '] + rank_cells(mb, 8 - n, 8)
            + seq!['\n']
    }
}

/// The board drawn rank by rank (the eighth on top), with file letters
/// below and the FEN record last.
pub open spec fn diagram_text(b: Board) -> Seq<char> {
    seq!['\n'] + diagram_rows(b.mailbox@, 8) + "    a b c d e f g h\n"@ + "  FEN: "@ + fen_text(b)
}

impl Board {
    /// The board drawn as text.
    pub fn diagram(&self) -> (s: String)
        ensures
            s@ == diagram_text(*self),
    {
        let mut v: Vec<char> = Vec::new();
        v.push('\n');
        let mut n: u8 = 0;
        while n < 8
            invariant
                n <= 8,
                v@ == seq!['\n'] + diagram_rows(self.mailbox@, n as int),
            decreases 8 - n,
        {
            let rank: u8 = 7 - n;
            let ghost before = v@;
            v.push(' ');
            v.push(' ');
            v.push(((('1' as u8) + rank) as char));
            v.push(' ');
            let mut file: u8 = 0;
            while file < 8
                invariant
                    n < 8,
                    rank == 7 - n,
                    file <= 8,
                    v@ == before + seq![' ', ' ', (('1' as int) + rank) as char, ' '] + rank_cells(
                        self.mailbox@,
                        rank as int,
                        file as int,
                    ),
                decreases 8 - file,
            {
                let c = match self.mailbox[(rank * 8 + file) as usize] {
                    Some(p) => p.to_fen_char(),
                    None => '.',
                };
                v.push(c);
                v.push(' ');
                file += 1;
            }
            v.push('\n');
            proof {
                assert(v@ =~= seq!['\n'] + diagram_rows(self.mailbox@, n + 1));
            }
            n += 1;
        }
        let tail = chars_of("    a b c d e f g h\n");
        push_all(&mut v, &tail);
        let label = chars_of("  FEN: ");
        push_all(&mut v, &label);
        let fen = self.fen_chars();
        push_all(&mut v, &fen);
        proof {
            assert(v@ =~= diagram_text(*self));
        }
        string_from_chars(&v)
    }
}

} // verus!
