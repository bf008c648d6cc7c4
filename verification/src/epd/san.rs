//! Standard algebraic notation (SAN) as it appears in EPD operations:
//! a token such as "Nf3", "exd5", "e8=Q", "O-O" or "Rad1+" is matched
//! against the legal moves of a position.

use vstd::prelude::*;
use crate::board::Board;
use crate::fen::{char_is_whitespace, chars_of, is_ws};
use crate::moves::{kind_is_capture, kind_promotion, Move, MoveKind};
use crate::movegen::{counters_ok, generate_legal_moves, is_legal, position_ok};
use crate::types::{fen_char, kind_from_char, Color, Piece, PieceType};

verus! {

// ---------------------------------------------------------------------------
// Cleaning a token
// ---------------------------------------------------------------------------

/// The text without leading whitespace.
pub open spec fn trim_start(s: Seq<char>) -> Seq<char>
    decreases s.len(),
{
    if s.len() > 0 && is_ws(s[0]) {
        trim_start(s.drop_first())
    } else {
        s
    }
}

/// The text without trailing whitespace.
pub open spec fn trim_end(s: Seq<char>) -> Seq<char>
    decreases s.len(),
{
    if s.len() > 0 && is_ws(s.last()) {
        trim_end(s.drop_last())
    } else {
        s
    }
}

/// The text without leading or trailing whitespace.
pub open spec fn trim(s: Seq<char>) -> Seq<char> {
    trim_end(trim_start(s))
}

/// Check, mate and annotation marks that may close a SAN token.
pub open spec fn is_mark(c: char) -> bool {
    c == '+' || c == '#' || c == '!' || c == '?'
}

/// The text without trailing marks.
pub open spec fn strip_marks(s: Seq<char>) -> Seq<char>
    decreases s.len(),
{
    if s.len() > 0 && is_mark(s.last()) {
        strip_marks(s.drop_last())
    } else {
        s
    }
}

/// A token trimmed of whitespace and of the marks that end it.
pub open spec fn clean_token(s: Seq<char>) -> Seq<char> {
    strip_marks(trim(s))
}

// ---------------------------------------------------------------------------
// Matching a token against a move
// ---------------------------------------------------------------------------

/// Piece kind named by an upper-case SAN piece letter.
pub open spec fn letter_kind(c: char) -> Option<PieceType> {
    if c == 'N' {
        Some(PieceType::Knight)
    } else if c == 'B' {
        Some(PieceType::Bishop)
    } else if c == 'R' {
        Some(PieceType::Rook)
    } else if c == 'Q' {
        Some(PieceType::Queen)
    } else if c == 'K' {
        Some(PieceType::King)
    } else {
        None
    }
}

/// The SAN piece letters are the FEN letters of White's pieces other than
/// the pawn: a character names a piece kind in SAN exactly when it is the
/// upper-case FEN letter of that kind, and the pawn has no letter.
pub proof fn lemma_san_letters_are_fen_letters(c: char, k: PieceType)
    ensures
        letter_kind(c) == Some(k) <==> (k != PieceType::Pawn && c == fen_char(Piece { color: Color::White, kind: k })),
{
    match k {
        PieceType::Pawn => {},
        PieceType::Knight => {},
        PieceType::Bishop => {},
        PieceType::Rook => {},
        PieceType::Queen => {},
        PieceType::King => {},
    }
}

/// Index of the first occurrence of `c` in `s` at or after `i`.
pub open spec fn first_index_from(s: Seq<char>, c: char, i: int) -> Option<int>
    decreases s.len() - i,
{
    if i < 0 || i >= s.len() {
        None
    } else if s[i] == c {
        Some(i)
    } else {
        first_index_from(s, c, i + 1)
    }
}

/// The text with every 'x' removed.
pub open spec fn without_x(s: Seq<char>) -> Seq<char>
    decreases s.len(),
{
    if s.len() == 0 {
        s
    } else if s.last() == 'x' {
        without_x(s.drop_last())
    } else {
        without_x(s.drop_last()).push(s.last())
    }
}

/// File or rank character that agrees with the square a move starts from.
pub open spec fn disambiguates(c: char, from: int) -> bool {
    if 'a' <= c && c <= 'h' {
        from % 8 == (c as int) - 97
    } else if '1' <= c && c <= '8' {
        from / 8 == (c as int) - 49
    } else {
        false
    }
}

/// The square named by the last two characters of a text.
pub open spec fn dest_square(s: Seq<char>) -> Option<int> {
    if s.len() >= 2 {
        let f = s[s.len() - 2];
        let r = s[s.len() - 1];
        if 'a' <= f && f <= 'h' && '1' <= r && r <= '8' {
            Some(((r as int) - 49) * 8 + ((f as int) - 97))
        } else {
            None
        }
    } else {
        None
    }
}

/// Piece kind named by the first character of a token, if it is a piece letter.
pub open spec fn lead_kind(t: Seq<char>) -> Option<PieceType> {
    if t.len() > 0 {
        letter_kind(t[0])
    } else {
        None
    }
}

/// Kind of the piece a token moves (a pawn when no piece letter leads).
pub open spec fn wanted_kind(t: Seq<char>) -> PieceType {
    match lead_kind(t) {
        Some(k) => k,
        None => PieceType::Pawn,
    }
}

/// The token after its piece letter.
pub open spec fn after_lead(t: Seq<char>) -> Seq<char> {
    if lead_kind(t) is Some {
        t.drop_first()
    } else {
        t
    }
}

/// Piece named after the first '=', if any.
pub open spec fn promotion_of(rest: Seq<char>) -> Option<PieceType> {
    match first_index_from(rest, '=', 0) {
        Some(i) => if i + 1 < rest.len() {
            kind_from_char(rest[i + 1])
        } else {
            None
        },
        None => None,
    }
}

/// The text before the first '='.
pub open spec fn before_promotion(rest: Seq<char>) -> Seq<char> {
    match first_index_from(rest, '=', 0) {
        Some(i) => rest.take(i),
        None => rest,
    }
}

/// The text before the destination square (its last two characters).
pub open spec fn prefix_of(body: Seq<char>) -> Seq<char> {
    if body.len() >= 2 {
        body.take(body.len() - 2)
    } else {
        Seq::empty()
    }
}

/// A pawn move's disambiguation: the file it starts from for a capture,
/// nothing otherwise.
pub open spec fn pawn_origin_ok(dis: Seq<char>, capture: bool, from: int) -> bool {
    if capture {
        dis.len() > 0 && 'a' <= dis[0] && dis[0] <= 'h' && from % 8 == (dis[0] as int) - 97
    } else {
        dis.len() == 0
    }
}

/// A piece move's disambiguation: files and ranks of the square it starts from.
pub open spec fn piece_origin_ok(dis: Seq<char>, from: int) -> bool {
    forall|i: int| 0 <= i < dis.len() ==> disambiguates(#[trigger] dis[i], from)
}

/// Whether a (cleaned) SAN token describes the move `m` on board `b`.
///
/// Castling is written "O-O" / "O-O-O" (or with zeros). Otherwise the token
/// is an optional piece letter, optional file/rank disambiguation, an
/// optional 'x' for captures, the destination square, and an optional
/// "=P" promotion suffix. A pawn capture names the file it starts from.
pub open spec fn san_matches_spec(b: Board, m: Move, t: Seq<char>) -> bool {
    if m.kind is CastleKingside {
        t == seq!['O', '-', 'O'] || t == seq!['0', '-', '0']
    } else if m.kind is CastleQueenside {
        t == seq!['O', '-', 'O', '-', 'O'] || t == seq!['0', '-', '0', '-', '0']
    } else {
        match b.mailbox@[m.from as int] {
            None => false,
            Some(piece) => {
                let rest = after_lead(t);
                let body = before_promotion(rest);
                let prefix = prefix_of(body);
                let capture = prefix.contains('x');
                let dis = without_x(prefix);
                &&& piece.kind == wanted_kind(t)
                &&& kind_promotion(m.kind) == promotion_of(rest)
                &&& dest_square(body) == Some(m.to as int)
                &&& capture == kind_is_capture(m.kind)
                &&& if wanted_kind(t) == PieceType::Pawn {
                    pawn_origin_ok(dis, capture, m.from as int)
                } else {
                    piece_origin_ok(dis, m.from as int)
                }
            },
        }
    }
}

/// A legal move that the token describes.
pub open spec fn san_candidate(b: Board, m: Move, t: Seq<char>) -> bool {
    is_legal(b, m) && san_matches_spec(b, m, t)
}

/// The one legal move that the token describes.
pub open spec fn san_resolves_to(b: Board, t: Seq<char>, m: Move) -> bool {
    &&& san_candidate(b, m, t)
    &&& forall|m2: Move| #[trigger] san_candidate(b, m2, t) ==> m2 == m
}

// ---------------------------------------------------------------------------
// Executable parts
// ---------------------------------------------------------------------------

/// The characters of `v[lo..hi]`.
pub fn sub_chars(v: &Vec<char>, lo: usize, hi: usize) -> (r: Vec<char>)
    requires
        lo <= hi <= v.len(),
    ensures
        r@ == v@.subrange(lo as int, hi as int),
{
    let mut out: Vec<char> = Vec::new();
    let mut i: usize = lo;
    while i < hi
        invariant
            lo <= i <= hi <= v.len(),
            out@ == v@.subrange(lo as int, i as int),
        decreases hi - i,
    {
        out.push(v[i]);
        assert(out@ == v@.subrange(lo as int, i as int + 1));
        i += 1;
    }
    out
}

/// Bounds `lo..hi` of the text without leading and trailing whitespace.
fn trim_bounds(v: &Vec<char>) -> (r: (usize, usize))
    ensures
        r.0 <= r.1 <= v.len(),
        trim(v@) == v@.subrange(r.0 as int, r.1 as int),
{
    let mut lo: usize = 0;
    assert(v@.subrange(0, v@.len() as int) == v@);
    while lo < v.len() && char_is_whitespace(v[lo])
        invariant
            lo <= v.len(),
            trim_start(v@) == trim_start(v@.subrange(lo as int, v@.len() as int)),
        decreases v.len() - lo,
    {
        assert(v@.subrange(lo as int + 1, v@.len() as int) == v@.subrange(lo as int, v@.len() as int).drop_first());
        lo += 1;
    }
    assert(trim_start(v@) == v@.subrange(lo as int, v@.len() as int));
    let mut hi: usize = v.len();
    while hi > lo && char_is_whitespace(v[hi - 1])
        invariant
            lo <= hi <= v.len(),
            trim(v@) == trim_end(v@.subrange(lo as int, hi as int)),
        decreases hi,
    {
        assert(v@.subrange(lo as int, hi as int - 1) == v@.subrange(lo as int, hi as int).drop_last());
        hi -= 1;
    }
    (lo, hi)
}

/// The text without leading and trailing whitespace.
pub fn trim_chars(v: &Vec<char>) -> (r: Vec<char>)
    ensures
        r@ == trim(v@),
{
    let (lo, hi) = trim_bounds(v);
    sub_chars(v, lo, hi)
}

fn trim_token(v: &Vec<char>) -> (r: Vec<char>)
    ensures
        r@ == clean_token(v@),
{
    let (lo, hi0) = trim_bounds(v);
    let mut hi = hi0;
    while hi > lo && (v[hi - 1] == '+' || v[hi - 1] == '#' || v[hi - 1] == '!' || v[hi - 1] == '?')
        invariant
            lo <= hi <= v.len(),
            clean_token(v@) == strip_marks(v@.subrange(lo as int, hi as int)),
        decreases hi,
    {
        assert(v@.subrange(lo as int, hi as int - 1) == v@.subrange(lo as int, hi as int).drop_last());
        hi -= 1;
    }
    sub_chars(v, lo, hi)
}

fn letter_kind_of(c: char) -> (r: Option<PieceType>)
    ensures
        r == letter_kind(c),
{
    if c == 'N' {
        Some(PieceType::Knight)
    } else if c == 'B' {
        Some(PieceType::Bishop)
    } else if c == 'R' {
        Some(PieceType::Rook)
    } else if c == 'Q' {
        Some(PieceType::Queen)
    } else if c == 'K' {
        Some(PieceType::King)
    } else {
        None
    }
}

fn seq_equals(v: &Vec<char>, start: usize, w: &[char]) -> (r: bool)
    requires
        start <= v.len(),
    ensures
        r == (v@.subrange(start as int, v@.len() as int) == w@),
{
    if v.len() - start != w.len() {
        assert(v@.subrange(start as int, v@.len() as int).len() != w@.len());
        return false;
    }
    let mut i: usize = 0;
    while i < w.len()
        invariant
            start <= v.len(),
            v.len() - start == w.len(),
            i <= w.len(),
            forall|j: int| 0 <= j < i ==> v@[start + j] == w@[j],
        decreases w.len() - i,
    {
        if v[start + i] != w[i] {
            assert(v@.subrange(start as int, v@.len() as int)[i as int] != w@[i as int]);
            return false;
        }
        i += 1;
    }
    assert(v@.subrange(start as int, v@.len() as int) =~= w@);
    true
}

/// Position of the first '=' at or after `start`, and the piece named after it.
fn split_promotion(t: &Vec<char>, start: usize) -> (r: (usize, Option<PieceType>))
    requires
        start <= t.len(),
    ensures
        start <= r.0 <= t.len(),
        t@.subrange(start as int, r.0 as int) == before_promotion(t@.subrange(start as int, t@.len() as int)),
        r.1 == promotion_of(t@.subrange(start as int, t@.len() as int)),
{
    let ghost rest = t@.subrange(start as int, t@.len() as int);
    let mut eq: usize = start;
    while eq < t.len() && t[eq] != '='
        invariant
            start <= eq <= t.len(),
            rest == t@.subrange(start as int, t@.len() as int),
            first_index_from(rest, '=', 0) == first_index_from(rest, '=', eq - start),
        decreases t.len() - eq,
    {
        eq += 1;
    }
    if eq < t.len() {
        assert(first_index_from(rest, '=', 0) == Some(eq - start));
        assert(t@.subrange(start as int, eq as int) == rest.take(eq - start));
        let promotion = if eq + 1 < t.len() {
            PieceType::from_char(t[eq + 1])
        } else {
            None
        };
        (eq, promotion)
    } else {
        assert(first_index_from(rest, '=', 0) is None);
        (eq, None)
    }
}

/// Whether `t[start..end]` holds an 'x', and the text without its 'x's.
fn scan_prefix(t: &Vec<char>, start: usize, end: usize) -> (r: (bool, Vec<char>))
    requires
        start <= end <= t.len(),
    ensures
        r.0 == t@.subrange(start as int, end as int).contains('x'),
        r.1@ == without_x(t@.subrange(start as int, end as int)),
{
    let mut capture = false;
    let mut dis: Vec<char> = Vec::new();
    let mut i: usize = start;
    while i < end
        invariant
            start <= i <= end <= t.len(),
            capture == t@.subrange(start as int, i as int).contains('x'),
            dis@ == without_x(t@.subrange(start as int, i as int)),
        decreases end - i,
    {
        let ghost before = t@.subrange(start as int, i as int);
        let ghost cur = t@.subrange(start as int, i as int + 1);
        assert(cur == before.push(t@[i as int]));
        assert(cur.drop_last() == before);
        if t[i] == 'x' {
            capture = true;
            assert(cur[i - start] == 'x');
        } else {
            dis.push(t[i]);
            assert(cur.contains('x') == before.contains('x')) by {
                if before.contains('x') {
                    let j = choose|j: int| 0 <= j < before.len() && before[j] == 'x';
                    assert(cur[j] == 'x');
                }
                if cur.contains('x') {
                    let j = choose|j: int| 0 <= j < cur.len() && cur[j] == 'x';
                    assert(before[j] == 'x');
                }
            }
        }
        i += 1;
    }
    (capture, dis)
}

/// Whether a cleaned token describes `mv` on `board`.
fn san_matches(board: &Board, mv: Move, t: &Vec<char>) -> (r: bool)
    requires
        mv.from < 64,
    ensures
        r == san_matches_spec(*board, mv, t@),
{
    if let MoveKind::CastleKingside = mv.kind {
        let a = seq_equals(t, 0, &['O', '-', 'O']);
        let b = seq_equals(t, 0, &['0', '-', '0']);
        assert(t@.subrange(0, t@.len() as int) == t@);
        return a || b;
    }
    if let MoveKind::CastleQueenside = mv.kind {
        let a = seq_equals(t, 0, &['O', '-', 'O', '-', 'O']);
        let b = seq_equals(t, 0, &['0', '-', '0', '-', '0']);
        assert(t@.subrange(0, t@.len() as int) == t@);
        return a || b;
    }
    let piece = match board.mailbox[mv.from as usize] {
        Some(p) => p,
        None => {
            return false;
        },
    };
    let lead = if t.len() > 0 { letter_kind_of(t[0]) } else { None };
    let wanted = match lead {
        Some(k) => k,
        None => PieceType::Pawn,
    };
    let start: usize = if lead.is_some() { 1 } else { 0 };
    let ghost rest = after_lead(t@);
    assert(rest == t@.subrange(start as int, t@.len() as int));
    if piece.kind != wanted {
        return false;
    }
    let (end, promotion) = split_promotion(t, start);
    let ghost body = before_promotion(rest);
    if mv.promotion() != promotion {
        return false;
    }
    if end - start < 2 {
        return false;
    }
    let f = t[end - 2];
    let rk = t[end - 1];
    assert(f == body[body.len() - 2] && rk == body[body.len() - 1]);
    if !('a' <= f && f <= 'h' && '1' <= rk && rk <= '8') {
        return false;
    }
    let dest: u64 = ((rk as u64) - 49) * 8 + ((f as u64) - 97);
    if dest != mv.to as u64 {
        return false;
    }
    let pend: usize = end - 2;
    assert(prefix_of(body) == t@.subrange(start as int, pend as int));
    let (capture, dis) = scan_prefix(t, start, pend);
    if capture != mv.is_capture() {
        return false;
    }
    if wanted == PieceType::Pawn {
        if capture {
            return dis.len() > 0 && 'a' <= dis[0] && dis[0] <= 'h' && (mv.from % 8) as u32 == (dis[0] as u32) - 97;
        }
        return dis.len() == 0;
    }
    all_disambiguate(&dis, mv.from)
}

/// Whether every character of `dis` agrees with the square `from`.
fn all_disambiguate(dis: &Vec<char>, from: u8) -> (r: bool)
    requires
        from < 64,
    ensures
        r == piece_origin_ok(dis@, from as int),
{
    let mut j: usize = 0;
    while j < dis.len()
        invariant
            j <= dis.len(),
            from < 64,
            forall|k: int| 0 <= k < j ==> disambiguates(#[trigger] dis@[k], from as int),
        decreases dis.len() - j,
    {
        let c = dis[j];
        let ok = if 'a' <= c && c <= 'h' {
            (from % 8) as u32 == (c as u32) - 97
        } else if '1' <= c && c <= '8' {
            (from / 8) as u32 == (c as u32) - 49
        } else {
            false
        };
        if !ok {
            assert(!disambiguates(dis@[j as int], from as int));
            return false;
        }
        j += 1;
    }
    true
}

/// The one legal move that a SAN token describes, or `None` when the token
/// is empty, describes no legal move, or describes more than one.
pub fn resolve_san_token(board: &Board, token: &str) -> (r: Option<Move>)
    requires
        position_ok(*board),
        counters_ok(*board),
    ensures
        match r {
            Some(m) => clean_token(token@).len() > 0 && san_resolves_to(*board, clean_token(token@), m),
            None => clean_token(token@).len() == 0 || !(exists|m: Move|
                san_resolves_to(*board, clean_token(token@), m)),
        },
{
    let raw = chars_of(token);
    let t = trim_token(&raw);
    if t.len() == 0 {
        return None;
    }
    let ghost tt = clean_token(token@);
    let legal = generate_legal_moves(board);
    let mut found: Option<Move> = None;
    let ghost mut found_at: int = 0;
    let mut i: usize = 0;
    while i < legal.len()
        invariant
            i <= legal.len(),
            t@ == tt,
            tt == clean_token(token@),
            forall|m: Move| #[trigger] legal@.contains(m) <==> is_legal(*board, m),
            legal@.no_duplicates(),
            match found {
                Some(f) => 0 <= found_at < i && legal@[found_at] == f && san_candidate(*board, f, tt),
                None => true,
            },
            forall|j: int| 0 <= j < i && san_matches_spec(*board, #[trigger] legal@[j], tt) ==> found == Some(legal@[j]),
        decreases legal.len() - i,
    {
        let mv = legal[i];
        proof {
            assert(legal@.contains(mv)) by {
                assert(legal@[i as int] == mv);
            }
            assert(mv.from < 64);
        }
        if san_matches(board, mv, &t) {
            if let Some(f) = found {
                proof {
                    assert(legal@[found_at] != legal@[i as int]);
                    assert forall|m: Move| !san_resolves_to(*board, tt, m) by {
                        if san_resolves_to(*board, tt, m) {
                            assert(san_candidate(*board, f, tt));
                            assert(san_candidate(*board, mv, tt));
                        }
                    }
                }
                return None;
            }
            found = Some(mv);
            proof {
                found_at = i as int;
            }
        }
        i += 1;
    }
    proof {
        match found {
            Some(f) => {
                assert forall|m2: Move| #[trigger] san_candidate(*board, m2, tt) implies m2 == f by {
                    assert(legal@.contains(m2));
                    let j = choose|j: int| 0 <= j < legal@.len() && legal@[j] == m2;
                    assert(san_matches_spec(*board, legal@[j], tt));
                }
            },
            None => {
                assert forall|m: Move| !san_resolves_to(*board, tt, m) by {
                    if san_resolves_to(*board, tt, m) {
                        assert(legal@.contains(m));
                        let j = choose|j: int| 0 <= j < legal@.len() && legal@[j] == m;
                        assert(san_matches_spec(*board, legal@[j], tt));
                    }
                }
            },
        }
    }
    found
}

} // verus!
