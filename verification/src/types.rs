//! Basic chess types: colors, piece kinds, pieces and squares.

use vstd::prelude::*;
use vstd::string::StringSliceAdditionalSpecFns;

verus! {

/// Colour of a piece or of the side to move.
#[derive(Clone, Copy, PartialEq, Eq, Debug, Structural)]
pub enum Color {
    White,
    Black,
}

impl Color {
    pub open spec fn spec_opposite(self) -> Color {
        match self {
            Color::White => Color::Black,
            Color::Black => Color::White,
        }
    }

    #[verifier::when_used_as_spec(spec_opposite)]
    pub fn opposite(self) -> (r: Color)
        ensures
            r == self.spec_opposite(),
    {
        match self {
            Color::White => Color::Black,
            Color::Black => Color::White,
        }
    }

    pub open spec fn spec_index(self) -> usize {
        match self {
            Color::White => 0,
            Color::Black => 1,
        }
    }

    #[verifier::when_used_as_spec(spec_index)]
    pub fn index(self) -> (r: usize)
        ensures
            r == self.spec_index(),
            r < 2,
    {
        match self {
            Color::White => 0,
            Color::Black => 1,
        }
    }
}

/// Kind of piece, independent of colour.
#[derive(Clone, Copy, PartialEq, Eq, Debug, Structural)]
pub enum PieceType {
    Pawn,
    Knight,
    Bishop,
    Rook,
    Queen,
    King,
}

/// The six piece kinds in index order.
pub const ALL_PIECE_TYPES: [PieceType; 6] = [
    PieceType::Pawn,
    PieceType::Knight,
    PieceType::Bishop,
    PieceType::Rook,
    PieceType::Queen,
    PieceType::King,
];

/// The piece kind whose index is `i` (0 pawn, ..., 5 king).
pub fn kind_from_index(i: usize) -> (k: PieceType)
    requires
        i < 6,
    ensures
        k == kind_of_index(i as int),
        k.spec_index() == i,
{
    if i == 0 {
        PieceType::Pawn
    } else if i == 1 {
        PieceType::Knight
    } else if i == 2 {
        PieceType::Bishop
    } else if i == 3 {
        PieceType::Rook
    } else if i == 4 {
        PieceType::Queen
    } else {
        PieceType::King
    }
}

/// The piece kind whose index is `i`.
pub open spec fn kind_of_index(i: int) -> PieceType {
    if i == 0 {
        PieceType::Pawn
    } else if i == 1 {
        PieceType::Knight
    } else if i == 2 {
        PieceType::Bishop
    } else if i == 3 {
        PieceType::Rook
    } else if i == 4 {
        PieceType::Queen
    } else {
        PieceType::King
    }
}

/// The colour whose index is `i`.
pub open spec fn color_of_index(i: int) -> Color {
    if i == 0 {
        Color::White
    } else {
        Color::Black
    }
}

/// Lower-case letter of a piece kind.
pub open spec fn kind_char(k: PieceType) -> char {
    match k {
        PieceType::Pawn => 'p',
        PieceType::Knight => 'n',
        PieceType::Bishop => 'b',
        PieceType::Rook => 'r',
        PieceType::Queen => 'q',
        PieceType::King => 'k',
    }
}

/// Lower-case form of an ASCII letter; other characters unchanged.
pub open spec fn ascii_lower(c: char) -> char {
    if 'A' <= c && c <= 'Z' {
        ((c as u32) + 32) as char
    } else {
        c
    }
}

/// Piece kind named by a letter of either case, as in FEN.
pub open spec fn kind_from_char(c: char) -> Option<PieceType> {
    let l = ascii_lower(c);
    if l == 'p' {
        Some(PieceType::Pawn)
    } else if l == 'n' {
        Some(PieceType::Knight)
    } else if l == 'b' {
        Some(PieceType::Bishop)
    } else if l == 'r' {
        Some(PieceType::Rook)
    } else if l == 'q' {
        Some(PieceType::Queen)
    } else if l == 'k' {
        Some(PieceType::King)
    } else {
        None
    }
}

impl PieceType {
    pub open spec fn spec_index(self) -> usize {
        match self {
            PieceType::Pawn => 0,
            PieceType::Knight => 1,
            PieceType::Bishop => 2,
            PieceType::Rook => 3,
            PieceType::Queen => 4,
            PieceType::King => 5,
        }
    }

    #[verifier::when_used_as_spec(spec_index)]
    pub fn index(self) -> (r: usize)
        ensures
            r == self.spec_index(),
            r < 6,
            kind_of_index(r as int) == self,
    {
        match self {
            PieceType::Pawn => 0,
            PieceType::Knight => 1,
            PieceType::Bishop => 2,
            PieceType::Rook => 3,
            PieceType::Queen => 4,
            PieceType::King => 5,
        }
    }

    /// Standard lower-case letter (used in UCI promotions such as e7e8q).
    pub fn to_char(self) -> (c: char)
        ensures
            c == kind_char(self),
    {
        match self {
            PieceType::Pawn => 'p',
            PieceType::Knight => 'n',
            PieceType::Bishop => 'b',
            PieceType::Rook => 'r',
            PieceType::Queen => 'q',
            PieceType::King => 'k',
        }
    }

    /// Piece kind named by a letter, in either case.
    pub fn from_char(c: char) -> (r: Option<PieceType>)
        ensures
            r == kind_from_char(c),
    {
        let l = if 'A' <= c && c <= 'Z' {
            ((c as u32) + 32) as u8 as char
        } else {
            c
        };
        if l == 'p' {
            Some(PieceType::Pawn)
        } else if l == 'n' {
            Some(PieceType::Knight)
        } else if l == 'b' {
            Some(PieceType::Bishop)
        } else if l == 'r' {
            Some(PieceType::Rook)
        } else if l == 'q' {
            Some(PieceType::Queen)
        } else if l == 'k' {
            Some(PieceType::King)
        } else {
            None
        }
    }
}

/// A concrete piece: colour and kind.
#[derive(Clone, Copy, PartialEq, Eq, Debug, Structural)]
pub struct Piece {
    pub color: Color,
    pub kind: PieceType,
}

/// FEN letter of a piece: upper case for White, lower case for Black.
pub open spec fn fen_char(p: Piece) -> char {
    let c = kind_char(p.kind);
    match p.color {
        Color::White => ((c as u32) - 32) as char,
        Color::Black => c,
    }
}

impl Piece {
    pub fn new(color: Color, kind: PieceType) -> (p: Piece)
        ensures
            p.color == color,
            p.kind == kind,
    {
        Piece { color, kind }
    }

    /// FEN letter: upper case for White, lower case for Black.
    pub fn to_fen_char(self) -> (r: char)
        ensures
            r == fen_char(self),
    {
        let c = self.kind.to_char();
        match self.color {
            Color::White => ((c as u32) - 32) as u8 as char,
            Color::Black => c,
        }
    }
}

/// A square as an index 0..64 in little-endian rank-file order:
/// a1 = 0, b1 = 1, ..., h1 = 7, a2 = 8, ..., h8 = 63.
pub type Square = u8;

pub fn make_square(file: u8, rank: u8) -> (sq: Square)
    requires
        rank * 8 + file <= 255,
    ensures
        sq == rank * 8 + file,
{
    rank * 8 + file
}

pub fn file_of(sq: Square) -> (f: u8)
    ensures
        f == sq % 8,
        f < 8,
{
    sq % 8
}

pub fn rank_of(sq: Square) -> (r: u8)
    ensures
        r == sq / 8,
{
    sq / 8
}

/// The two characters that name a square in algebraic notation.
pub open spec fn square_name(sq: int) -> Seq<char> {
    seq![((97 + sq % 8) as u32) as char, ((49 + sq / 8) as u32) as char]
}

/// The square named by two bytes of algebraic notation, if any.
pub open spec fn parse_square_bytes(b: Seq<u8>) -> Option<Square> {
    if b.len() == 2 && 97 <= b[0] <= 104 && 49 <= b[1] <= 56 {
        Some(((b[1] - 49) * 8 + (b[0] - 97)) as u8)
    } else {
        None
    }
}

/// `Iterator::collect` of the characters into a `String` (std): believed to
/// give a string of exactly these characters, in order.
#[verifier::external_body]
pub(crate) fn string_from_chars(v: &Vec<char>) -> (s: String)
    ensures
        s@ == v@,
{
    v.iter().collect()
}

/// The characters naming `sq` in algebraic notation ("e4").
pub fn square_chars(sq: Square) -> (v: Vec<char>)
    ensures
        v@ == square_name(sq as int),
{
    let file = ((97u8 + file_of(sq)) as u32) as u8 as char;
    let rank = ((49u8 + rank_of(sq)) as u32) as u8 as char;
    let mut v: Vec<char> = Vec::new();
    v.push(file);
    v.push(rank);
    assert(v@ =~= square_name(sq as int));
    v
}

/// Converts a square to algebraic notation ("e4").
pub fn square_to_str(sq: Square) -> (s: String)
    ensures
        s@ == square_name(sq as int),
{
    let v = square_chars(sq);
    string_from_chars(&v)
}

/// The square named by algebraic notation ("e4"), if the text names one.
pub fn str_to_square(s: &str) -> (r: Option<Square>)
    ensures
        r == parse_square_bytes(s.spec_bytes()),
{
    let bytes = s.as_bytes();
    if bytes.len() != 2 {
        return None;
    }
    let file = bytes[0];
    let rank = bytes[1];
    if !(97 <= file && file <= 104) || !(49 <= rank && rank <= 56) {
        return None;
    }
    Some(make_square(file - 97, rank - 49))
}

/// Every square named by `square_to_str` is read back by `str_to_square`.
pub proof fn lemma_square_name_roundtrip(sq: Square)
    requires
        sq < 64,
    ensures
        parse_square_bytes(vstd::utf8::encode_utf8(square_name(sq as int))) == Some(sq),
{
    let name = square_name(sq as int);
    assert(vstd::utf8::is_ascii_chars(name));
    vstd::utf8::is_ascii_chars_encode_utf8(name);
    let b = vstd::utf8::encode_utf8(name);
    assert(b.len() == 2);
    assert(b[0] == 97 + sq % 8);
    assert(b[1] == 49 + sq / 8);
}

pub const A1: Square = 0;
pub const B1: Square = 1;
pub const C1: Square = 2;
pub const D1: Square = 3;
pub const E1: Square = 4;
pub const F1: Square = 5;
pub const G1: Square = 6;
pub const H1: Square = 7;
pub const A8: Square = 56;
pub const B8: Square = 57;
pub const C8: Square = 58;
pub const D8: Square = 59;
pub const E8: Square = 60;
pub const F8: Square = 61;
pub const G8: Square = 62;
pub const H8: Square = 63;

} // verus!
