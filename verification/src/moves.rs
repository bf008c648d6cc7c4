//! A chess move.

use vstd::prelude::*;
use crate::types::{kind_char, square_chars, square_name, string_from_chars, PieceType, Square};

verus! {

#[derive(Clone, Copy, PartialEq, Eq, Debug, Structural)]
pub enum MoveKind {
    Quiet,
    DoublePawnPush,
    Capture,
    EnPassantCapture,
    CastleKingside,
    CastleQueenside,
    Promotion(PieceType),
    PromotionCapture(PieceType),
}

#[derive(Clone, Copy, PartialEq, Eq, Debug, Structural)]
pub struct Move {
    pub from: Square,
    pub to: Square,
    pub kind: MoveKind,
}

/// Whether a move kind takes an enemy piece.
pub open spec fn kind_is_capture(k: MoveKind) -> bool {
    k is Capture || k is EnPassantCapture || k is PromotionCapture
}

/// The piece a move kind promotes to, if it promotes.
pub open spec fn kind_promotion(k: MoveKind) -> Option<PieceType> {
    match k {
        MoveKind::Promotion(p) => Some(p),
        MoveKind::PromotionCapture(p) => Some(p),
        _ => None,
    }
}

/// Long algebraic notation of a move as used by UCI ("e2e4", "e7e8q").
pub open spec fn uci_name(m: Move) -> Seq<char> {
    let base = square_name(m.from as int) + square_name(m.to as int);
    match kind_promotion(m.kind) {
        Some(p) => base.push(kind_char(p)),
        None => base,
    }
}

impl Move {
    pub fn new(from: Square, to: Square, kind: MoveKind) -> (m: Move)
        ensures
            m.from == from,
            m.to == to,
            m.kind == kind,
    {
        Move { from, to, kind }
    }

    pub open spec fn spec_is_capture(&self) -> bool {
        kind_is_capture(self.kind)
    }

    #[verifier::when_used_as_spec(spec_is_capture)]
    pub fn is_capture(&self) -> (r: bool)
        ensures
            r == kind_is_capture(self.kind),
    {
        match self.kind {
            MoveKind::Capture | MoveKind::EnPassantCapture | MoveKind::PromotionCapture(_) => true,
            _ => false,
        }
    }

    pub fn is_castle(&self) -> (r: bool)
        ensures
            r == (self.kind is CastleKingside || self.kind is CastleQueenside),
    {
        match self.kind {
            MoveKind::CastleKingside | MoveKind::CastleQueenside => true,
            _ => false,
        }
    }

    pub open spec fn spec_promotion(&self) -> Option<PieceType> {
        kind_promotion(self.kind)
    }

    #[verifier::when_used_as_spec(spec_promotion)]
    pub fn promotion(&self) -> (r: Option<PieceType>)
        ensures
            r == kind_promotion(self.kind),
    {
        match self.kind {
            MoveKind::Promotion(p) | MoveKind::PromotionCapture(p) => Some(p),
            _ => None,
        }
    }

    /// Characters of the UCI long algebraic notation of this move.
    pub fn uci_chars(&self) -> (v: Vec<char>)
        ensures
            v@ == uci_name(*self),
    {
        let mut v = square_chars(self.from);
        let to = square_chars(self.to);
        v.push(to[0]);
        v.push(to[1]);
        match self.promotion() {
            Some(p) => {
                v.push(p.to_char());
            },
            None => {},
        }
        assert(v@ =~= uci_name(*self));
        v
    }

    /// UCI long algebraic notation ("e2e4", "e7e8q").
    pub fn to_uci(&self) -> (s: String)
        ensures
            s@ == uci_name(*self),
    {
        let v = self.uci_chars();
        string_from_chars(&v)
    }
}

} // verus!
