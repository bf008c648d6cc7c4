//! A chess engine library: bitboards, board state, move generation,
//! evaluation, static exchange evaluation, search and opening books.

pub mod types;
pub mod moves;
pub mod bitboard;
pub mod zobrist;
pub mod board;
pub mod fen;
pub mod fen_roundtrip;
pub mod movegen;
pub mod perft;
pub mod time_management;
pub mod tt;
pub mod see;
pub mod eval;
pub mod search;
pub mod epd;
pub mod uci;
pub mod book;
pub mod magic;
pub mod symmetry;
