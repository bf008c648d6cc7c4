use fructosita::types::{make_square, square_to_str, str_to_square, Color, Piece, PieceType, A1, H8, file_of, rank_of};
use fructosita::zobrist::{generator_outputs, keys, CASTLING_KEYS, EN_PASSANT_FILE_KEYS, PIECE_SQUARE_KEYS, SIDE_TO_MOVE_KEY};

#[test]
fn algebraic_roundtrip() {
    for sq in 0..64u8 {
        let s = square_to_str(sq);
        assert_eq!(str_to_square(&s), Some(sq));
    }
}

#[test]
fn known_squares() {
    assert_eq!(str_to_square("a1"), Some(A1));
    assert_eq!(str_to_square("h8"), Some(H8));
    assert_eq!(str_to_square("e4"), Some(make_square(4, 3)));
}

#[test]
fn bad_square_names() {
    assert_eq!(str_to_square("i1"), None);
    assert_eq!(str_to_square("a9"), None);
    assert_eq!(str_to_square("a10"), None);
    assert_eq!(str_to_square(""), None);
    assert_eq!(square_to_str(63), "h8");
    assert_eq!(file_of(37), 5);
    assert_eq!(rank_of(37), 4);
}

#[test]
fn piece_letters() {
    assert_eq!(PieceType::from_char('Q'), Some(PieceType::Queen));
    assert_eq!(PieceType::from_char('n'), Some(PieceType::Knight));
    assert_eq!(PieceType::from_char('x'), None);
    assert_eq!(PieceType::Rook.to_char(), 'r');
    assert_eq!(Piece::new(Color::White, PieceType::Bishop).to_fen_char(), 'B');
    assert_eq!(Piece::new(Color::Black, PieceType::King).to_fen_char(), 'k');
    assert_eq!(Color::White.opposite(), Color::Black);
    assert_eq!(Color::Black.index(), 1);
    assert_eq!(PieceType::King.index(), 5);
}

#[test]
fn keys_are_distinct() {
    let k = keys();
    assert_ne!(k.piece(Color::White, PieceType::Pawn, 0), k.piece(Color::White, PieceType::Pawn, 1));
    assert_ne!(k.piece(Color::White, PieceType::Pawn, 0), k.piece(Color::Black, PieceType::Pawn, 0));
    assert_ne!(k.side_to_move, k.castling[0]);
}

#[test]
fn zobrist_keys_are_the_generator_outputs() {
    let out = generator_outputs(781);
    assert_eq!(&out[..768], &PIECE_SQUARE_KEYS[..]);
    assert_eq!(out[768], SIDE_TO_MOVE_KEY);
    assert_eq!(&out[769..773], &CASTLING_KEYS[..]);
    assert_eq!(&out[773..781], &EN_PASSANT_FILE_KEYS[..]);
}
