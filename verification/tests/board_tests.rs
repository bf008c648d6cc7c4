use fructosita::board::Board;
use fructosita::movegen::find_move;
use fructosita::types::Color;

#[test]
fn fen_roundtrip_startpos() {
    let b = Board::start_pos();
    assert_eq!(b.to_fen(), "rnbqkbnr/pppppppp/8/8/8/8/PPPPPPPP/RNBQKBNR w KQkq - 0 1");
}

#[test]
fn fen_roundtrip_kiwipete() {
    let fen = "r3k2r/p1ppqpb1/bn2pnp1/3PN3/1p2P3/2N2Q1p/PPPBBPPP/R3K2R w KQkq - 0 1";
    let b = Board::from_fen(fen).unwrap();
    assert_eq!(b.to_fen(), fen);
}

#[test]
fn start_pos_not_in_check() {
    let b = Board::start_pos();
    assert!(!b.in_check(Color::White));
    assert!(!b.in_check(Color::Black));
}

#[test]
fn incremental_hash_matches_from_scratch() {
    let b0 = Board::start_pos();
    let moves = ["e2e4", "e7e5", "g1f3", "b8c6", "f1c4", "g8f6", "e1g1"];
    let mut b = b0;
    for mv_str in moves {
        let mv = find_move(&b, mv_str).unwrap_or_else(|| panic!("unexpectedly illegal move: {mv_str}"));
        b = b.make_move(mv);
        let recomputed = Board::from_fen(&b.to_fen()).unwrap();
        assert_eq!(b.hash, recomputed.hash, "incremental hash out of step after {mv_str}");
    }

    let ep_setup = Board::from_fen("4k3/8/8/8/pP6/8/8/4K3 b - b3 0 1").unwrap();
    let mv = find_move(&ep_setup, "a4b3").unwrap();
    let after = ep_setup.make_move(mv);
    let recomputed = Board::from_fen(&after.to_fen()).unwrap();
    assert_eq!(after.hash, recomputed.hash, "incremental hash out of step after en passant");

    let promo_setup = Board::from_fen("1n2k3/P7/8/8/8/8/8/4K3 w - - 0 1").unwrap();
    let mv = find_move(&promo_setup, "a7b8q").unwrap();
    let after = promo_setup.make_move(mv);
    let recomputed = Board::from_fen(&after.to_fen()).unwrap();
    assert_eq!(after.hash, recomputed.hash, "incremental hash out of step after capturing promotion");
}

#[test]
fn from_fen_rejects_bad_records() {
    assert!(Board::from_fen("").is_err());
    assert!(Board::from_fen("8/8/8/8 w - -").is_err());
    assert!(Board::from_fen("rnbqkbnr/pppppppp/8/8/8/8/PPPPPPPP/RNBQKBNR x KQkq - 0 1").is_err());
    assert!(Board::from_fen("rnbqkbnr/pppppppp/8/8/8/8/PPPPPPPP/RNBQKBNR w KQkz - 0 1").is_err());
    assert!(Board::from_fen("8/8/8/8/8/8/8 w - - 0 1").is_err());
    assert!(Board::from_fen("rnbqkbnrp/pppppppp/8/8/8/8/PPPPPPPP/RNBQKBNR w KQkq - 0 1").is_err());
    assert!(Board::from_fen("rnbqkbnr/ppxppppp/8/8/8/8/PPPPPPPP/RNBQKBNR w KQkq - 0 1").is_err());
}

#[test]
fn from_fen_defaults_missing_counters() {
    let b = Board::from_fen("4k3/8/8/8/8/8/8/4K3 b - -").unwrap();
    assert_eq!(b.halfmove_clock, 0);
    assert_eq!(b.fullmove_number, 1);
    assert_eq!(b.side_to_move, Color::Black);
    assert_eq!(b.to_fen(), "4k3/8/8/8/8/8/8/4K3 b - - 0 1");
}

#[test]
fn castling_rook_moves_with_king() {
    let b = Board::from_fen("r3k2r/8/8/8/8/8/8/R3K2R w KQkq - 3 10").unwrap();
    let mv = find_move(&b, "e1c1").unwrap();
    let after = b.make_move(mv);
    assert_eq!(after.to_fen(), "r3k2r/8/8/8/8/8/8/2KR3R b kq - 4 10");
}

#[test]
fn null_move_flips_side_and_hash() {
    let b = Board::from_fen("4k3/8/8/3pP3/8/8/8/4K3 w - d6 0 1").unwrap();
    let n = b.make_null_move();
    assert_eq!(n.side_to_move, Color::Black);
    assert_eq!(n.en_passant, None);
    let recomputed = Board::from_fen(&n.to_fen()).unwrap();
    assert_eq!(n.hash, recomputed.hash);
}

#[test]
fn king_square_and_attacks() {
    let b = Board::from_fen("4k3/8/8/8/8/8/8/R3K3 b - - 0 1").unwrap();
    assert_eq!(b.king_square(Color::White), 4);
    assert_eq!(b.king_square(Color::Black), 60);
    assert!(b.is_square_attacked(56, Color::White));
    assert!(!b.is_square_attacked(60, Color::White));
    assert!(!b.in_check(Color::Black));
}

#[test]
fn diagram_draws_ranks_files_and_fen() {
    let b = Board::from_fen("4k3/8/8/8/8/8/8/R3K3 w Q - 0 1").unwrap();
    let d = b.diagram();
    let expected = "\n  8 . . . . k . . . \n  7 . . . . . . . . \n  6 . . . . . . . . \n  5 . . . . . . . . \n  4 . . . . . . . . \n  3 . . . . . . . . \n  2 . . . . . . . . \n  1 R . . . K . . . \n    a b c d e f g h\n  FEN: 4k3/8/8/8/8/8/8/R3K3 w Q - 0 1";
    assert_eq!(d, expected);
    assert!(fructosita::board::has_both_kings(&b));
    let no_black = Board::from_fen("8/8/8/8/8/8/8/R3K3 w - - 0 1").unwrap();
    assert!(!fructosita::board::has_both_kings(&no_black));
}

#[test]
fn written_fen_reads_back_as_the_same_position() {
    let mut b = Board::start_pos();
    for mv_str in ["e2e4", "c7c5", "e4e5", "d7d5", "g1f3", "b8c6", "f1b5", "g8f6", "e1g1"] {
        let mv = find_move(&b, mv_str).unwrap();
        b = b.make_move(mv);
        let back = Board::from_fen(&b.to_fen()).unwrap();
        assert_eq!(back.mailbox, b.mailbox);
        assert_eq!(back.side_to_move, b.side_to_move);
        assert_eq!(back.castling, b.castling);
        assert_eq!(back.en_passant, b.en_passant);
        assert_eq!(back.halfmove_clock, b.halfmove_clock);
        assert_eq!(back.fullmove_number, b.fullmove_number);
        assert_eq!(back.hash, b.hash);
    }
}

#[test]
fn from_fen_names_the_field_it_could_not_read() {
    assert_eq!(
        Board::from_fen("8/8/8/8 w -").unwrap_err(),
        "FEN incompleto (se esperaban al menos 4 campos): 8/8/8/8 w -"
    );
    assert_eq!(Board::from_fen("8/8/8/8 w - -").unwrap_err(), "La posición FEN debe tener 8 filas, tiene 4");
    assert_eq!(
        Board::from_fen("rnbqkbnrp/pppppppp/8/8/8/8/PPPPPPPP/RNBQKBNR w KQkq - 0 1").unwrap_err(),
        "Fila FEN excede 8 columnas: rnbqkbnrp"
    );
    assert_eq!(
        Board::from_fen("rnbqkbnr/ppxppppp/8/8/8/8/PPPPPPPP/RNBQKBNR w KQkq - 0 1").unwrap_err(),
        "Carácter de pieza FEN inválido: x"
    );
    assert_eq!(
        Board::from_fen("rnbqkbnr/pppppppp/8/8/8/8/PPPPPPPP/RNBQKBNR x KQkq - 0 1").unwrap_err(),
        "Color de turno FEN inválido: x"
    );
    assert_eq!(
        Board::from_fen("rnbqkbnr/pppppppp/8/8/8/8/PPPPPPPP/RNBQKBNR w KQkz - 0 1").unwrap_err(),
        "Derecho de enroque FEN inválido: z"
    );
}
