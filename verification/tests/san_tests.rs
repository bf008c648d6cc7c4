use fructosita::board::Board;
use fructosita::epd::san::resolve_san_token;

fn mv(fen: &str, san: &str) -> String {
    let board = Board::from_fen(fen).unwrap();
    resolve_san_token(&board, san).unwrap().to_uci()
}

#[test]
fn simple_pawn_push() {
    assert_eq!(mv("8/8/8/8/8/8/4P3/4K2k w - - 0 1", "e4"), "e2e4");
}

#[test]
fn simple_knight_move() {
    assert_eq!(mv("7k/8/8/8/8/8/8/4K1N1 w - - 0 1", "Nf3"), "g1f3");
}

#[test]
fn pawn_capture_with_file_disambiguation() {
    assert_eq!(mv("4k3/8/8/3p4/4P3/8/8/4K3 w - - 0 1", "exd5"), "e4d5");
}

#[test]
fn promotion() {
    assert_eq!(mv("k7/4P3/8/8/8/8/8/4K3 w - - 0 1", "e8=Q"), "e7e8q");
}

#[test]
fn piece_capture() {
    assert_eq!(mv("4k3/3n4/8/8/8/8/8/3QK3 w - - 0 1", "Qxd7"), "d1d7");
}

#[test]
fn castling_token_if_legal_position_available() {
    assert_eq!(mv("4k3/8/8/8/8/8/8/4K2R w K - 0 1", "O-O"), "e1g1");
}

#[test]
fn ambiguous_token_returns_none_when_applicable() {
    let board = Board::from_fen("7k/8/8/8/8/8/8/2N1K1N1 w - - 0 1").unwrap();
    assert!(resolve_san_token(&board, "Ne2").is_none());
}

#[test]
fn disambiguated_knight_and_marks() {
    assert_eq!(mv("7k/8/8/8/8/8/8/2N1K1N1 w - - 0 1", " Nge2+ "), "g1e2");
    assert_eq!(mv("7k/8/8/8/8/8/8/2N1K1N1 w - - 0 1", "Nce2!?"), "c1e2");
    assert_eq!(mv("4k3/8/8/8/8/8/8/4K2R w K - 0 1", "0-0"), "e1g1");
}

#[test]
fn wrong_tokens_resolve_to_nothing() {
    let board = Board::from_fen("4k3/8/8/3p4/4P3/8/8/4K3 w - - 0 1").unwrap();
    assert!(resolve_san_token(&board, "").is_none());
    assert!(resolve_san_token(&board, "  +# ").is_none());
    assert!(resolve_san_token(&board, "ed5").is_none());
    assert!(resolve_san_token(&board, "Nxd5").is_none());
    assert!(resolve_san_token(&board, "e5").is_some());
    assert!(resolve_san_token(&board, "O-O").is_none());
}
