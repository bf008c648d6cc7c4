use fructosita::board::Board;
use fructosita::movegen::{find_move, generate_legal_moves, generate_pseudo_legal_moves};
use fructosita::moves::{Move, MoveKind};
use fructosita::perft::{perft, perft_divide};
use fructosita::types::str_to_square;

#[test]
fn startpos_has_20_legal_moves() {
    let b = Board::start_pos();
    assert_eq!(generate_legal_moves(&b).len(), 20);
}

#[test]
fn pinned_knight_has_no_legal_moves() {
    let b = Board::from_fen("k3r3/8/8/8/8/4N3/4K3/8 w - - 0 1").unwrap();
    let legal = generate_legal_moves(&b);
    let e3 = str_to_square("e3").unwrap();
    assert!(legal.iter().all(|mv| mv.from != e3));
}

#[test]
fn en_passant_discovered_check_is_illegal() {
    let b = Board::from_fen("4k3/8/8/r1pPK3/8/8/8/8 w - c6 0 1").unwrap();
    let legal = generate_legal_moves(&b);
    assert!(legal.iter().all(|mv| mv.kind != MoveKind::EnPassantCapture));
}

#[test]
fn perft_startpos() {
    let b = Board::start_pos();
    assert_eq!(perft(&b, 1), 20);
    assert_eq!(perft(&b, 2), 400);
    assert_eq!(perft(&b, 3), 8902);
    assert_eq!(perft(&b, 4), 197281);
}

#[test]
fn perft_kiwipete() {
    let b = Board::from_fen("r3k2r/p1ppqpb1/bn2pnp1/3PN3/1p2P3/2N2Q1p/PPPBBPPP/R3K2R w KQkq - 0 1").unwrap();
    assert_eq!(perft(&b, 1), 48);
    assert_eq!(perft(&b, 2), 2039);
    assert_eq!(perft(&b, 3), 97862);
}

#[test]
fn perft_position3() {
    let b = Board::from_fen("8/2p5/3p4/KP5r/1R3p1k/8/4P1P1/8 w - - 0 1").unwrap();
    assert_eq!(perft(&b, 1), 14);
    assert_eq!(perft(&b, 2), 191);
    assert_eq!(perft(&b, 3), 2812);
    assert_eq!(perft(&b, 4), 43238);
}

#[test]
fn perft_depth_zero_is_one() {
    assert_eq!(perft(&Board::start_pos(), 0), 1);
}

#[test]
fn divide_adds_up_to_perft() {
    let b = Board::from_fen("r3k2r/p1ppqpb1/bn2pnp1/3PN3/1p2P3/2N2Q1p/PPPBBPPP/R3K2R w KQkq - 0 1").unwrap();
    let entries = perft_divide(&b, 2);
    assert_eq!(entries.len(), 48);
    let total: u64 = entries.iter().map(|(_, n)| *n).sum();
    assert_eq!(total, 2039);
}

#[test]
fn perft_one_equals_number_of_legal_moves() {
    let b = Board::from_fen("8/2p5/3p4/KP5r/1R3p1k/8/4P1P1/8 w - - 0 1").unwrap();
    assert_eq!(perft(&b, 1), generate_legal_moves(&b).len() as u64);
}

#[test]
fn pseudo_legal_includes_pinned_moves() {
    let b = Board::from_fen("k3r3/8/8/8/8/4N3/4K3/8 w - - 0 1").unwrap();
    let e3 = str_to_square("e3").unwrap();
    let pseudo = generate_pseudo_legal_moves(&b);
    assert_eq!(pseudo.iter().filter(|mv| mv.from == e3).count(), 8);
}

#[test]
fn find_move_reads_uci_text() {
    let b = Board::start_pos();
    let mv = find_move(&b, "g1f3").unwrap();
    assert_eq!(mv, Move::new(6, 21, MoveKind::Quiet));
    assert_eq!(mv.to_uci(), "g1f3");
    assert!(find_move(&b, "e2e5").is_none());
    assert!(find_move(&b, "").is_none());
    let p = Board::from_fen("k7/4P3/8/8/8/8/8/4K3 w - - 0 1").unwrap();
    let q = find_move(&p, "e7e8q").unwrap();
    assert_eq!(q.promotion(), Some(fructosita::types::PieceType::Queen));
    assert!(find_move(&p, "e7e8").is_none());
}

#[test]
fn castling_moves_are_generated() {
    let b = Board::from_fen("r3k2r/8/8/8/8/8/8/R3K2R w KQkq - 0 1").unwrap();
    let legal = generate_legal_moves(&b);
    assert!(legal.iter().any(|m| m.kind == MoveKind::CastleKingside));
    assert!(legal.iter().any(|m| m.kind == MoveKind::CastleQueenside));
    let attacked = Board::from_fen("r3k2r/8/8/8/8/8/5r2/R3K2R w KQkq - 0 1").unwrap();
    let legal = generate_legal_moves(&attacked);
    assert!(!legal.iter().any(|m| m.kind == MoveKind::CastleKingside));
}

#[test]
fn move_flags() {
    let m = Move::new(12, 28, MoveKind::DoublePawnPush);
    assert!(!m.is_capture());
    assert!(!m.is_castle());
    assert_eq!(m.promotion(), None);
    let c = Move::new(4, 6, MoveKind::CastleKingside);
    assert!(c.is_castle());
    let pc = Move::new(51, 58, MoveKind::PromotionCapture(fructosita::types::PieceType::Knight));
    assert!(pc.is_capture());
    assert_eq!(pc.to_uci(), "d7c8n");
}
