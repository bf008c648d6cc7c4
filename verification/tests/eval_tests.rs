use fructosita::board::Board;
use fructosita::eval::{breakdown, evaluate, piece_value, trace};
use fructosita::types::PieceType;

#[test]
fn startpos_is_roughly_balanced() {
    let b = Board::start_pos();
    let score = evaluate(&b);
    assert!(score.abs() < 50, "start position evaluation out of range: {score}");
}

#[test]
fn missing_queen_is_heavily_penalized() {
    let with_queen = Board::start_pos();
    let without_queen = Board::from_fen("rnb1kbnr/pppppppp/8/8/8/8/PPPPPPPP/RNBQKBNR w KQkq - 0 1").unwrap();
    assert!(evaluate(&without_queen) > evaluate(&with_queen) + 700);
}

#[test]
fn passed_pawn_close_to_promotion_is_valuable() {
    let far = Board::from_fen("4k3/8/8/8/8/8/P7/4K3 w - - 0 1").unwrap();
    let close = Board::from_fen("4k3/P7/8/8/8/8/8/4K3 w - - 0 1").unwrap();
    assert!(evaluate(&close) > evaluate(&far));
}

#[test]
fn protected_passed_pawn_scores_higher_than_unprotected() {
    let unprotected = Board::from_fen("4k3/8/8/3P4/8/8/2P5/4K3 w - - 0 1").unwrap();
    let protected = Board::from_fen("4k3/8/8/3P4/2P5/8/8/4K3 w - - 0 1").unwrap();
    assert!(
        breakdown(&protected).passed_pawns > breakdown(&unprotected).passed_pawns,
        "protected passer should increase passed_pawns term"
    );
}

#[test]
fn connected_passed_pawns_score_higher_than_single_passer() {
    let single = Board::from_fen("4k3/8/8/3P4/8/8/8/4K3 w - - 0 1").unwrap();
    let connected = Board::from_fen("4k3/8/8/3PP3/8/8/8/4K3 w - - 0 1").unwrap();
    assert!(
        breakdown(&connected).passed_pawns > breakdown(&single).passed_pawns,
        "connected passers should increase passed_pawns term"
    );
}

#[test]
fn king_supports_passed_pawn_more_than_enemy_king_blockades() {
    let supported = Board::from_fen("4k3/8/3P4/3K4/8/8/8/8 w - - 0 1").unwrap();
    let blockaded = Board::from_fen("3k4/8/3P4/8/8/8/8/4K3 w - - 0 1").unwrap();
    assert!(
        breakdown(&supported).passed_pawns > breakdown(&blockaded).passed_pawns,
        "own king support should outscore enemy king blockade in passed_pawns"
    );
}

#[test]
fn breakdown_total_matches_evaluate_after_passed_pawn_enrichment() {
    let board = Board::from_fen("4k3/8/3PP3/8/8/8/8/3K4 w - - 0 1").unwrap();
    assert_eq!(breakdown(&board).total, evaluate(&board));
}

#[test]
fn breakdown_total_matches_evaluate_after_knight_outposts() {
    let board = Board::from_fen("4k3/8/8/3N4/2P5/8/8/4K3 w - - 0 1").unwrap();
    assert_eq!(breakdown(&board).total, evaluate(&board));
}

#[test]
fn trace_reports_enriched_passed_pawns() {
    let board = Board::from_fen("4k3/8/3PP3/8/8/8/8/3K4 w - - 0 1").unwrap();
    let passed = breakdown(&board).passed_pawns;
    let trace = trace(&board);
    assert!(passed > 0);
    assert!(
        trace.contains(&format!("eval passed_pawns {passed}")),
        "trace should report enriched passed_pawns term: {trace}"
    );
    assert!(
        trace.contains(&format!("eval total {}", breakdown(&board).total)),
        "trace should report total consistently: {trace}"
    );
}

#[test]
fn trace_reports_knight_outposts() {
    let board = Board::from_fen("4k3/8/8/3N4/2P5/8/8/4K3 w - - 0 1").unwrap();
    let outposts = breakdown(&board).knight_outposts;
    let trace = trace(&board);
    assert!(outposts > 0);
    assert!(
        trace.contains(&format!("eval knight_outposts {outposts}")),
        "trace should report knight_outposts term: {trace}"
    );
}

#[test]
fn supported_knight_outpost_scores_above_unsupported_knight() {
    let unsupported = Board::from_fen("4k3/8/8/3N4/8/8/8/4K3 w - - 0 1").unwrap();
    let supported = Board::from_fen("4k3/8/8/3N4/2P5/8/8/4K3 w - - 0 1").unwrap();
    assert!(
        breakdown(&supported).knight_outposts > breakdown(&unsupported).knight_outposts,
        "supported knight outpost should outscore unsupported knight"
    );
}

#[test]
fn enemy_pawn_challenge_reduces_or_removes_outpost_bonus() {
    let secure = Board::from_fen("4k3/8/8/3N4/2P5/8/8/4K3 w - - 0 1").unwrap();
    let challenged = Board::from_fen("4k3/2p5/8/3N4/2P5/8/8/4K3 w - - 0 1").unwrap();
    assert!(
        breakdown(&challenged).knight_outposts < breakdown(&secure).knight_outposts,
        "enemy pawn challenge should reduce knight outpost bonus"
    );
}

#[test]
fn central_outpost_scores_above_rim_knight() {
    let rim = Board::from_fen("4k3/8/8/8/N7/1P6/8/4K3 w - - 0 1").unwrap();
    let central = Board::from_fen("4k3/8/8/3N4/2P5/8/8/4K3 w - - 0 1").unwrap();
    assert!(
        breakdown(&central).knight_outposts > breakdown(&rim).knight_outposts,
        "central outpost should outscore rim knight"
    );
}

#[test]
fn breakdown_total_matches_evaluate_startpos() {
    let board = Board::start_pos();
    assert_eq!(breakdown(&board).total, evaluate(&board));
}

#[test]
fn breakdown_total_matches_evaluate_tactical_position() {
    let board = Board::from_fen("r3k2r/p1ppqpb1/bn2pnp1/3PN3/1p2P3/2N2Q1p/PPPBBPPP/R3K2R w KQkq - 0 1").unwrap();
    assert_eq!(breakdown(&board).total, evaluate(&board));
}

#[test]
fn trace_contains_total_and_terms() {
    let trace = trace(&Board::start_pos());
    for term in [
        "eval side_to_move",
        "eval material",
        "eval piece_square",
        "eval pawn_structure",
        "eval passed_pawns",
        "eval knight_outposts",
        "eval mobility",
        "eval king_safety",
        "eval tempo",
        "eval total",
    ] {
        assert!(trace.contains(term), "trace missing {term}: {trace}");
    }
}

#[test]
fn evaluation_trace_is_deterministic() {
    let board = Board::from_fen("r1bqk2r/2pp1ppp/p1n2n2/1pb1p3/4P3/1B3N2/PPPP1PPP/RNBQ1RK1 w kq - 0 8").unwrap();
    assert_eq!(trace(&board), trace(&board));
}

/// The position seen from the other side: board flipped vertically,
/// piece colours, side to move and castling rights swapped, en passant
/// rank mirrored. Works on the text alone.
fn mirror_fen(fen: &str) -> String {
    let parts: Vec<&str> = fen.split_whitespace().collect();
    let ranks: Vec<&str> = parts[0].split('/').collect();
    let swap_case = |c: char| {
        if c.is_uppercase() {
            c.to_ascii_lowercase()
        } else if c.is_lowercase() {
            c.to_ascii_uppercase()
        } else {
            c
        }
    };
    let placement: Vec<String> = ranks.iter().rev().map(|r| r.chars().map(swap_case).collect()).collect();
    let turn = if parts[1] == "w" { "b" } else { "w" };
    let castling: String = if parts[2] == "-" { "-".to_string() } else { parts[2].chars().map(swap_case).collect() };
    let ep = if parts[3] == "-" {
        "-".to_string()
    } else {
        let mut chars = parts[3].chars();
        let file = chars.next().unwrap();
        let rank = chars.next().unwrap().to_digit(10).unwrap();
        format!("{file}{}", 9 - rank)
    };
    format!(
        "{} {} {} {} {} {}",
        placement.join("/"),
        turn,
        castling,
        ep,
        parts.get(4).unwrap_or(&"0"),
        parts.get(5).unwrap_or(&"1")
    )
}

#[test]
fn evaluation_is_color_symmetric() {
    let positions = [
        "rnbqkbnr/pppppppp/8/8/8/8/PPPPPPPP/RNBQKBNR w KQkq - 0 1",
        "r1bqk2r/2pp1ppp/p1n2n2/1pb1p3/4P3/1B3N2/PPPP1PPP/RNBQ1RK1 w kq - 0 8",
        "r3k2r/p1ppqpb1/bn2pnp1/3PN3/1p2P3/2N2Q1p/PPPBBPPP/R3K2R w KQkq - 0 1",
        "8/2p5/3p4/KP5r/1R3p1k/8/4P1P1/8 w - - 0 1",
        "rnbqkbnr/ppp1p1pp/8/3pPp2/8/8/PPPP1PPP/RNBQKBNR w KQkq f6 0 4",
    ];
    for fen in positions {
        let board = Board::from_fen(fen).unwrap();
        let mirrored = Board::from_fen(&mirror_fen(fen)).unwrap();
        assert_eq!(evaluate(&board), evaluate(&mirrored), "evaluation not colour-symmetric for: {fen}");
    }
}

#[test]
fn black_white_symmetry_for_knight_outposts() {
    let fen = "4k3/8/8/3N4/2P5/8/8/4K3 w - - 0 1";
    let board = Board::from_fen(fen).unwrap();
    let mirrored = Board::from_fen(&mirror_fen(fen)).unwrap();
    assert_eq!(
        breakdown(&board).knight_outposts,
        breakdown(&mirrored).knight_outposts,
        "knight outpost evaluation should be color-symmetric"
    );
}

#[test]
fn piece_values_are_standard() {
    assert_eq!(piece_value(PieceType::Pawn), 100);
    assert_eq!(piece_value(PieceType::Knight), 320);
    assert_eq!(piece_value(PieceType::Bishop), 330);
    assert_eq!(piece_value(PieceType::Rook), 500);
    assert_eq!(piece_value(PieceType::Queen), 900);
}

#[test]
fn evaluation_is_from_side_to_move() {
    let white = Board::from_fen("4k3/8/8/8/8/8/8/Q3K3 w - - 0 1").unwrap();
    let black = Board::from_fen("4k3/8/8/8/8/8/8/Q3K3 b - - 0 1").unwrap();
    assert!(evaluate(&white) > 0);
    assert!(evaluate(&black) < 0);
}
