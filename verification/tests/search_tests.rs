use fructosita::board::Board;
use fructosita::movegen::generate_legal_moves;
use fructosita::moves::Move;
use fructosita::eval::evaluate;
use fructosita::search::{
    add_stats, bench_signature_seed, bench_signature_step, format_score, game_end, negamax, quiescence, run_iteration,
    GameEnd, SearchStatsSnapshot, score_from_tt, score_to_tt, search_fixed_depth_with_stats, start_iterations,
    SearchContext, MATE_SCORE, MAX_PLY,
};
use fructosita::tt::TranspositionTable;
use std::sync::atomic::AtomicBool;
use std::time::{Duration, Instant};

fn search_fixed_depth(fen: &str, depth: i32) -> (Move, i32) {
    let board = Board::from_fen(fen).unwrap();
    let mut tt = TranspositionTable::new(16);
    let (mv, score, _stats) = search_fixed_depth_with_stats(board, depth, &mut tt, vec![board.hash]);
    (mv, score)
}

#[test]
fn finds_mate_in_one() {
    let fen = "6k1/5ppp/8/8/8/8/8/4R1K1 w - - 0 1";
    let (mv, score) = search_fixed_depth(fen, 4);
    assert!(score >= MATE_SCORE - MAX_PLY as i32, "no mate found, score={score}");
    let board = Board::from_fen(fen).unwrap();
    let after = board.make_move(mv);
    assert!(after.in_check(after.side_to_move), "the move gives no check: {}", mv.to_uci());
    assert!(generate_legal_moves(&after).is_empty(), "the move is not mate: {}", mv.to_uci());
}

#[test]
fn captures_free_rook() {
    let (mv, score) = search_fixed_depth("3r3k/8/8/8/8/8/8/3QK3 w - - 0 1", 3);
    assert_eq!(mv.to_uci(), "d1d8");
    assert!(score > 300, "unexpectedly low score after winning a free rook: {score}");
}

#[test]
fn avoids_hanging_the_queen_to_a_defended_piece() {
    let (mv, _score) = search_fixed_depth("3rk3/8/8/8/8/8/8/3QK3 w - - 0 1", 4);
    assert_ne!(mv.to_uci(), "d1d8", "the engine gave its queen for a rook");
}

#[test]
fn stops_promptly_when_flag_set() {
    let board = Board::start_pos();
    let mut tt = TranspositionTable::new(16);
    let stop = AtomicBool::new(true);
    let mut ctx = SearchContext::new(&stop, Instant::now() + Duration::from_secs(30), true, vec![board.hash]);
    let mut st = start_iterations(&board);
    let rep = run_iteration(&board, &mut st, &mut ctx, &mut tt);
    assert!(!rep.completed);
    assert!(rep.report);
    assert!(generate_legal_moves(&board).contains(&st.best_move));
}

#[test]
fn mate_scores_roundtrip_through_the_table() {
    for ply in [0usize, 1, 7, 40] {
        for score in [MATE_SCORE - 3, -(MATE_SCORE - 5), 0, 250, -1200] {
            assert_eq!(score_from_tt(score_to_tt(score, ply), ply), score);
        }
    }
    assert_eq!(score_to_tt(MATE_SCORE - 5, 3), MATE_SCORE - 2);
}

#[test]
fn score_text_for_mates_and_centipawns() {
    assert_eq!(format_score(35), "cp 35");
    assert_eq!(format_score(-120), "cp -120");
    assert_eq!(format_score(MATE_SCORE - 1), "mate 1");
    assert_eq!(format_score(MATE_SCORE - 3), "mate 2");
    assert_eq!(format_score(-(MATE_SCORE - 2)), "mate -1");
}

#[test]
fn checkmate_and_stalemate_are_scored_at_the_root() {
    let stop = AtomicBool::new(false);
    let mated = Board::from_fen("R5k1/5ppp/8/8/8/8/8/6K1 b - - 0 1").unwrap();
    let mut ctx = SearchContext::new(&stop, Instant::now() + Duration::from_secs(30), true, vec![mated.hash]);
    let mut tt = TranspositionTable::new(1);
    let mut pv = Vec::new();
    assert_eq!(negamax(&mated, 2, -MATE_SCORE - 1, MATE_SCORE + 1, 0, &mut pv, &mut ctx, &mut tt), -MATE_SCORE);
    assert!(pv.is_empty());
    let stalemate = Board::from_fen("7k/5Q2/6K1/8/8/8/8/8 b - - 0 1").unwrap();
    let mut ctx = SearchContext::new(&stop, Instant::now() + Duration::from_secs(30), true, vec![stalemate.hash]);
    assert_eq!(negamax(&stalemate, 2, -MATE_SCORE - 1, MATE_SCORE + 1, 0, &mut pv, &mut ctx, &mut tt), 0);
}

#[test]
fn quiescence_stands_pat_and_sees_mate() {
    let stop = AtomicBool::new(false);
    let quiet = Board::from_fen("4k3/8/8/8/8/8/4P3/4K3 w - - 0 1").unwrap();
    let mut ctx = SearchContext::new(&stop, Instant::now() + Duration::from_secs(30), true, vec![quiet.hash]);
    let r = quiescence(&quiet, -MATE_SCORE, MATE_SCORE, 0, &mut ctx);
    assert!(r >= evaluate(&quiet));
    let mated = Board::from_fen("R5k1/5ppp/8/8/8/8/8/6K1 b - - 0 1").unwrap();
    let mut ctx = SearchContext::new(&stop, Instant::now() + Duration::from_secs(30), true, vec![mated.hash]);
    assert_eq!(quiescence(&mated, -MATE_SCORE, MATE_SCORE, 3, &mut ctx), -MATE_SCORE + 3);
}

#[test]
fn game_end_names_mate_stalemate_and_fifty_moves() {
    let mated = Board::from_fen("R5k1/5ppp/8/8/8/8/8/6K1 b - - 0 1").unwrap();
    assert_eq!(game_end(&mated), Some(GameEnd::Checkmate));
    let stalemate = Board::from_fen("7k/5Q2/6K1/8/8/8/8/8 b - - 0 1").unwrap();
    assert_eq!(game_end(&stalemate), Some(GameEnd::Stalemate));
    let fifty = Board::from_fen("4k3/8/8/8/8/8/8/4K2R w - - 100 80").unwrap();
    assert_eq!(game_end(&fifty), Some(GameEnd::FiftyMoves));
    assert_eq!(game_end(&Board::start_pos()), None);
}

#[test]
fn bench_signature_folds_hash_move_score_and_nodes() {
    let seed = bench_signature_seed(5, 64, 1);
    assert_eq!(seed, 0x9E37_79B9_7F4A_7C15u64 ^ 5 ^ (64u64 << 32) ^ 1);
    let mv = Move::new(12, 28, fructosita::moves::MoveKind::DoublePawnPush);
    let expected = seed.rotate_left(7) ^ 0x1234 ^ ((12u64 << 8) | 28) ^ (((-35i32) as i64 as u64) << 1) ^ 999;
    assert_eq!(bench_signature_step(seed, 0x1234, mv, -35, 999), expected);
    let a = SearchStatsSnapshot { nodes: 10, qnodes: 4, ..SearchStatsSnapshot::default() };
    let b = SearchStatsSnapshot { nodes: u64::MAX, qnodes: 1, ..SearchStatsSnapshot::default() };
    let t = add_stats(a, b);
    assert_eq!(t.nodes, 9);
    assert_eq!(t.qnodes, 5);
}
