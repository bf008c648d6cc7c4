use fructosita::board::Board;
use fructosita::types::Color;
use fructosita::uci::{parse_go, parse_position, parse_setoption, perft_depth_arg, time_control, EngineOption, GoCommand};

#[test]
fn go_reads_clock_and_depth() {
    match parse_go("go wtime 60000 btime 9000 winc 1000 binc 100 movestogo 30 depth 7") {
        GoCommand::Search(p) => {
            assert_eq!(p.wtime, Some(60000));
            assert_eq!(p.btime, Some(9000));
            assert_eq!(p.winc, Some(1000));
            assert_eq!(p.binc, Some(100));
            assert_eq!(p.movestogo, Some(30));
            assert_eq!(p.depth_limit, Some(7));
            assert_eq!(p.max_depth, 7);
            assert!(!p.infinite);
            let t = time_control(&p, Color::Black);
            assert_eq!(t.btime_ms, Some(9000));
            assert_eq!(t.depth, Some(7));
            assert_eq!(t.side_to_move, Color::Black);
        },
        other => panic!("unexpected {other:?}"),
    }
}

#[test]
fn go_defaults_and_flags() {
    match parse_go("go infinite ponder movetime x depth") {
        GoCommand::Search(p) => {
            assert!(p.infinite);
            assert!(p.ponder);
            assert_eq!(p.movetime, None);
            assert_eq!(p.depth_limit, None);
            assert_eq!(p.max_depth, 64);
        },
        other => panic!("unexpected {other:?}"),
    }
    assert_eq!(parse_go("go perft 3"), GoCommand::Perft(3));
    assert_eq!(parse_go("go perft"), GoCommand::Perft(1));
    assert_eq!(perft_depth_arg("perft 5"), 5);
    assert_eq!(perft_depth_arg("perft five"), 1);
}

#[test]
fn position_with_moves() {
    let c = parse_position("startpos moves e2e4 e7e5 g1f3");
    assert_eq!(c.board.to_fen(), "rnbqkbnr/pppp1ppp/8/4p3/4P3/5N2/PPPP1PPP/RNBQKB1R b KQkq - 1 2");
    assert_eq!(c.history.len(), 4);
    assert_eq!(c.history[0], Board::start_pos().hash);
    assert_eq!(*c.history.last().unwrap(), c.board.hash);
    assert!(c.fen_error.is_none());
    assert!(c.unknown_move.is_none());
}

#[test]
fn position_from_fen_and_bad_move() {
    let c = parse_position("fen 4k3/8/8/8/8/8/8/4K2R w K - 0 1 moves e1g1 e8e9 e8d8");
    assert_eq!(c.board.to_fen(), "4k3/8/8/8/8/8/8/5RK1 b - - 1 1");
    assert_eq!(c.unknown_move, Some("e8e9".to_string()));
    assert_eq!(c.history.len(), 2);
    let bad = parse_position("fen 4k3/8/8 w - - 0 1 moves e2e4");
    assert!(bad.fen_error.is_some());
    assert_eq!(bad.board.to_fen(), "rnbqkbnr/pppppppp/8/8/4P3/8/PPPP1PPP/RNBQKBNR b KQkq e3 0 1");
}

#[test]
fn setoption_lines() {
    assert!(matches!(parse_setoption("setoption name Hash value 128"), EngineOption::Hash(128)));
    assert!(matches!(parse_setoption("setoption name hash value 0"), EngineOption::Hash(1)));
    assert!(matches!(parse_setoption("setoption name Hash value lots"), EngineOption::Unchanged));
    assert!(matches!(parse_setoption("setoption name Threads value 100"), EngineOption::Threads(64)));
    assert!(matches!(parse_setoption("setoption name OwnBook value TRUE"), EngineOption::OwnBook(true)));
    assert!(matches!(parse_setoption("setoption name OwnBook value no"), EngineOption::OwnBook(false)));
    assert!(matches!(parse_setoption("setoption name BookFile value <empty>"), EngineOption::BookFile(None)));
    match parse_setoption("setoption name BookFile value  books/main.bin ") {
        EngineOption::BookFile(Some(f)) => assert_eq!(f, "books/main.bin"),
        _ => panic!("book file not read"),
    }
    assert!(matches!(parse_setoption("setoption name Style value Risky"), EngineOption::Unchanged));
    assert!(matches!(parse_setoption("setoption Hash 12"), EngineOption::Unchanged));
}
