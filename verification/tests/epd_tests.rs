use fructosita::epd::{label, parse_line, run_position, EpdPosition};

#[test]
fn blank_and_comment_lines_are_skipped() {
    assert!(parse_line("", 1).unwrap().is_none());
    assert!(parse_line("   \t ", 2).unwrap().is_none());
    assert!(parse_line("  # a comment", 3).unwrap().is_none());
}

#[test]
fn short_line_is_an_error() {
    let err = parse_line("8/8/8/8 w -", 7).unwrap_err();
    assert_eq!(err, "line 7: EPD incompleto");
}

#[test]
fn operations_are_read() {
    let line = r#"6k1/5ppp/8/8/8/8/8/4R1K1 w - - bm Re8# Re7; am Kf1; id "back rank; mate";"#;
    let p = parse_line(line, 12).unwrap().unwrap();
    assert_eq!(p.fen, "6k1/5ppp/8/8/8/8/8/4R1K1 w - - 0 1");
    assert_eq!(p.best_moves, vec!["Re8#".to_string(), "Re7".to_string()]);
    assert_eq!(p.avoid_moves, vec!["Kf1".to_string()]);
    assert_eq!(p.id, Some("back rank; mate".to_string()));
    assert_eq!(p.line_number, 12);
    assert_eq!(label(&p), "back rank; mate");
}

#[test]
fn unquoted_id_and_missing_operations() {
    let p = parse_line("4k3/8/8/8/8/8/8/4K3 b - -", 4).unwrap().unwrap();
    assert!(p.best_moves.is_empty());
    assert!(p.avoid_moves.is_empty());
    assert_eq!(p.id, None);
    assert_eq!(label(&p), "epd.4");
    let q = parse_line("4k3/8/8/8/8/8/8/4K3 b - - id plain", 5).unwrap().unwrap();
    assert_eq!(q.id, Some("plain".to_string()));
}

fn position(fen: &str, bm: &[&str], am: &[&str]) -> EpdPosition {
    EpdPosition {
        fen: fen.to_string(),
        best_moves: bm.iter().map(|s| s.to_string()).collect(),
        avoid_moves: am.iter().map(|s| s.to_string()).collect(),
        id: None,
        line_number: 1,
    }
}

#[test]
fn mate_in_one_passes() {
    let p = position("6k1/5ppp/8/8/8/8/8/4R1K1 w - - 0 1", &["Re8#"], &[]);
    let r = run_position(&p, 3).unwrap();
    assert!(r.passed, "{}", r.reason);
    assert_eq!(r.best_move.to_uci(), "e1e8");
    assert_eq!(r.reason, "");
}

#[test]
fn avoided_move_fails_with_reason() {
    let p = position("3r3k/8/8/8/8/8/8/3QK3 w - - 0 1", &[], &["Qxd8+"]);
    let r = run_position(&p, 3).unwrap();
    assert!(!r.passed);
    assert_eq!(r.reason, "está en am [\"Qxd8+\"]");
    let q = position("3r3k/8/8/8/8/8/8/3QK3 w - - 0 1", &["Kf2"], &[]);
    let r = run_position(&q, 3).unwrap();
    assert!(!r.passed);
    assert_eq!(r.reason, "no está en bm [\"Kf2\"]");
}

#[test]
fn unreadable_inputs_are_errors() {
    assert!(run_position(&position("not a fen", &[], &[]), 2).is_err());
    let e = run_position(&position("6k1/5ppp/8/8/8/8/8/4R1K1 w - - 0 1", &["Nf3"], &[]), 2).unwrap_err();
    assert_eq!(e, "no se pudo resolver SAN 'Nf3'");
}
