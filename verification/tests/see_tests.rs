use fructosita::board::Board;
use fructosita::movegen::find_move;
use fructosita::see::see;

fn see_of(fen: &str, uci_move: &str) -> i32 {
    let board = Board::from_fen(fen).unwrap();
    let mv = find_move(&board, uci_move).unwrap_or_else(|| panic!("unexpectedly illegal move: {uci_move} in {fen}"));
    see(&board, &mv)
}

#[test]
fn non_capture_returns_zero() {
    assert_eq!(see_of("4k3/8/8/8/8/8/8/R3K3 w - - 0 1", "a1a4"), 0);
}

#[test]
fn free_capture_no_recapture() {
    let value = see_of("4k3/8/8/4n3/8/8/8/4R2K w - - 0 1", "e1e5");
    assert_eq!(value, 320);
}

#[test]
fn losing_trade_queen_takes_defended_pawn() {
    let value = see_of("4k3/3p4/8/8/8/8/8/K2Q4 w - - 0 1", "d1d7");
    assert_eq!(value, 100 - 900);
}

#[test]
fn winning_trade_with_recapture() {
    let value = see_of("4k3/8/2p5/3n4/4P3/8/8/K7 w - - 0 1", "e4d5");
    assert_eq!(value, 320 - 100);
}

#[test]
fn defender_should_not_over_recapture() {
    let value = see_of("k2r4/8/8/3p4/4P3/8/8/K2Q4 w - - 0 1", "e4d5");
    assert_eq!(value, 100);
}

#[test]
fn xray_attack_through_battery() {
    let value = see_of("k7/8/3b4/4n3/8/8/4R3/K3R3 w - - 0 1", "e2e5");
    assert_eq!(value, 150);
}

#[test]
fn en_passant_capture_see() {
    let value = see_of("4k3/8/8/3pP3/8/8/8/4K3 w - d6 0 1", "e5d6");
    assert_eq!(value, 100);
}

#[test]
fn promotion_capture_see_uses_promoted_value() {
    let value = see_of("4rk2/3P4/8/8/8/8/8/K7 w - - 0 1", "d7e8q");
    assert_eq!(value, 500 - 900);
}

#[test]
fn quiet_promotion_is_zero() {
    assert_eq!(see_of("4k3/P7/8/8/8/8/8/4K3 w - - 0 1", "a7a8q"), 0);
}
