use fructosita::moves::{Move, MoveKind};
use fructosita::tt::{TTFlag, TranspositionTable};

#[test]
fn store_and_probe_roundtrip() {
    let mut tt = TranspositionTable::new(1);
    assert!(tt.probe(12345).is_none());
    tt.store(12345, 5, 100, TTFlag::Exact, None);
    let probe = tt.probe(12345).unwrap();
    assert_eq!(probe.depth, 5);
    assert_eq!(probe.score, 100);
    assert_eq!(probe.flag, TTFlag::Exact);
}

#[test]
fn clear_empties_table() {
    let mut tt = TranspositionTable::new(1);
    tt.store(1, 1, 1, TTFlag::Exact, None);
    tt.clear();
    assert!(tt.probe(1).is_none());
}

#[test]
fn same_key_is_always_replaced() {
    let mut tt = TranspositionTable::new(1);
    let mv = Move::new(12, 28, MoveKind::DoublePawnPush);
    tt.store(77, 6, -40, TTFlag::LowerBound, Some(mv));
    tt.store(77, 2, 10, TTFlag::UpperBound, None);
    let probe = tt.probe(77).unwrap();
    assert_eq!(probe.depth, 2);
    assert_eq!(probe.score, 10);
    assert_eq!(probe.flag, TTFlag::UpperBound);
    assert_eq!(probe.best_move, None);
}

#[test]
fn deeper_entry_of_another_key_is_kept() {
    let mut tt = TranspositionTable::new(1);
    let mv = Move::new(12, 28, MoveKind::DoublePawnPush);
    let other: u64 = 77 + (1u64 << 40);
    tt.store(77, 6, -40, TTFlag::LowerBound, Some(mv));
    tt.store(other, 2, 10, TTFlag::UpperBound, None);
    assert!(tt.probe(other).is_none());
    let probe = tt.probe(77).unwrap();
    assert_eq!(probe.depth, 6);
    assert_eq!(probe.best_move, Some(mv));
    tt.store(other, 9, 10, TTFlag::Exact, None);
    assert!(tt.probe(77).is_none());
    assert_eq!(tt.probe(other).unwrap().depth, 9);
}

#[test]
fn stored_depth_is_clamped() {
    let mut tt = TranspositionTable::new(1);
    tt.store(3, 500, 1, TTFlag::Exact, None);
    assert_eq!(tt.probe(3).unwrap().depth, 127);
    tt.store(4, -3, 1, TTFlag::Exact, None);
    assert_eq!(tt.probe(4).unwrap().depth, 0);
}

#[test]
fn other_key_in_same_slot_misses() {
    let mut tt = TranspositionTable::new(1);
    tt.store(5, 3, 7, TTFlag::Exact, None);
    assert!(tt.probe(6).is_none());
}
