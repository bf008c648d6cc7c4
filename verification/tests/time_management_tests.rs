use fructosita::time_management::{allocate_time, no_deadline, TimeAllocation, TimeAllocationReason, TimeControlInput};
use fructosita::types::Color;

fn base_input() -> TimeControlInput {
    TimeControlInput {
        side_to_move: Color::White,
        wtime_ms: None,
        btime_ms: None,
        winc_ms: None,
        binc_ms: None,
        movestogo: None,
        movetime_ms: None,
        depth: None,
        infinite: false,
        ponder: false,
    }
}

fn assert_ordered(allocation: TimeAllocation) {
    if let (Some(soft), Some(hard)) = (allocation.soft_ms, allocation.hard_ms) {
        assert!(hard >= soft);
    }
}

#[test]
fn movetime_1000_keeps_hard_within_command_time() {
    let allocation = allocate_time(TimeControlInput { movetime_ms: Some(1000), ..base_input() });
    assert_eq!(allocation.reason, TimeAllocationReason::MoveTime);
    assert!(allocation.hard_ms.unwrap() <= 1000);
    assert!(allocation.soft_ms.unwrap() <= allocation.hard_ms.unwrap());
    assert!(allocation.soft_ms.unwrap() > 0);
}

#[test]
fn tiny_movetime_does_not_underflow_or_exceed_command_time() {
    for movetime_ms in [1, 5] {
        let allocation = allocate_time(TimeControlInput { movetime_ms: Some(movetime_ms), ..base_input() });
        assert_eq!(allocation.soft_ms, Some(movetime_ms.min(1)));
        assert!(allocation.hard_ms.unwrap() <= movetime_ms);
        assert_ordered(allocation);
    }
}

#[test]
fn clock_with_movestogo_does_not_consume_whole_clock() {
    let allocation = allocate_time(TimeControlInput {
        wtime_ms: Some(60_000),
        winc_ms: Some(0),
        movestogo: Some(30),
        ..base_input()
    });
    assert_eq!(allocation.reason, TimeAllocationReason::Clock);
    assert!(allocation.soft_ms.unwrap() > 0);
    assert!(allocation.hard_ms.unwrap() < 60_000);
    assert_ordered(allocation);
}

#[test]
fn clock_without_movestogo_uses_conservative_estimate_and_increment() {
    let allocation = allocate_time(TimeControlInput { wtime_ms: Some(60_000), winc_ms: Some(1_000), ..base_input() });
    assert_eq!(allocation.soft_ms, Some(2_798));
    assert!(allocation.hard_ms.unwrap() < 60_000);
    assert_ordered(allocation);
}

#[test]
fn low_clock_leaves_safety_margin_when_possible() {
    let allocation = allocate_time(TimeControlInput { wtime_ms: Some(200), winc_ms: Some(0), ..base_input() });
    assert!(allocation.hard_ms.unwrap() < 200);
    assert!(allocation.soft_ms.unwrap() > 0);
    assert_ordered(allocation);
}

#[test]
fn black_uses_black_clock_and_increment() {
    let allocation = allocate_time(TimeControlInput {
        side_to_move: Color::Black,
        wtime_ms: Some(60_000),
        btime_ms: Some(9_000),
        winc_ms: Some(5_000),
        binc_ms: Some(100),
        movestogo: Some(9),
        ..base_input()
    });
    assert_eq!(allocation.soft_ms, Some(1_074));
    assert!(allocation.hard_ms.unwrap() < 9_000);
    assert_ordered(allocation);
}

#[test]
fn depth_only_has_no_artificial_deadline() {
    let allocation = allocate_time(TimeControlInput { depth: Some(5), ..base_input() });
    assert_eq!(allocation, no_deadline(TimeAllocationReason::DepthOnly));
}

#[test]
fn no_clock_has_stable_no_deadline_result() {
    let allocation = allocate_time(base_input());
    assert_eq!(allocation, no_deadline(TimeAllocationReason::NoClock));
}

#[test]
fn infinite_and_ponder_have_no_artificial_deadline() {
    for input in [
        TimeControlInput { infinite: true, ..base_input() },
        TimeControlInput { ponder: true, ..base_input() },
    ] {
        assert_eq!(allocate_time(input), no_deadline(TimeAllocationReason::InfiniteOrPonder));
    }
}

#[test]
fn same_input_produces_same_allocation() {
    let input = TimeControlInput {
        wtime_ms: Some(60_000),
        winc_ms: Some(1_000),
        movestogo: Some(30),
        ..base_input()
    };
    assert_eq!(allocate_time(input), allocate_time(input));
}

#[test]
fn movetime_zero_gives_zero_budget() {
    let allocation = allocate_time(TimeControlInput { movetime_ms: Some(0), ..base_input() });
    assert_eq!(allocation.hard_ms, Some(0));
    assert_eq!(allocation.soft_ms, Some(0));
}
