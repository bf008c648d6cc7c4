//! Time budgets for the UCI `go` command.
//!
//! Budgets are relative, in milliseconds: nothing here reads a clock, the
//! caller turns them into deadlines.

use vstd::prelude::*;
use crate::types::Color;

verus! {

pub const DEFAULT_MOVES_TO_GO: u64 = 30;
pub const CLOCK_SAFETY_MS: u64 = 50;
pub const MIN_CLOCK_ALLOCATION_MS: u64 = 1;
pub const MOVETIME_MARGIN_MS: u64 = 5;
pub const HARD_MULTIPLIER: u64 = 3;
pub const INCREMENT_NUMERATOR: u64 = 4;
pub const INCREMENT_DENOMINATOR: u64 = 5;

#[derive(Clone, Copy, Debug, Eq, PartialEq, Structural)]
pub struct TimeControlInput {
    pub side_to_move: Color,
    pub wtime_ms: Option<u64>,
    pub btime_ms: Option<u64>,
    pub winc_ms: Option<u64>,
    pub binc_ms: Option<u64>,
    pub movestogo: Option<u64>,
    pub movetime_ms: Option<u64>,
    pub depth: Option<i32>,
    pub infinite: bool,
    pub ponder: bool,
}

#[derive(Clone, Copy, Debug, Eq, PartialEq, Structural)]
pub enum TimeAllocationReason {
    MoveTime,
    Clock,
    DepthOnly,
    InfiniteOrPonder,
    NoClock,
}

#[derive(Clone, Copy, Debug, Eq, PartialEq, Structural)]
pub struct TimeAllocation {
    pub soft_ms: Option<u64>,
    pub hard_ms: Option<u64>,
    pub reason: TimeAllocationReason,
}

pub open spec fn min_u64(a: u64, b: u64) -> u64 {
    if a <= b {
        a
    } else {
        b
    }
}

pub open spec fn max_u64(a: u64, b: u64) -> u64 {
    if a >= b {
        a
    } else {
        b
    }
}

pub open spec fn sat_sub(a: u64, b: u64) -> u64 {
    if a >= b {
        (a - b) as u64
    } else {
        0
    }
}

pub open spec fn sat_add(a: u64, b: u64) -> u64 {
    if a + b > u64::MAX {
        u64::MAX
    } else {
        (a + b) as u64
    }
}

pub open spec fn sat_mul(a: u64, b: u64) -> u64 {
    if a * b > u64::MAX {
        u64::MAX
    } else {
        (a * b) as u64
    }
}

/// No deadline at all.
pub open spec fn no_deadline_spec(reason: TimeAllocationReason) -> TimeAllocation {
    TimeAllocation { soft_ms: None, hard_ms: None, reason }
}

/// The budget for a search under a fixed move time: a little less than the
/// move time as soft limit (at least 1 ms, at most the move time), the move
/// time itself as hard limit.
pub open spec fn movetime_allocation(movetime: u64) -> TimeAllocation {
    TimeAllocation {
        soft_ms: Some(min_u64(max_u64(sat_sub(movetime, MOVETIME_MARGIN_MS), 1), movetime)),
        hard_ms: Some(movetime),
        reason: TimeAllocationReason::MoveTime,
    }
}

/// The budget for a search on a clock with `time_left` ms left and
/// `increment` ms per move: keep a safety reserve, split the rest over the
/// moves to go (30 when unknown), add four fifths of the increment; the
/// hard limit is three times the soft one, within the usable time.
pub open spec fn clock_allocation(time_left: u64, increment: u64, movestogo: Option<u64>) -> TimeAllocation {
    let reserve = min_u64(CLOCK_SAFETY_MS, sat_sub(time_left, MIN_CLOCK_ALLOCATION_MS));
    let usable = sat_sub(time_left, reserve);
    let moves_left = max_u64(
        match movestogo {
            Some(m) => m,
            None => DEFAULT_MOVES_TO_GO,
        },
        1,
    );
    let base = usable / moves_left;
    let increment_budget = sat_mul(increment, INCREMENT_NUMERATOR) / INCREMENT_DENOMINATOR;
    let raw = sat_add(base, increment_budget);
    let soft = if raw < MIN_CLOCK_ALLOCATION_MS {
        MIN_CLOCK_ALLOCATION_MS
    } else if raw > usable {
        usable
    } else {
        raw
    };
    let hard = max_u64(min_u64(sat_mul(soft, HARD_MULTIPLIER), usable), soft);
    TimeAllocation { soft_ms: Some(soft), hard_ms: Some(hard), reason: TimeAllocationReason::Clock }
}

/// The clock of the side to move, and its increment (0 when not given).
pub open spec fn own_clock(input: TimeControlInput) -> (Option<u64>, u64) {
    match input.side_to_move {
        Color::White => (input.wtime_ms, match input.winc_ms {
            Some(i) => i,
            None => 0,
        }),
        Color::Black => (input.btime_ms, match input.binc_ms {
            Some(i) => i,
            None => 0,
        }),
    }
}

/// The budget for a `go` command: none for infinite or ponder searches, the
/// move time when given, else the own clock when given, else none (a depth
/// search or no clock).
pub open spec fn allocation_of(input: TimeControlInput) -> TimeAllocation {
    if input.infinite || input.ponder {
        no_deadline_spec(TimeAllocationReason::InfiniteOrPonder)
    } else if input.movetime_ms is Some {
        movetime_allocation(input.movetime_ms->0)
    } else if own_clock(input).0 is Some {
        clock_allocation(own_clock(input).0->0, own_clock(input).1, input.movestogo)
    } else if input.depth is Some {
        no_deadline_spec(TimeAllocationReason::DepthOnly)
    } else {
        no_deadline_spec(TimeAllocationReason::NoClock)
    }
}

/// Clamping a soft limit into `[1, usable]` needs `usable` to be at least 1,
/// which an empty own clock does not give.
pub open spec fn input_ok(input: TimeControlInput) -> bool {
    !(input.infinite || input.ponder) && input.movetime_ms is None && own_clock(input).0 is Some ==> own_clock(
        input,
    ).0->0 > 0
}

pub fn allocate_time(input: TimeControlInput) -> (a: TimeAllocation)
    requires
        input_ok(input),
    ensures
        a == allocation_of(input),
{
    if input.infinite || input.ponder {
        return no_deadline(TimeAllocationReason::InfiniteOrPonder);
    }
    match input.movetime_ms {
        Some(movetime_ms) => {
            let m = movetime_ms.saturating_sub(MOVETIME_MARGIN_MS);
            let m = if m < 1 { 1 } else { m };
            let soft_ms = if m < movetime_ms { m } else { movetime_ms };
            return TimeAllocation {
                soft_ms: Some(soft_ms),
                hard_ms: Some(movetime_ms),
                reason: TimeAllocationReason::MoveTime,
            };
        },
        None => {},
    }
    let (time_left_ms, increment_ms) = match input.side_to_move {
        Color::White => (input.wtime_ms, match input.winc_ms {
            Some(i) => i,
            None => 0,
        }),
        Color::Black => (input.btime_ms, match input.binc_ms {
            Some(i) => i,
            None => 0,
        }),
    };
    match time_left_ms {
        Some(time_left_ms) => {
            return allocate_clock_time(time_left_ms, increment_ms, input.movestogo);
        },
        None => {},
    }
    if input.depth.is_some() {
        return no_deadline(TimeAllocationReason::DepthOnly);
    }
    no_deadline(TimeAllocationReason::NoClock)
}

fn saturating_mul_u64(a: u64, b: u64) -> (r: u64)
    ensures
        r == sat_mul(a, b),
{
    match a.checked_mul(b) {
        Some(p) => p,
        None => u64::MAX,
    }
}

fn allocate_clock_time(time_left_ms: u64, increment_ms: u64, movestogo: Option<u64>) -> (a: TimeAllocation)
    requires
        time_left_ms > 0,
    ensures
        a == clock_allocation(time_left_ms, increment_ms, movestogo),
{
    let t1 = time_left_ms.saturating_sub(MIN_CLOCK_ALLOCATION_MS);
    let reserve_ms = if CLOCK_SAFETY_MS <= t1 { CLOCK_SAFETY_MS } else { t1 };
    let usable_ms = time_left_ms.saturating_sub(reserve_ms);
    let mtg = match movestogo {
        Some(m) => m,
        None => DEFAULT_MOVES_TO_GO,
    };
    let moves_left = if mtg >= 1 { mtg } else { 1 };
    let base_ms = usable_ms / moves_left;
    let increment_budget_ms = saturating_mul_u64(increment_ms, INCREMENT_NUMERATOR) / INCREMENT_DENOMINATOR;
    let raw = base_ms.saturating_add(increment_budget_ms);
    let soft_ms = if raw < MIN_CLOCK_ALLOCATION_MS {
        MIN_CLOCK_ALLOCATION_MS
    } else if raw > usable_ms {
        usable_ms
    } else {
        raw
    };
    let h = saturating_mul_u64(soft_ms, HARD_MULTIPLIER);
    let h = if h <= usable_ms { h } else { usable_ms };
    let hard_ms = if h >= soft_ms { h } else { soft_ms };
    TimeAllocation { soft_ms: Some(soft_ms), hard_ms: Some(hard_ms), reason: TimeAllocationReason::Clock }
}

/// An allocation without deadlines.
pub fn no_deadline(reason: TimeAllocationReason) -> (a: TimeAllocation)
    ensures
        a == no_deadline_spec(reason),
{
    TimeAllocation { soft_ms: None, hard_ms: None, reason }
}

/// A budget has both limits or neither; the soft limit is within the hard
/// one and positive (but for a move time of 0); the hard limit is the move
/// time, or stays within the own clock, leaving the safety reserve when the
/// clock is larger than it.
pub proof fn lemma_allocation_ordered(input: TimeControlInput)
    requires
        input_ok(input),
    ensures
        allocation_of(input).soft_ms is Some <==> allocation_of(input).hard_ms is Some,
        allocation_of(input).soft_ms matches Some(s) ==> s <= allocation_of(input).hard_ms->0 && (input.movetime_ms
            != Some(0u64) ==> s >= 1),
        input.movetime_ms matches Some(mt) ==> (!(input.infinite || input.ponder) ==> allocation_of(input).hard_ms
            == Some(mt)),
        own_clock(input).0 matches Some(t) ==> (!(input.infinite || input.ponder) && input.movetime_ms is None
            ==> allocation_of(input).hard_ms->0 <= t && (t > CLOCK_SAFETY_MS ==> allocation_of(input).hard_ms->0
            < t)),
{
}

} // verus!
