//! Game tree search: negamax with alpha-beta pruning, principal variation
//! search, null-move pruning, late move reductions, check extensions,
//! quiescence search, a transposition table, killer moves and a history
//! heuristic, driven by iterative deepening.

use vstd::prelude::*;
use crate::board::{board_after, has_king, is_move_result, king_sq, square_attacked, zobrist_hash, Board};
use crate::eval::{evaluate, evaluation};
use crate::movegen::{counters_ok, generate_legal_moves, is_legal, lemma_pseudo_legal_consistent, position_ok};
use crate::moves::{kind_is_capture, kind_promotion, Move};
use crate::perft::{kings_unique, legal_position, lemma_legal_move_keeps_legal_position};
use crate::see::see;
use crate::tt::{TTFlag, TranspositionTable};
use crate::types::{Color, PieceType};

verus! {

pub const MATE_SCORE: i32 = 30_000;
pub const MAX_PLY: usize = 128;
pub const INFINITY: i32 = 32_000;
/// Scores are kept within this bound (the evaluation stays far below it).
pub const SCORE_BOUND: i32 = 1_000_000_000;
/// Deepest nominal search depth, so that the history bonus `depth * depth`
/// keeps the history scores within `i32`.
pub const MAX_DEPTH: i32 = 32_000;

/// The instant at which a search must stop.
#[verifier::external_type_specification]
#[verifier::external_body]
pub struct ExInstant(std::time::Instant);

/// `Instant::now`: the current time. Nothing is stated of it.
#[verifier::external_body]
fn instant_now() -> std::time::Instant {
    std::time::Instant::now()
}

/// `>=` on instants (`PartialOrd::ge`): whether `a` is not earlier than `b`.
/// Nothing is stated of the result: the instants are opaque here.
#[verifier::external_body]
fn instant_not_before(a: &std::time::Instant, b: &std::time::Instant) -> bool {
    *a >= *b
}

/// `Duration::from_secs`: a span of `secs` seconds.
#[verifier::external_body]
fn duration_from_secs(secs: u64) -> std::time::Duration {
    std::time::Duration::from_secs(secs)
}

/// `Instant::checked_add`: the instant `d` after `t`, or `None` when it
/// cannot be represented. Nothing is stated of the result.
#[verifier::external_body]
fn instant_checked_add(t: &std::time::Instant, d: std::time::Duration) -> Option<std::time::Instant> {
    t.checked_add(d)
}

/// Whether the wall clock has reached `deadline`.
fn deadline_reached(deadline: &std::time::Instant) -> bool {
    let now = instant_now();
    instant_not_before(&now, deadline)
}

/// Whether another thread has raised the stop flag (a relaxed load).
/// Nothing is stated of the result: it depends on the other threads.
fn stop_requested(stop: &std::sync::atomic::AtomicBool) -> bool {
    stop.load(std::sync::atomic::Ordering::Relaxed)
}

// ---------------------------------------------------------------------------
// Scores
// ---------------------------------------------------------------------------

/// Mate scores stored relative to the root: a score this close to the mate
/// score is a mate, found `ply` plies below the root.
pub open spec fn is_mate_score(score: int) -> bool {
    score >= MATE_SCORE - MAX_PLY as int
}

pub open spec fn is_mated_score(score: int) -> bool {
    score <= -MATE_SCORE + MAX_PLY as int
}

pub open spec fn clamp_score(x: int) -> int {
    if x > SCORE_BOUND {
        SCORE_BOUND as int
    } else if x < -SCORE_BOUND {
        -SCORE_BOUND as int
    } else {
        x
    }
}

/// A mate score made relative to the root before it is stored (kept
/// within the score bound).
pub open spec fn score_to_tt_spec(score: int, ply: int) -> int {
    if is_mate_score(score) {
        clamp_score(score + ply)
    } else if is_mated_score(score) {
        clamp_score(score - ply)
    } else {
        score
    }
}

/// A stored mate score made relative to the current node again.
pub open spec fn score_from_tt_spec(score: int, ply: int) -> int {
    if is_mate_score(score) {
        clamp_score(score - ply)
    } else if is_mated_score(score) {
        clamp_score(score + ply)
    } else {
        score
    }
}

pub open spec fn score_ok(x: int) -> bool {
    -SCORE_BOUND <= x <= SCORE_BOUND
}

fn clamp(x: i64) -> (r: i32)
    requires
        -3_000_000_000 <= x <= 3_000_000_000,
    ensures
        r == clamp_score(x as int),
        score_ok(r as int),
{
    if x > SCORE_BOUND as i64 {
        SCORE_BOUND
    } else if x < -(SCORE_BOUND as i64) {
        -SCORE_BOUND
    } else {
        x as i32
    }
}

pub fn score_to_tt(score: i32, ply: usize) -> (r: i32)
    requires
        score_ok(score as int),
        ply <= MAX_PLY,
    ensures
        r == score_to_tt_spec(score as int, ply as int),
        score_ok(r as int),
{
    if score >= MATE_SCORE - MAX_PLY as i32 {
        clamp(score as i64 + ply as i64)
    } else if score <= -MATE_SCORE + MAX_PLY as i32 {
        clamp(score as i64 - ply as i64)
    } else {
        score
    }
}

pub fn score_from_tt(score: i32, ply: usize) -> (r: i32)
    requires
        score_ok(score as int),
        ply <= MAX_PLY,
    ensures
        r == score_from_tt_spec(score as int, ply as int),
        score_ok(r as int),
{
    if score >= MATE_SCORE - MAX_PLY as i32 {
        clamp(score as i64 - ply as i64)
    } else if score <= -MATE_SCORE + MAX_PLY as i32 {
        clamp(score as i64 + ply as i64)
    } else {
        score
    }
}

/// A mate score found `ply` plies below the root and stored there is read
/// back unchanged at the same ply.
pub proof fn lemma_score_tt_roundtrip(score: int, ply: int)
    requires
        0 <= ply <= MAX_PLY,
        -SCORE_BOUND + 2 * MAX_PLY <= score <= SCORE_BOUND - 2 * MAX_PLY,
    ensures
        score_from_tt_spec(score_to_tt_spec(score, ply), ply) == score,
{
}

/// The side has a knight, bishop, rook or queen.
pub open spec fn has_non_pawn_material_spec(b: Board, c: Color) -> bool {
    let i = c.spec_index() as int;
    b.pieces[i][1] != 0 || b.pieces[i][2] != 0 || b.pieces[i][3] != 0 || b.pieces[i][4] != 0
}

pub fn has_non_pawn_material(board: &Board, color: Color) -> (r: bool)
    ensures
        r == has_non_pawn_material_spec(*board, color),
{
    let idx = color.index();
    board.pieces[idx][1] != 0 || board.pieces[idx][2] != 0 || board.pieces[idx][3] != 0 || board.pieces[idx][4] != 0
}

/// The position is drawn by the fifty-move rule, or repeats one of the
/// positions of `hist` (whose last element is the current one) at an even
/// distance back, within the reversible moves.
pub open spec fn repetition_or_fifty(b: Board, hist: Seq<u64>) -> bool {
    b.halfmove_clock >= 100 || (hist.len() >= 2 && exists|i: int|
        #![trigger hist[hist.len() - 1 - i]]
        2 <= i <= b.halfmove_clock && i <= hist.len() - 1 && i % 2 == 0 && hist[hist.len() - 1 - i] == hist[hist.len()
            - 1])
}

pub fn is_repetition_or_fifty(board: &Board, hist: &Vec<u64>) -> (r: bool)
    ensures
        r == repetition_or_fifty(*board, hist@),
{
    if board.halfmove_clock >= 100 {
        return true;
    }
    let len = hist.len();
    if len < 2 {
        return false;
    }
    let current = hist[len - 1];
    let hm = board.halfmove_clock as usize;
    let limit = if hm < len - 1 { hm } else { len - 1 };
    let mut i: u64 = 2;
    while i <= limit as u64
        invariant
            len == hist@.len(),
            len >= 2,
            current == hist@[len - 1],
            limit <= len - 1,
            limit <= board.halfmove_clock,
            limit == board.halfmove_clock || limit == len - 1,
            2 <= i <= limit + 2,
            i % 2 == 0,
            forall|j: int|
                #![trigger hist@[len - 1 - j]]
                2 <= j < i && j % 2 == 0 ==> hist@[len - 1 - j] != current,
        decreases limit + 2 - i,
    {
        let back = i as usize;
        if hist[len - 1 - back] == current {
            return true;
        }
        i += 2;
    }
    proof {
        let h = hist@;
        if exists|j: int|
            #![trigger h[h.len() - 1 - j]]
            2 <= j <= board.halfmove_clock && j <= h.len() - 1 && j % 2 == 0 && h[h.len() - 1 - j] == h[h.len() - 1] {
            let j = choose|j: int|
                #![trigger h[h.len() - 1 - j]]
                2 <= j <= board.halfmove_clock && j <= h.len() - 1 && j % 2 == 0 && h[h.len() - 1 - j] == h[h.len() - 1];
            assert(j < i);
        }
    }
    false
}

// ---------------------------------------------------------------------------
// Statistics and search state
// ---------------------------------------------------------------------------

/// Counters of a search.
#[derive(Clone, Copy, Debug, Default)]
pub struct SearchStats {
    pub nodes: u64,
    pub qnodes: u64,
    pub tt_probes: u64,
    pub tt_hits: u64,
    pub tt_cutoffs: u64,
    pub beta_cutoffs: u64,
    pub null_move_attempts: u64,
    pub null_move_cutoffs: u64,
    pub lmr_attempts: u64,
    pub lmr_researches: u64,
    pub pvs_researches: u64,
}

/// The counters of a search at one moment.
#[derive(Clone, Copy, Debug, Default)]
pub struct SearchStatsSnapshot {
    pub nodes: u64,
    pub qnodes: u64,
    pub tt_probes: u64,
    pub tt_hits: u64,
    pub tt_cutoffs: u64,
    pub beta_cutoffs: u64,
    pub null_move_attempts: u64,
    pub null_move_cutoffs: u64,
    pub lmr_attempts: u64,
    pub lmr_researches: u64,
    pub pvs_researches: u64,
}

/// The counters of two searches added up (each wrapping at `u64::MAX`).
pub fn add_stats(a: SearchStatsSnapshot, b: SearchStatsSnapshot) -> (r: SearchStatsSnapshot)
    ensures
        r.nodes == a.nodes.wrapping_add(b.nodes),
        r.qnodes == a.qnodes.wrapping_add(b.qnodes),
        r.tt_probes == a.tt_probes.wrapping_add(b.tt_probes),
        r.tt_hits == a.tt_hits.wrapping_add(b.tt_hits),
        r.tt_cutoffs == a.tt_cutoffs.wrapping_add(b.tt_cutoffs),
        r.beta_cutoffs == a.beta_cutoffs.wrapping_add(b.beta_cutoffs),
        r.null_move_attempts == a.null_move_attempts.wrapping_add(b.null_move_attempts),
        r.null_move_cutoffs == a.null_move_cutoffs.wrapping_add(b.null_move_cutoffs),
        r.lmr_attempts == a.lmr_attempts.wrapping_add(b.lmr_attempts),
        r.lmr_researches == a.lmr_researches.wrapping_add(b.lmr_researches),
        r.pvs_researches == a.pvs_researches.wrapping_add(b.pvs_researches),
{
    SearchStatsSnapshot {
        nodes: a.nodes.wrapping_add(b.nodes),
        qnodes: a.qnodes.wrapping_add(b.qnodes),
        tt_probes: a.tt_probes.wrapping_add(b.tt_probes),
        tt_hits: a.tt_hits.wrapping_add(b.tt_hits),
        tt_cutoffs: a.tt_cutoffs.wrapping_add(b.tt_cutoffs),
        beta_cutoffs: a.beta_cutoffs.wrapping_add(b.beta_cutoffs),
        null_move_attempts: a.null_move_attempts.wrapping_add(b.null_move_attempts),
        null_move_cutoffs: a.null_move_cutoffs.wrapping_add(b.null_move_cutoffs),
        lmr_attempts: a.lmr_attempts.wrapping_add(b.lmr_attempts),
        lmr_researches: a.lmr_researches.wrapping_add(b.lmr_researches),
        pvs_researches: a.pvs_researches.wrapping_add(b.pvs_researches),
    }
}

/// `x` rotated left by seven bits.
pub open spec fn rotl7(x: u64) -> u64 {
    (x << 7u64) | (x >> 57u64)
}

/// Seed of the bench signature for a depth, table size and thread count.
pub fn bench_signature_seed(depth: i32, hash_mb: usize, threads: usize) -> (r: u64)
    ensures
        r == 0x9E37_79B9_7F4A_7C15u64 ^ (depth as u64) ^ ((hash_mb as u64) << 32u64) ^ (threads as u64),
{
    0x9E37_79B9_7F4A_7C15u64 ^ (depth as u64) ^ ((hash_mb as u64) << 32u64) ^ (threads as u64)
}

/// The bench signature after one more position: the position's hash, the
/// chosen move, its score and the node count folded in.
pub fn bench_signature_step(sig: u64, hash: u64, mv: Move, score: i32, nodes: u64) -> (r: u64)
    ensures
        r == rotl7(sig) ^ hash ^ (((mv.from as u64) << 8u64) | (mv.to as u64)) ^ (((score as i64) as u64) << 1u64)
            ^ nodes,
{
    let rot = (sig << 7u64) | (sig >> 57u64);
    rot ^ hash ^ (((mv.from as u64) << 8u64) | (mv.to as u64)) ^ (((score as i64) as u64) << 1u64) ^ nodes
}

pub open spec fn snapshot_of(s: SearchStats) -> SearchStatsSnapshot {
    SearchStatsSnapshot {
        nodes: s.nodes,
        qnodes: s.qnodes,
        tt_probes: s.tt_probes,
        tt_hits: s.tt_hits,
        tt_cutoffs: s.tt_cutoffs,
        beta_cutoffs: s.beta_cutoffs,
        null_move_attempts: s.null_move_attempts,
        null_move_cutoffs: s.null_move_cutoffs,
        lmr_attempts: s.lmr_attempts,
        lmr_researches: s.lmr_researches,
        pvs_researches: s.pvs_researches,
    }
}

impl SearchStats {
    /// All counters at zero.
    pub fn new() -> (s: SearchStats)
        ensures
            snapshot_of(s) == (SearchStatsSnapshot {
                nodes: 0,
                qnodes: 0,
                tt_probes: 0,
                tt_hits: 0,
                tt_cutoffs: 0,
                beta_cutoffs: 0,
                null_move_attempts: 0,
                null_move_cutoffs: 0,
                lmr_attempts: 0,
                lmr_researches: 0,
                pvs_researches: 0,
            }),
    {
        SearchStats {
            nodes: 0,
            qnodes: 0,
            tt_probes: 0,
            tt_hits: 0,
            tt_cutoffs: 0,
            beta_cutoffs: 0,
            null_move_attempts: 0,
            null_move_cutoffs: 0,
            lmr_attempts: 0,
            lmr_researches: 0,
            pvs_researches: 0,
        }
    }

    /// The counters as they are now.
    pub fn snapshot(&self) -> (r: SearchStatsSnapshot)
        ensures
            r == snapshot_of(*self),
    {
        SearchStatsSnapshot {
            nodes: self.nodes,
            qnodes: self.qnodes,
            tt_probes: self.tt_probes,
            tt_hits: self.tt_hits,
            tt_cutoffs: self.tt_cutoffs,
            beta_cutoffs: self.beta_cutoffs,
            null_move_attempts: self.null_move_attempts,
            null_move_cutoffs: self.null_move_cutoffs,
            lmr_attempts: self.lmr_attempts,
            lmr_researches: self.lmr_researches,
            pvs_researches: self.pvs_researches,
        }
    }
}

/// History scores stay within this bound.
pub const HISTORY_BOUND: i32 = 1_073_741_823;

/// State of one search thread: counters, stop conditions, killer moves per
/// ply, history scores per (colour, from, to), and the hashes of the
/// positions from the start of the game to the current node.
pub struct SearchContext<'a> {
    pub stats: SearchStats,
    pub seldepth: u8,
    pub stop: &'a std::sync::atomic::AtomicBool,
    pub hard_deadline: std::time::Instant,
    pub stopped: bool,
    pub is_main: bool,
    pub killers: Vec<[Option<Move>; 2]>,
    pub history_heuristic: Vec<i32>,
    pub game_history: Vec<u64>,
    /// The moves the last search node to finish searched, in order, each
    /// with its score and the search below it; `None` when that node
    /// returned before its move loop ended (a stop, a cutoff from the table
    /// or a null move, a draw, a leaf, a mate).
    pub last_node: Ghost<Option<Seq<Child>>>,
    /// A search without limits: the stop flag and the deadline are not
    /// looked at, so it never stops early.
    pub unbounded: bool,
}

impl<'a> SearchContext<'a> {
    pub open spec fn wf(&self) -> bool {
        &&& self.killers@.len() == MAX_PLY
        &&& self.history_heuristic@.len() == 8192
        &&& forall|i: int| 0 <= i < 8192 ==> 0 <= #[trigger] self.history_heuristic@[i] <= HISTORY_BOUND
    }

    /// A fresh context: no killers, empty history, not stopped.
    pub fn new(
        stop: &'a std::sync::atomic::AtomicBool,
        hard_deadline: std::time::Instant,
        is_main: bool,
        game_history: Vec<u64>,
    ) -> (ctx: SearchContext<'a>)
        ensures
            ctx.wf(),
            !ctx.stopped,
            ctx.is_main == is_main,
            ctx.game_history@ == game_history@,
            ctx.stats == SearchStats::new_spec(),
            !ctx.unbounded,
    {
        let mut killers: Vec<[Option<Move>; 2]> = Vec::new();
        let mut i: usize = 0;
        while i < MAX_PLY
            invariant
                i <= MAX_PLY,
                killers@.len() == i,
            decreases MAX_PLY - i,
        {
            killers.push([None, None]);
            i += 1;
        }
        let mut history_heuristic: Vec<i32> = Vec::new();
        let mut j: usize = 0;
        while j < 8192
            invariant
                j <= 8192,
                history_heuristic@.len() == j,
                forall|k: int| 0 <= k < j ==> history_heuristic@[k] == 0,
            decreases 8192 - j,
        {
            history_heuristic.push(0);
            j += 1;
        }
        SearchContext {
            stats: SearchStats::new(),
            seldepth: 0,
            stop,
            hard_deadline,
            stopped: false,
            is_main,
            killers,
            history_heuristic,
            game_history,
            last_node: Ghost(None),
            unbounded: false,
        }
    }

    /// Remembers a quiet move that caused a cutoff at `ply`, keeping the
    /// previous one as second killer.
    pub fn store_killer(&mut self, ply: usize, mv: Move)
        requires
            old(self).wf(),
            ply < MAX_PLY,
        ensures
            final(self).wf(),
            final(self).stats == old(self).stats,
            final(self).stopped == old(self).stopped,
            final(self).game_history == old(self).game_history,
            final(self).history_heuristic == old(self).history_heuristic,
            final(self).is_main == old(self).is_main,
            final(self).unbounded == old(self).unbounded,
            final(self).killers@ == (if old(self).killers@[ply as int][0] != Some(mv) {
                old(self).killers@.update(ply as int, [Some(mv), old(self).killers@[ply as int][0]])
            } else {
                old(self).killers@
            }),
    {
        let k = self.killers[ply];
        if k[0] != Some(mv) {
            self.killers.set(ply, [Some(mv), k[0]]);
        }
    }

    /// Adds `depth * depth` to the history score of `mv` for `color`,
    /// halving every score once one passes a million.
    pub fn bump_history(&mut self, color: Color, mv: Move, depth: i32)
        requires
            old(self).wf(),
            0 <= depth <= MAX_DEPTH,
            mv.from < 64,
            mv.to < 64,
        ensures
            final(self).wf(),
            final(self).stats == old(self).stats,
            final(self).stopped == old(self).stopped,
            final(self).game_history == old(self).game_history,
            final(self).unbounded == old(self).unbounded,
            final(self).killers == old(self).killers,
            final(self).is_main == old(self).is_main,
    {
        let idx = color.index() * 4096 + (mv.from as usize) * 64 + mv.to as usize;
        assert(depth * depth <= 1_024_000_000) by (nonlinear_arith)
            requires
                0 <= depth <= MAX_DEPTH,
        ;
        let e = self.history_heuristic[idx] + depth * depth;
        self.history_heuristic.set(idx, e);
        if e > 1_000_000 {
            let mut i: usize = 0;
            while i < 8192
                invariant
                    self.killers == old(self).killers,
                    self.unbounded == old(self).unbounded,
                    self.is_main == old(self).is_main,
                    self.stats == old(self).stats,
                    self.stopped == old(self).stopped,
                    self.game_history == old(self).game_history,
                    self.history_heuristic@.len() == 8192,
                    self.killers@.len() == MAX_PLY,
                    i <= 8192,
                    forall|k: int| 0 <= k < i ==> 0 <= #[trigger] self.history_heuristic@[k] <= HISTORY_BOUND,
                    forall|k: int| i <= k < 8192 ==> 0 <= #[trigger] self.history_heuristic@[k] <= HISTORY_BOUND + 1_024_000_000,
                decreases 8192 - i,
            {
                let v = self.history_heuristic[i];
                self.history_heuristic.set(i, v / 2);
                i += 1;
            }
        }
    }

    /// Marks the search stopped when, at a multiple of 2048 nodes, the stop
    /// flag is raised or the hard deadline has passed.
    pub fn check_time(&mut self)
        requires
            old(self).wf(),
        ensures
            final(self).wf(),
            final(self).stats == old(self).stats,
            final(self).game_history == old(self).game_history,
            final(self).killers == old(self).killers,
            final(self).history_heuristic == old(self).history_heuristic,
            final(self).seldepth == old(self).seldepth,
            final(self).is_main == old(self).is_main,
            final(self).unbounded == old(self).unbounded,
            old(self).stopped ==> final(self).stopped,
            old(self).unbounded ==> final(self).stopped == old(self).stopped,
            final(self).stopped && !old(self).stopped ==> old(self).stats.nodes % 2048 == 0,
    {
        if !self.unbounded && self.stats.nodes % 2048 == 0 && (stop_requested(self.stop) || deadline_reached(
            &self.hard_deadline,
        )) {
            self.stopped = true;
        }
    }
}

impl SearchStats {
    pub open spec fn new_spec() -> SearchStats {
        SearchStats {
            nodes: 0,
            qnodes: 0,
            tt_probes: 0,
            tt_hits: 0,
            tt_cutoffs: 0,
            beta_cutoffs: 0,
            null_move_attempts: 0,
            null_move_cutoffs: 0,
            lmr_attempts: 0,
            lmr_researches: 0,
            pvs_researches: 0,
        }
    }
}

// ---------------------------------------------------------------------------
// Move ordering
// ---------------------------------------------------------------------------

/// The scores of `v` do not increase.
pub open spec fn sorted_desc(v: Seq<(Move, i32)>) -> bool {
    forall|i: int, j: int| 0 <= i < j < v.len() ==> #[trigger] v[i].1 >= #[trigger] v[j].1
}

/// Sorts by score, highest first; moves of equal score keep their order.
pub fn sort_by_score_desc(v: Vec<(Move, i32)>) -> (out: Vec<(Move, i32)>)
    ensures
        out@.to_multiset() == v@.to_multiset(),
        sorted_desc(out@),
{
    broadcast use vstd::seq_lib::group_to_multiset_ensures;

    let mut out: Vec<(Move, i32)> = Vec::new();
    let mut i: usize = 0;
    while i < v.len()
        invariant
            i <= v@.len(),
            out@.to_multiset() == v@.take(i as int).to_multiset(),
            sorted_desc(out@),
        decreases v@.len() - i,
    {
        let x = v[i];
        let mut p: usize = 0;
        while p < out.len() && out[p].1 >= x.1
            invariant
                p <= out@.len(),
                forall|j: int| 0 <= j < p ==> #[trigger] out@[j].1 >= x.1,
            decreases out@.len() - p,
        {
            p += 1;
        }
        let ghost before = out@;
        out.insert(p, x);
        proof {
            assert(v@.take(i as int + 1) == v@.take(i as int).push(x));
            vstd::seq_lib::to_multiset_insert(before, p as int, x);
            vstd::seq_lib::to_multiset_build(v@.take(i as int), x);
            assert(out@ == before.insert(p as int, x));
            assert forall|a: int, b: int| 0 <= a < b < out@.len() implies #[trigger] out@[a].1 >= #[trigger] out@[b].1 by {
                if a < p && b == p {
                } else if a < p && b > p {
                    assert(out@[b] == before[b - 1]);
                    if p < before.len() {
                        assert(before[p as int].1 < x.1);
                        assert(before[b - 1].1 <= before[p as int].1 || b - 1 == p);
                    }
                } else if a == p {
                    assert(out@[b] == before[b - 1]);
                    if p < before.len() {
                        assert(before[p as int].1 < x.1);
                        assert(before[b - 1].1 <= before[p as int].1 || b - 1 == p);
                    }
                } else if a > p {
                    assert(out@[a] == before[a - 1] && out@[b] == before[b - 1]);
                }
            }
        }
        i += 1;
    }
    proof {
        assert(v@.take(v@.len() as int) == v@);
    }
    out
}

/// The first components of `v`.
pub open spec fn moves_of(v: Seq<(Move, i32)>) -> Seq<Move> {
    v.map_values(|p: (Move, i32)| p.0)
}

fn strip_scores(v: &Vec<(Move, i32)>) -> (out: Vec<Move>)
    ensures
        out@ == moves_of(v@),
{
    let mut out: Vec<Move> = Vec::new();
    let mut i: usize = 0;
    while i < v.len()
        invariant
            i <= v@.len(),
            out@ == moves_of(v@.take(i as int)),
        decreases v@.len() - i,
    {
        out.push(v[i].0);
        proof {
            assert(v@.take(i as int + 1) == v@.take(i as int).push(v@[i as int]));
            assert(moves_of(v@.take(i as int + 1)) == moves_of(v@.take(i as int)).push(v@[i as int].0));
        }
        i += 1;
    }
    proof {
        assert(v@.take(v@.len() as int) == v@);
    }
    out
}

/// Index of the history score of `m` for colour `c`.
pub open spec fn history_index(c: Color, m: Move) -> int {
    c.spec_index() as int * 4096 + m.from as int * 64 + m.to as int
}

/// The ordering score of `m`: the table move first, then promotions (to a
/// queen first), captures that do not lose material by their exchange
/// value, the two killer moves, and the other moves by history, with losing
/// captures by their (negative) exchange value.
pub open spec fn move_score_spec(m: Move, b: Board, tt_move: Option<Move>, killers: [Option<Move>; 2], history: Seq<i32>) -> int {
    if tt_move == Some(m) {
        2_000_000
    } else if kind_promotion(m.kind) is Some {
        (if kind_promotion(m.kind) == Some(PieceType::Queen) { 1_800_000int } else { 100_000int }) + (if kind_is_capture(
            m.kind,
        ) {
            10_000int
        } else {
            0int
        })
    } else if kind_is_capture(m.kind) {
        let s = crate::see::see_spec(b, m);
        if s >= 0 {
            1_000_000 + s
        } else {
            s
        }
    } else if killers[0] == Some(m) {
        90_000
    } else if killers[1] == Some(m) {
        80_000
    } else {
        history[history_index(b.side_to_move, m)] as int
    }
}

/// A pseudo-legal move of such a position can have its exchange value taken.
pub proof fn lemma_see_ok(b: Board, m: Move)
    requires
        position_ok(b),
        crate::movegen::pseudo_legal(b, m),
    ensures
        m.from < 64,
        m.to < 64,
        m.kind is EnPassantCapture ==> 0 <= crate::see::see_ep_victim(b.side_to_move, m.to as int) < 64,
{
}

pub fn move_score(mv: &Move, board: &Board, tt_move: Option<Move>, ply: usize, ctx: &SearchContext) -> (r: i32)
    requires
        position_ok(*board),
        crate::movegen::pseudo_legal(*board, *mv),
        ply < MAX_PLY,
        ctx.wf(),
    ensures
        r == move_score_spec(*mv, *board, tt_move, ctx.killers@[ply as int], ctx.history_heuristic@),
{
    proof {
        lemma_see_ok(*board, *mv);
    }
    let is_tt = match tt_move {
        Some(t) => t == *mv,
        None => false,
    };
    if is_tt {
        return 2_000_000;
    }
    match mv.promotion() {
        Some(promo) => {
            let base = if promo == PieceType::Queen { 1_800_000 } else { 100_000 };
            return base + if mv.is_capture() { 10_000 } else { 0 };
        },
        None => {},
    }
    if mv.is_capture() {
        let see_value = see(board, mv);
        if see_value >= 0 {
            1_000_000 + see_value
        } else {
            see_value
        }
    } else {
        let k = ctx.killers[ply];
        let k0 = match k[0] {
            Some(a) => a == *mv,
            None => false,
        };
        let k1 = match k[1] {
            Some(a) => a == *mv,
            None => false,
        };
        if k0 {
            90_000
        } else if k1 {
            80_000
        } else {
            let idx = board.side_to_move.index() * 4096 + (mv.from as usize) * 64 + mv.to as usize;
            ctx.history_heuristic[idx]
        }
    }
}

/// Two lists with the same elements counted with multiplicity hold the same
/// elements, and one repeats none exactly when the other does.
proof fn lemma_same_multiset<A>(a: Seq<A>, b: Seq<A>)
    requires
        a.to_multiset() == b.to_multiset(),
    ensures
        forall|x: A| #[trigger] a.contains(x) <==> b.contains(x),
        a.no_duplicates() ==> b.no_duplicates(),
        a.len() == b.len(),
{
    a.to_multiset_ensures();
    b.to_multiset_ensures();
    assert forall|x: A| #[trigger] a.contains(x) <==> b.contains(x) by {
        assert(a.contains(x) <==> a.to_multiset().count(x) > 0);
        assert(b.contains(x) <==> b.to_multiset().count(x) > 0);
    }
    if a.no_duplicates() {
        a.lemma_multiset_has_no_duplicates();
        b.lemma_multiset_has_no_duplicates_conv();
    }
}

/// Orders `moves` by their ordering score, highest first (equal scores
/// keep their order).
pub fn order_moves(moves: &Vec<Move>, board: &Board, tt_move: Option<Move>, ply: usize, ctx: &SearchContext) -> (out: Vec<Move>)
    requires
        position_ok(*board),
        forall|m: Move| #[trigger] moves@.contains(m) ==> crate::movegen::pseudo_legal(*board, m),
        ply < MAX_PLY,
        ctx.wf(),
    ensures
        forall|m: Move| #[trigger] out@.contains(m) <==> moves@.contains(m),
        out@.len() == moves@.len(),
        moves@.no_duplicates() ==> out@.no_duplicates(),
        forall|i: int, j: int|
            0 <= i < j < out@.len() ==> move_score_spec(#[trigger] out@[i], *board, tt_move, ctx.killers@[ply as int], ctx.history_heuristic@)
                >= move_score_spec(#[trigger] out@[j], *board, tt_move, ctx.killers@[ply as int], ctx.history_heuristic@),
{
    let ghost key = |m: Move| move_score_spec(m, *board, tt_move, ctx.killers@[ply as int], ctx.history_heuristic@);
    let mut scored: Vec<(Move, i32)> = Vec::new();
    let mut i: usize = 0;
    while i < moves.len()
        invariant
            i <= moves@.len(),
            scored@.len() == i,
            forall|m: Move| #[trigger] key(m) == move_score_spec(m, *board, tt_move, ctx.killers@[ply as int], ctx.history_heuristic@),
            forall|j: int| 0 <= j < i ==> (#[trigger] scored@[j]).0 == moves@[j] && key(moves@[j]) == scored@[j].1,
            position_ok(*board),
            forall|m: Move| #[trigger] moves@.contains(m) ==> crate::movegen::pseudo_legal(*board, m),
            ply < MAX_PLY,
            ctx.wf(),
        decreases moves@.len() - i,
    {
        let m = moves[i];
        proof {
            assert(moves@.contains(m)) by {
                assert(moves@[i as int] == m);
            }
        }
        let sc = move_score(&m, board, tt_move, ply, ctx);
        scored.push((m, sc));
        i += 1;
    }
    let sorted = sort_by_score_desc(scored);
    let out = strip_scores(&sorted);
    proof {
        lemma_same_multiset(scored@, sorted@);
        lemma_same_multiset(sorted@, scored@);
        assert forall|j: int| 0 <= j < sorted@.len() implies #[trigger] sorted@[j].1 == key(sorted@[j].0) by {
            assert(sorted@.contains(sorted@[j]));
            assert(scored@.contains(sorted@[j]));
            let k = choose|k: int| 0 <= k < scored@.len() && scored@[k] == sorted@[j];
            assert(scored@[k].0 == moves@[k] && key(moves@[k]) == scored@[k].1);
        }
        assert forall|m: Move| #[trigger] out@.contains(m) <==> moves@.contains(m) by {
            if out@.contains(m) {
                let j = choose|j: int| 0 <= j < out@.len() && out@[j] == m;
                assert(sorted@.contains(sorted@[j]));
                assert(scored@.contains(sorted@[j]));
                let k = choose|k: int| 0 <= k < scored@.len() && scored@[k] == sorted@[j];
                assert(moves@[k] == m);
            }
            if moves@.contains(m) {
                let k = choose|k: int| 0 <= k < moves@.len() && moves@[k] == m;
                assert(scored@.contains(scored@[k]));
                assert(sorted@.contains(scored@[k]));
                let j = choose|j: int| 0 <= j < sorted@.len() && sorted@[j] == scored@[k];
                assert(out@[j] == m);
            }
        }
        if moves@.no_duplicates() {
            assert(scored@.no_duplicates()) by {
                assert forall|a: int, b: int| 0 <= a < scored@.len() && 0 <= b < scored@.len() && a != b implies scored@[a] != scored@[b] by {
                    assert(moves@[a] != moves@[b]);
                }
            }
            assert forall|a: int, b: int| 0 <= a < out@.len() && 0 <= b < out@.len() && a != b implies out@[a] != out@[b] by {
                if out@[a] == out@[b] {
                    assert(sorted@[a].1 == key(sorted@[a].0));
                    assert(sorted@[b].1 == key(sorted@[b].0));
                    assert(sorted@[a] == sorted@[b]);
                }
            }
        }
        assert forall|a: int, b: int| 0 <= a < b < out@.len() implies key(#[trigger] out@[a]) >= key(#[trigger] out@[b]) by {
            assert(sorted@[a].1 >= sorted@[b].1);
            assert(sorted@[a].1 == key(sorted@[a].0));
            assert(sorted@[b].1 == key(sorted@[b].0));
        }
    }
    out
}

/// Quiescence searches queen promotions and captures that do not lose
/// material by their exchange value.
pub open spec fn quiescence_keeps(b: Board, m: Move) -> bool {
    kind_promotion(m.kind) == Some(PieceType::Queen) || (kind_is_capture(m.kind) && crate::see::see_spec(b, m) >= 0)
}

/// Order of the quiescence moves: queen promotions first, then by exchange
/// value.
pub open spec fn quiescence_score(b: Board, m: Move) -> int {
    if kind_promotion(m.kind) == Some(PieceType::Queen) {
        i32::MAX as int
    } else {
        crate::see::see_spec(b, m)
    }
}

/// The moves quiescence searches, best first: all of them when in check,
/// else queen promotions and captures that do not lose material.
pub fn filter_and_order_quiescence_moves(moves: Vec<Move>, board: &Board, in_check: bool) -> (out: Vec<Move>)
    requires
        position_ok(*board),
        forall|m: Move| #[trigger] moves@.contains(m) ==> crate::movegen::pseudo_legal(*board, m),
    ensures
        in_check ==> out@ == moves@,
        !in_check ==> forall|m: Move| #[trigger] out@.contains(m) <==> moves@.contains(m) && quiescence_keeps(*board, m),
        moves@.no_duplicates() ==> out@.no_duplicates(),
        !in_check ==> forall|i: int, j: int|
            0 <= i < j < out@.len() ==> quiescence_score(*board, #[trigger] out@[i]) >= quiescence_score(*board, #[trigger] out@[j]),
{
    if in_check {
        return moves;
    }
    let ghost key = |m: Move| quiescence_score(*board, m);
    let mut scored: Vec<(Move, i32)> = Vec::new();
    let mut i: usize = 0;
    while i < moves.len()
        invariant
            i <= moves@.len(),
            position_ok(*board),
            forall|m: Move| #[trigger] moves@.contains(m) ==> crate::movegen::pseudo_legal(*board, m),
            forall|m: Move| #[trigger] key(m) == quiescence_score(*board, m),
            forall|j: int| 0 <= j < scored@.len() ==> key((#[trigger] scored@[j]).0) == scored@[j].1,
            forall|m: Move|
                #[trigger] moves_of(scored@).contains(m) <==> moves@.take(i as int).contains(m) && quiescence_keeps(*board, m),
            moves@.no_duplicates() ==> moves_of(scored@).no_duplicates(),
            forall|j: int| 0 <= j < scored@.len() ==> moves@.take(i as int).contains((#[trigger] scored@[j]).0),
        decreases moves@.len() - i,
    {
        let m = moves[i];
        proof {
            assert(moves@.contains(m)) by {
                assert(moves@[i as int] == m);
            }
            lemma_see_ok(*board, m);
            assert(moves@.take(i as int + 1) == moves@.take(i as int).push(m));
        }
        let ghost before = scored@;
        let keep = if m.promotion() == Some(PieceType::Queen) {
            scored.push((m, i32::MAX));
            true
        } else if !m.is_capture() {
            false
        } else {
            let sv = see(board, &m);
            if sv >= 0 {
                scored.push((m, sv));
                true
            } else {
                false
            }
        };
        proof {
            assert(!moves@.take(i as int).contains(m) || !moves@.no_duplicates()) by {
                if moves@.take(i as int).contains(m) && moves@.no_duplicates() {
                    let t = moves@.take(i as int);
                    let k = choose|k: int| 0 <= k < t.len() && t[k] == m;
                    assert(moves@[k] == moves@[i as int]);
                }
            }
            if keep {
                assert(scored@ == before.push(scored@[before.len() as int]));
                assert(moves_of(scored@) == moves_of(before).push(m));
                assert forall|x: Move| #[trigger] moves_of(scored@).contains(x) <==> moves_of(before).contains(x) || x == m by {
                    if moves_of(scored@).contains(x) && x != m {
                        let k = choose|k: int| 0 <= k < moves_of(scored@).len() && moves_of(scored@)[k] == x;
                        assert(moves_of(before)[k] == x);
                    }
                    if moves_of(before).contains(x) {
                        let k = choose|k: int| 0 <= k < moves_of(before).len() && moves_of(before)[k] == x;
                        assert(moves_of(scored@)[k] == x);
                    }
                    if x == m {
                        assert(moves_of(scored@)[before.len() as int] == m);
                    }
                }
                if moves@.no_duplicates() {
                    assert forall|a: int, b: int|
                        0 <= a < moves_of(scored@).len() && 0 <= b < moves_of(scored@).len() && a != b implies moves_of(scored@)[a]
                        != moves_of(scored@)[b] by {
                        if a == before.len() {
                            assert(moves@.take(i as int).contains(before[b].0));
                        } else if b == before.len() {
                            assert(moves@.take(i as int).contains(before[a].0));
                        }
                    }
                }
            }
            assert forall|x: Move| #[trigger] moves@.take(i as int + 1).contains(x) <==> moves@.take(i as int).contains(x) || x == m by {
                if moves@.take(i as int + 1).contains(x) && x != m {
                    let t = moves@.take(i as int + 1);
                    let k = choose|k: int| 0 <= k < t.len() && t[k] == x;
                    assert(moves@.take(i as int)[k] == x);
                }
                if moves@.take(i as int).contains(x) {
                    let t = moves@.take(i as int);
                    let k = choose|k: int| 0 <= k < t.len() && t[k] == x;
                    assert(moves@.take(i as int + 1)[k] == x);
                }
                if x == m {
                    assert(moves@.take(i as int + 1)[i as int] == m);
                }
            }
        }
        i += 1;
    }
    proof {
        assert(moves@.take(moves@.len() as int) == moves@);
    }
    let sorted = sort_by_score_desc(scored);
    let out = strip_scores(&sorted);
    proof {
        lemma_same_multiset(scored@, sorted@);
        lemma_same_multiset(sorted@, scored@);
        assert forall|j: int| 0 <= j < sorted@.len() implies key((#[trigger] sorted@[j]).0) == sorted@[j].1 by {
            assert(sorted@.contains(sorted@[j]));
            assert(scored@.contains(sorted@[j]));
        }
        assert forall|m: Move| #[trigger] out@.contains(m) <==> moves_of(scored@).contains(m) by {
            if out@.contains(m) {
                let j = choose|j: int| 0 <= j < out@.len() && out@[j] == m;
                assert(scored@.contains(sorted@[j]));
                let k = choose|k: int| 0 <= k < scored@.len() && scored@[k] == sorted@[j];
                assert(moves_of(scored@)[k] == m);
            }
            if moves_of(scored@).contains(m) {
                let k = choose|k: int| 0 <= k < moves_of(scored@).len() && moves_of(scored@)[k] == m;
                assert(sorted@.contains(scored@[k]));
                let j = choose|j: int| 0 <= j < sorted@.len() && sorted@[j] == scored@[k];
                assert(out@[j] == m);
            }
        }
        if moves@.no_duplicates() {
            assert(scored@.no_duplicates()) by {
                assert forall|a: int, b: int| 0 <= a < scored@.len() && 0 <= b < scored@.len() && a != b implies scored@[a] != scored@[b] by {
                    assert(moves_of(scored@)[a] != moves_of(scored@)[b]);
                }
            }
            assert forall|a: int, b: int| 0 <= a < out@.len() && 0 <= b < out@.len() && a != b implies out@[a] != out@[b] by {
                if out@[a] == out@[b] {
                    assert(sorted@[a].1 == key(sorted@[a].0));
                    assert(sorted@[b].1 == key(sorted@[b].0));
                    assert(sorted@[a] == sorted@[b]);
                }
            }
        }
        assert forall|a: int, b: int| 0 <= a < b < out@.len() implies quiescence_score(*board, #[trigger] out@[a]) >= quiescence_score(
            *board,
            #[trigger] out@[b],
        ) by {
            assert(sorted@[a].1 >= sorted@[b].1);
            assert(key(sorted@[a].0) == sorted@[a].1);
            assert(key(sorted@[b].0) == sorted@[b].1);
        }
    }
    out
}

// ---------------------------------------------------------------------------
// Search
// ---------------------------------------------------------------------------

/// `pv` is a line of legal moves played from `b`.
pub open spec fn legal_line(b: Board, pv: Seq<Move>) -> bool
    decreases pv.len(),
{
    pv.len() == 0 || (is_legal(b, pv[0]) && legal_line(board_after(b, pv[0]), pv.drop_first()))
}

/// The move counters have room for `n` more moves.
pub open spec fn counters_room(b: Board, n: int) -> bool {
    b.halfmove_clock + n <= u32::MAX && b.fullmove_number + n <= u32::MAX
}

/// A node of the search at `ply`: a position of a game, with room in its
/// counters for the plies left.
pub open spec fn node_ok(b: Board, ply: int) -> bool {
    &&& legal_position(b)
    &&& 0 <= ply <= MAX_PLY
    &&& counters_room(b, MAX_PLY - ply + 1)
}

/// Playing a legal move from a node gives a node one ply deeper.
proof fn lemma_child_node(b: Board, m: Move, nb: Board, ply: int)
    requires
        node_ok(b, ply),
        ply < MAX_PLY,
        is_legal(b, m),
        is_move_result(b, m, nb),
    ensures
        node_ok(nb, ply + 1),
        nb == board_after(b, m),
{
    lemma_legal_move_keeps_legal_position(b, m, nb);
    crate::board::lemma_move_result_unique(b, m, nb, board_after(b, m));
}

/// Passing the move when not in check gives a node one ply deeper.
proof fn lemma_null_node(b: Board, nb: Board, ply: int)
    requires
        node_ok(b, ply),
        ply < MAX_PLY,
        !square_attacked(b, king_sq(b, b.side_to_move), b.side_to_move.spec_opposite()),
        nb.pieces == b.pieces,
        nb.mailbox == b.mailbox,
        nb.castling == b.castling,
        nb.en_passant is None,
        nb.side_to_move == b.side_to_move.spec_opposite(),
        nb.halfmove_clock == b.halfmove_clock + 1,
        nb.fullmove_number == b.fullmove_number,
        b.wf() ==> nb.wf(),
    ensures
        node_ok(nb, ply + 1),
{
    assert(crate::board::occ_bb(nb) == crate::board::occ_bb(b));
}

/// The score of a null window just above `alpha` (held within the score
/// bound).
fn above(alpha: i32) -> (r: i32)
    requires
        score_ok(alpha as int),
    ensures
        r == clamp_score(-alpha - 1),
        score_ok(r as int),
{
    if alpha >= SCORE_BOUND {
        -SCORE_BOUND
    } else {
        -alpha - 1
    }
}

/// The score of a null window just below `-beta` (held within the score
/// bound).
fn below(beta: i32) -> (r: i32)
    requires
        score_ok(beta as int),
    ensures
        r == clamp_score(-beta + 1),
        score_ok(r as int),
{
    if beta <= -SCORE_BOUND {
        SCORE_BOUND
    } else {
        -beta + 1
    }
}

/// What a search call keeps of its context.
pub open spec fn ctx_kept(before: SearchContext, after: SearchContext) -> bool {
    &&& after.wf()
    &&& after.game_history@ == before.game_history@
    &&& before.stopped ==> after.stopped
    &&& after.is_main == before.is_main
    &&& after.unbounded == before.unbounded
    &&& before.unbounded ==> after.stopped == before.stopped
}

/// The first move of `l` with the highest score above `-INFINITY`, with
/// that score (`None` and `-INFINITY` when no score is above it): the best
/// move of a search node.
pub open spec fn best_of(l: Seq<(Move, int)>) -> (Option<Move>, int)
    decreases l.len(),
{
    if l.len() == 0 {
        (None, -INFINITY as int)
    } else {
        let p = best_of(l.drop_last());
        if l.last().1 > p.1 {
            (Some(l.last().0), l.last().1)
        } else {
            p
        }
    }
}

/// The best move is known exactly when some score is above `-INFINITY`.
pub proof fn lemma_best_of_some(l: Seq<(Move, int)>)
    ensures
        best_of(l).0 is Some <==> best_of(l).1 > -INFINITY,
        best_of(l).1 >= -INFINITY,
    decreases l.len(),
{
    if l.len() > 0 {
        lemma_best_of_some(l.drop_last());
    }
}

/// The highest of `a` and the scores of `l`.
pub open spec fn max_from(l: Seq<(Move, int)>, a: int) -> int
    decreases l.len(),
{
    if l.len() == 0 {
        a
    } else {
        let p = max_from(l.drop_last(), a);
        if l.last().1 > p {
            l.last().1
        } else {
            p
        }
    }
}

/// The moves searched at a node: the first `l.len()` moves of the node's
/// move list `moves`.
pub open spec fn searched_prefix(l: Seq<(Move, int)>, moves: Seq<Move>) -> bool {
    &&& l.len() <= moves.len()
    &&& forall|j: int| 0 <= j < l.len() ==> (#[trigger] l[j]).0 == moves[j]
}

/// Every move `ok` accepts was searched.
pub open spec fn covers(l: Seq<(Move, int)>, ok: spec_fn(Move) -> bool) -> bool {
    forall|m: Move| #[trigger] ok(m) ==> exists|j: int| 0 <= j < l.len() && (#[trigger] l[j]).0 == m
}

/// A node of `b` that searched the moves of `l` with their scores returns
/// the best of them and leaves a line starting with the best move.
pub open spec fn node_result(b: Board, l: Seq<(Move, int)>, r: int, pv: Seq<Move>) -> bool {
    &&& l.len() > 0
    &&& forall|j: int| 0 <= j < l.len() ==> is_legal(b, (#[trigger] l[j]).0)
    &&& forall|j: int| 0 <= j < l.len() ==> (#[trigger] l[j]).1 <= r
    &&& r == best_of(l).1
    &&& match best_of(l).0 {
        Some(m) => pv.len() > 0 && pv[0] == m,
        None => pv.len() == 0,
    }
}

/// One move searched at a node: the score the node counted for it, the
/// result of the search of the position after the move (the last one, when
/// it was searched again), the window that search was given, and, when that
/// search went through its own moves, the moves it searched.
pub struct Child {
    pub mv: Move,
    pub score: int,
    pub result: int,
    pub alpha: int,
    pub beta: int,
    pub searched: bool,
    pub tree: Seq<Child>,
}

/// The moves of a search record with their scores.
pub open spec fn scores_of(t: Seq<Child>) -> Seq<(Move, int)> {
    Seq::new(t.len(), |i: int| (t[i].mv, t[i].score))
}

/// A negamax record of `b` with result `r`: the result is the best of the
/// scores, every move is legal, every score is the negated result of the
/// search after its move, and every search below that went through its
/// moves is such a record too.
pub open spec fn negamax_tree(b: Board, t: Seq<Child>, r: int) -> bool
    decreases t,
{
    &&& t.len() > 0
    &&& r == best_of(scores_of(t)).1
    &&& forall|i: int| 0 <= i < t.len() ==> is_legal(b, (#[trigger] t[i]).mv)
    &&& forall|i: int| 0 <= i < t.len() ==> (#[trigger] t[i]).score == -t[i].result
    &&& forall|i: int|
        0 <= i < t.len() ==> (#[trigger] t[i]).searched ==> negamax_tree(board_after(b, t[i].mv), t[i].tree, t[i].result)
}

/// How a quiescence search of `b` at `ply`, with upper bound `beta`, that
/// did not go through its moves ended: standing pat at or above `beta` out
/// of check, or at the ply limit, on the static evaluation; or mated.
pub open spec fn quiescence_leaf(b: Board, ply: int, beta: int, r: int) -> bool {
    ||| r == evaluation(b) && (ply >= MAX_PLY || (!side_in_check(b) && evaluation(b) >= beta))
    ||| ply < MAX_PLY && side_in_check(b) && no_legal_move(b) && r == -MATE_SCORE + ply
}

/// A quiescence record of `b` at `ply`, searched with window `(alpha,
/// beta)`, with result `r`: the result follows from the scores as
/// `quiescence_result` states, every score is the negated result of the
/// quiescence search after its move, with window `(-beta, -alpha')`, every
/// such search that went through its moves is such a record too, and every
/// other one ended as `quiescence_leaf` states.
pub open spec fn quiescence_tree(b: Board, ply: int, t: Seq<Child>, alpha: int, beta: int, r: int) -> bool
    decreases t,
{
    &&& quiescence_result(b, scores_of(t), alpha, beta, r)
    &&& forall|i: int| 0 <= i < t.len() ==> (#[trigger] t[i]).score == -t[i].result
    &&& forall|i: int| 0 <= i < t.len() ==> (#[trigger] t[i]).alpha == -beta
    &&& forall|i: int|
        0 <= i < t.len() ==> !(#[trigger] t[i]).searched ==> quiescence_leaf(
            board_after(b, t[i].mv),
            ply + 1,
            t[i].beta,
            t[i].result,
        )
    &&& forall|i: int|
        0 <= i < t.len() ==> (#[trigger] t[i]).searched ==> quiescence_tree(
            board_after(b, t[i].mv),
            ply + 1,
            t[i].tree,
            t[i].alpha,
            t[i].beta,
            t[i].result,
        )
}

/// The depth a table entry keeps of a search of `depth`.
pub open spec fn kept_depth(depth: int) -> int {
    if depth < 0 {
        0
    } else if depth > 127 {
        127
    } else {
        depth
    }
}

/// The slot of `b` in `tt` holds the result of a root search of `b` to
/// `depth` with score `score`, or else another position searched deeper,
/// which that result could not replace.
pub open spec fn root_stored(tt: TranspositionTable, b: Board, depth: int, score: int) -> bool {
    match tt.slots()[tt.slot_of(b.hash)] {
        Some(e) => if e.key == b.hash {
            e.depth as int == kept_depth(depth) && e.score as int == score
        } else {
            e.depth as int > kept_depth(depth)
        },
        None => false,
    }
}

/// The entry of `b` in `tt`, if any, names `m` as the best move.
pub open spec fn root_move(tt: TranspositionTable, b: Board, m: Move) -> bool {
    match tt.slots()[tt.slot_of(b.hash)] {
        Some(e) => e.key == b.hash ==> e.best_move == Some(m),
        None => true,
    }
}

/// `r` comes from a table entry of `b` deep enough for a search of `depth`
/// at `ply`, whose bound decides the window `(alpha, beta)`.
pub open spec fn table_cutoff(tt: TranspositionTable, b: Board, depth: int, alpha: int, beta: int, ply: int, r: int) -> bool {
    match tt.probe_spec(b.hash) {
        Some(e) => e.depth >= depth && r == score_from_tt_spec(e.score as int, ply) && match e.flag {
            TTFlag::Exact => true,
            TTFlag::LowerBound => r >= beta,
            TTFlag::UpperBound => r <= alpha,
        },
        None => false,
    }
}

/// The side to move is in check.
pub open spec fn side_in_check(b: Board) -> bool {
    square_attacked(b, king_sq(b, b.side_to_move), b.side_to_move.spec_opposite())
}

/// The side to move has no legal move.
pub open spec fn no_legal_move(b: Board) -> bool {
    forall|m: Move| !is_legal(b, m)
}

/// Why a game is over.
#[derive(Clone, Copy, Debug, PartialEq, Eq, Structural)]
pub enum GameEnd {
    Checkmate,
    Stalemate,
    FiftyMoves,
}

/// Whether the game is over in `board`: a draw once fifty moves went by
/// without a capture or pawn move, else checkmate or stalemate when the side
/// to move has no legal move.
pub fn game_end(board: &Board) -> (r: Option<GameEnd>)
    requires
        position_ok(*board),
        counters_ok(*board),
    ensures
        r == (if board.halfmove_clock >= 100 {
            Some(GameEnd::FiftyMoves)
        } else if no_legal_move(*board) {
            Some(if side_in_check(*board) { GameEnd::Checkmate } else { GameEnd::Stalemate })
        } else {
            None
        }),
{
    if board.halfmove_clock >= 100 {
        return Some(GameEnd::FiftyMoves);
    }
    let legal = generate_legal_moves(board);
    if legal.len() > 0 {
        proof {
            assert(legal@.contains(legal@[0]));
        }
        return None;
    }
    proof {
        assert forall|m: Move| !is_legal(*board, m) by {
            if is_legal(*board, m) {
                assert(legal@.contains(m));
            }
        }
    }
    if board.in_check(board.side_to_move) {
        Some(GameEnd::Checkmate)
    } else {
        Some(GameEnd::Stalemate)
    }
}

/// The moves quiescence searches from `b`: every legal move when in check,
/// else the legal queen promotions and captures that do not lose material.
pub open spec fn quiescence_searches(b: Board, m: Move) -> bool {
    is_legal(b, m) && (side_in_check(b) || quiescence_keeps(b, m))
}

/// A quiescence node of `b`, called with window `(alpha, beta)`, that
/// searched the moves of `l` with their scores: every one of its moves was
/// searched unless the result reached `beta`, and the result is the best
/// score of the moves, floored by `alpha` and, out of check, by the
/// static evaluation (standing pat).
pub open spec fn quiescence_result(b: Board, l: Seq<(Move, int)>, alpha: int, beta: int, r: int) -> bool {
    &&& forall|j: int| 0 <= j < l.len() ==> quiescence_searches(b, (#[trigger] l[j]).0)
    &&& covers(l, |m: Move| quiescence_searches(b, m)) || r >= beta
    &&& if side_in_check(b) {
        r == (if best_of(l).1 > max_from(l, alpha) {
            best_of(l).1
        } else {
            max_from(l, alpha)
        })
    } else {
        r == max_from(l, if evaluation(b) > alpha { evaluation(b) } else { alpha })
    }
}

/// Quiescence search: from `board`, only captures and queen promotions
/// (all evasions when in check), standing pat on the evaluation otherwise.
#[verifier::spinoff_prover]
#[verifier::rlimit(60)]
pub fn quiescence(board: &Board, alpha: i32, beta: i32, ply: usize, ctx: &mut SearchContext) -> (r: i32)
    requires
        node_ok(*board, ply as int),
        old(ctx).wf(),
        score_ok(alpha as int),
        score_ok(beta as int),
    ensures
        ctx_kept(*old(ctx), *final(ctx)),
        score_ok(r as int),
        final(ctx).stopped ==> r == 0,
        !final(ctx).stopped && !side_in_check(*board) ==> r >= evaluation(*board),
        !final(ctx).stopped && ply < MAX_PLY && side_in_check(*board) && no_legal_move(*board) ==> r
            == -MATE_SCORE + ply,
        final(ctx).last_node@ matches Some(t) ==> quiescence_tree(*board, ply as int, t, alpha as int, beta as int, r as int),
        !final(ctx).stopped && final(ctx).last_node@ is None ==> quiescence_leaf(*board, ply as int, beta as int, r as int),
        !final(ctx).stopped && ply < MAX_PLY && (side_in_check(*board) ==> !no_legal_move(*board)) && (!side_in_check(
            *board,
        ) ==> evaluation(*board) < beta) ==> final(ctx).last_node@ is Some,
    decreases MAX_PLY - ply,
{
    let ghost old_alpha = alpha;
    let mut alpha = alpha;
    ctx.check_time();
    ctx.last_node = Ghost(None);
    if ctx.stopped {
        return 0;
    }
    ctx.stats.qnodes = ctx.stats.qnodes.wrapping_add(1);
    ctx.stats.nodes = ctx.stats.nodes.wrapping_add(1);
    if ply as u8 > ctx.seldepth {
        ctx.seldepth = ply as u8;
    }
    let in_check = board.in_check(board.side_to_move);
    let stand_pat = evaluate(board);
    if !in_check {
        if stand_pat >= beta {
            return stand_pat;
        }
        if stand_pat > alpha {
            alpha = stand_pat;
        }
    }
    if ply >= MAX_PLY {
        return stand_pat;
    }
    let all_legal = generate_legal_moves(board);
    proof {
        if no_legal_move(*board) && all_legal@.len() > 0 {
            assert(all_legal@.contains(all_legal@[0]));
        }
    }
    if in_check && all_legal.len() == 0 {
        proof {
            assert forall|m: Move| !is_legal(*board, m) by {
                if is_legal(*board, m) {
                    assert(all_legal@.contains(m));
                }
            }
        }
        return -MATE_SCORE + ply as i32;
    }
    let ghost legal = all_legal@;
    let ghost start_alpha = alpha;
    let moves = filter_and_order_quiescence_moves(all_legal, board, in_check);
    proof {
        assert forall|m: Move| #[trigger] moves@.contains(m) implies is_legal(*board, m) by {
            assert(legal.contains(m));
        }
    }
    let mut best: i32 = if in_check { -INFINITY } else { alpha };
    let mut i: usize = 0;
    let ghost mut seen: Seq<(Move, int)> = Seq::empty();
    let ghost mut kids: Seq<Child> = Seq::empty();
    let ghost ctx0 = *ctx;
    while i < moves.len()
        invariant_except_break
            seen.len() == i,
        invariant
            node_ok(*board, ply as int),
            ply < MAX_PLY,
            forall|m: Move| #[trigger] moves@.contains(m) ==> is_legal(*board, m),
            ctx_kept(ctx0, *ctx),
            ctx0.game_history@ == old(ctx).game_history@,
            old(ctx).stopped ==> ctx0.stopped,
            ctx0.is_main == old(ctx).is_main,
            ctx0.unbounded == old(ctx).unbounded,
            old(ctx).unbounded ==> ctx0.stopped == old(ctx).stopped,
            !ctx.stopped,
            score_ok(alpha as int),
            score_ok(beta as int),
            score_ok(best as int),
            i <= moves@.len(),
            in_check == side_in_check(*board),
            !in_check ==> alpha >= evaluation(*board),
            in_check ==> !no_legal_move(*board),
            searched_prefix(seen, moves@),
            seen.len() == i || seen.len() == i + 1,
            scores_of(kids) == seen,
            forall|j: int| 0 <= j < kids.len() ==> (#[trigger] kids[j]).score == -kids[j].result,
            forall|j: int| 0 <= j < kids.len() ==> (#[trigger] kids[j]).alpha == -beta,
            forall|j: int|
                0 <= j < kids.len() ==> !(#[trigger] kids[j]).searched ==> quiescence_leaf(
                    board_after(*board, kids[j].mv),
                    ply + 1,
                    kids[j].beta,
                    kids[j].result,
                ),
            forall|j: int|
                0 <= j < kids.len() ==> (#[trigger] kids[j]).searched ==> quiescence_tree(
                    board_after(*board, kids[j].mv),
                    ply + 1,
                    kids[j].tree,
                    kids[j].alpha,
                    kids[j].beta,
                    kids[j].result,
                ),
            in_check ==> best == best_of(seen).1,
            alpha == max_from(seen, start_alpha as int),
            start_alpha == (if !in_check && evaluation(*board) > old_alpha { evaluation(*board) as i32 } else {
                old_alpha
            }),
        ensures
            seen.len() == moves@.len() || alpha >= beta,
        decreases moves@.len() - i,
    {
        let mv = moves[i];
        proof {
            assert(moves@.contains(mv)) by {
                assert(moves@[i as int] == mv);
            }
            lemma_pseudo_legal_consistent(*board, mv);
        }
        let next = board.make_move(mv);
        proof {
            lemma_child_node(*board, mv, next, ply as int);
        }
        let ghost call_alpha = alpha;
        let child = quiescence(&next, -beta, -alpha, ply + 1, ctx);
        let ghost ct = ctx.last_node@;
        let score = -child;
        if ctx.stopped {
            ctx.last_node = Ghost(None);
            return 0;
        }
        proof {
            let s2 = seen.push((mv, score as int));
            let kid = Child {
                mv,
                score: score as int,
                result: child as int,
                alpha: -beta,
                beta: -call_alpha,
                searched: ct is Some,
                tree: match ct {
                    Some(t) => t,
                    None => Seq::empty(),
                },
            };
            let k2 = kids.push(kid);
            assert(scores_of(k2) =~= s2);
            kids = k2;
            assert(s2.drop_last() =~= seen);
            assert(s2[i as int].0 == moves@[i as int]);
            assert forall|j: int| 0 <= j < s2.len() implies (#[trigger] s2[j]).0 == moves@[j] by {
                if j < i {
                    assert(s2[j] == seen[j]);
                }
            }
            seen = s2;
        }
        if score > best {
            best = score;
        }
        if score > alpha {
            alpha = score;
        }
        if alpha >= beta {
            break;
        }
        i += 1;
    }
    proof {
        if seen.len() == moves@.len() {
            assert forall|m: Move| #[trigger] quiescence_searches(*board, m) implies exists|j: int|
                0 <= j < seen.len() && (#[trigger] seen[j]).0 == m by {
                assert(legal.contains(m));
                assert(moves@.contains(m));
                let j = choose|j: int| 0 <= j < moves@.len() && moves@[j] == m;
                assert(seen[j].0 == m);
            }
        }
        assert forall|j: int| 0 <= j < seen.len() implies quiescence_searches(*board, (#[trigger] seen[j]).0) by {
            let m = moves@[j];
            assert(moves@.contains(m));
            assert(seen[j].0 == m);
            if !in_check {
                assert(legal.contains(m) && quiescence_keeps(*board, m));
            }
        }
    }
    proof {
        assert(scores_of(kids) == seen);
        assert(quiescence_result(*board, scores_of(kids), old_alpha as int, beta as int, (if in_check {
            if best > alpha { best } else { alpha }
        } else {
            alpha
        }) as int));
    }
    ctx.last_node = Ghost(Some(kids));
    if in_check {
        if best > alpha {
            best
        } else {
            alpha
        }
    } else {
        alpha
    }
}

/// What a negamax call keeps of the table.
pub open spec fn tt_kept(tt: TranspositionTable) -> bool {
    tt.wf() && tt.scores_within(SCORE_BOUND as int)
}

/// A line starting with `mv` followed by a line from the board after it.
proof fn lemma_line_cons(b: Board, mv: Move, rest: Seq<Move>)
    requires
        is_legal(b, mv),
        legal_line(board_after(b, mv), rest),
    ensures
        legal_line(b, seq![mv] + rest),
{
    assert((seq![mv] + rest).drop_first() == rest);
    assert((seq![mv] + rest)[0] == mv);
}

fn append_line(pv: &mut Vec<Move>, mv: Move, child: &Vec<Move>)
    ensures
        final(pv)@ == seq![mv] + child@,
{
    pv.clear();
    pv.push(mv);
    let mut i: usize = 0;
    while i < child.len()
        invariant
            i <= child@.len(),
            pv@ == seq![mv] + child@.take(i as int),
        decreases child@.len() - i,
    {
        pv.push(child[i]);
        proof {
            assert(child@.take(i as int + 1) == child@.take(i as int).push(child@[i as int]));
            assert(seq![mv] + child@.take(i as int + 1) == (seq![mv] + child@.take(i as int)).push(child@[i as int]));
        }
        i += 1;
    }
    proof {
        assert(child@.take(child@.len() as int) == child@);
    }
}

/// Negamax alpha-beta search of `board` to `depth` (extended by one in
/// check), with the principal variation left in `pv`.
#[verifier::spinoff_prover]
#[verifier::rlimit(100)]
pub fn negamax(
    board: &Board,
    depth: i32,
    alpha: i32,
    beta: i32,
    ply: usize,
    pv: &mut Vec<Move>,
    ctx: &mut SearchContext,
    tt: &mut TranspositionTable,
) -> (r: i32)
    requires
        node_ok(*board, ply as int),
        old(ctx).wf(),
        tt_kept(*old(tt)),
        score_ok(alpha as int),
        score_ok(beta as int),
        depth + (MAX_PLY - ply) <= MAX_DEPTH,
    ensures
        ctx_kept(*old(ctx), *final(ctx)),
        tt_kept(*final(tt)),
        score_ok(r as int),
        final(ctx).stopped ==> r == 0,
        legal_line(*board, final(pv)@),
        ply > 0 && repetition_or_fifty(*board, old(ctx).game_history@) ==> r == 0,
        !final(ctx).stopped && ply >= MAX_PLY && !repetition_or_fifty(*board, old(ctx).game_history@) ==> r
            == evaluation(*board),
        !final(ctx).stopped && ply == 0 && depth >= 1 && no_legal_move(*board) ==> r == (if side_in_check(
            *board,
        ) {
            -MATE_SCORE
        } else {
            0
        }),
        final(ctx).last_node@ matches Some(t) ==> node_result(*board, scores_of(t), r as int, final(pv)@)
            && negamax_tree(*board, t, r as int) && (covers(scores_of(t), |m: Move| is_legal(*board, m)) || r
            >= beta || alpha >= beta),
        !final(ctx).stopped && 0 < ply < MAX_PLY && !repetition_or_fifty(*board, old(ctx).game_history@) && depth
            >= 1 ==> final(ctx).last_node@ is Some || (no_legal_move(*board) && r == (if side_in_check(*board) {
            -MATE_SCORE + ply
        } else {
            0
        })) || table_cutoff(
            *old(tt),
            *board,
            depth + (if side_in_check(*board) { 1int } else { 0int }),
            alpha as int,
            beta as int,
            ply as int,
            r as int,
        ) || (!side_in_check(*board) && r >= beta),
        !final(ctx).stopped && ply == 0 && depth >= 1 && !no_legal_move(*board) ==> final(ctx).last_node@ is Some,
        ply == 0 && final(ctx).last_node@ is Some ==> root_stored(
            *final(tt),
            *board,
            depth + (if side_in_check(*board) { 1int } else { 0int }),
            r as int,
        ) && (final(pv)@.len() > 0 ==> root_move(*final(tt), *board, final(pv)@[0])),
    decreases MAX_PLY - ply,
{
    pv.clear();
    let mut alpha = alpha;
    ctx.check_time();
    ctx.last_node = Ghost(None);
    if ctx.stopped {
        return 0;
    }
    if ply > 0 && is_repetition_or_fifty(board, &ctx.game_history) {
        return 0;
    }
    if ply >= MAX_PLY {
        return evaluate(board);
    }
    let us = board.side_to_move;
    let in_check = board.in_check(us);
    let ghost old_depth = depth;
    let mut depth = depth;
    if in_check {
        depth = depth + 1;
    }
    if depth <= 0 {
        let q = quiescence(board, alpha, beta, ply, ctx);
        ctx.last_node = Ghost(None);
        return q;
    }
    ctx.stats.nodes = ctx.stats.nodes.wrapping_add(1);
    if ply as u8 > ctx.seldepth {
        ctx.seldepth = ply as u8;
    }
    ctx.stats.tt_probes = ctx.stats.tt_probes.wrapping_add(1);
    let tt_probe = tt.probe(board.hash);
    let mut tt_move: Option<Move> = None;
    match tt_probe {
        Some(entry) => {
            ctx.stats.tt_hits = ctx.stats.tt_hits.wrapping_add(1);
            tt_move = entry.best_move;
            if entry.depth as i32 >= depth && ply > 0 {
                let score = score_from_tt(entry.score, ply);
                let usable = match entry.flag {
                    TTFlag::Exact => true,
                    TTFlag::LowerBound => score >= beta,
                    TTFlag::UpperBound => score <= alpha,
                };
                if usable {
                    ctx.stats.tt_cutoffs = ctx.stats.tt_cutoffs.wrapping_add(1);
                    return score;
                }
            }
        },
        None => {},
    }
    if !in_check && depth >= 3 && ply > 0 && has_non_pawn_material(board, us) {
        ctx.stats.null_move_attempts = ctx.stats.null_move_attempts.wrapping_add(1);
        let null_board = board.make_null_move();
        proof {
            lemma_null_node(*board, null_board, ply as int);
        }
        let ghost h0 = ctx.game_history@;
        ctx.game_history.push(null_board.hash);
        let mut child_pv: Vec<Move> = Vec::new();
        let child = negamax(&null_board, depth - 4, -beta, below(beta), ply + 1, &mut child_pv, ctx, tt);
        let score = -child;
        ctx.game_history.pop();
        ctx.last_node = Ghost(None);
        proof {
            assert(ctx.game_history@ == h0);
        }
        if ctx.stopped {
            return 0;
        }
        if score >= beta {
            ctx.stats.null_move_cutoffs = ctx.stats.null_move_cutoffs.wrapping_add(1);
            return score;
        }
    }
    let legal = generate_legal_moves(board);
    proof {
        if no_legal_move(*board) && legal@.len() > 0 {
            assert(legal@.contains(legal@[0]));
        }
    }
    if legal.len() == 0 {
        proof {
            assert forall|m: Move| !is_legal(*board, m) by {
                if is_legal(*board, m) {
                    assert(legal@.contains(m));
                }
            }
        }
        ctx.last_node = Ghost(None);
        return if in_check {
            -MATE_SCORE + ply as i32
        } else {
            0
        };
    }
    let moves = order_moves(&legal, board, tt_move, ply, ctx);
    proof {
        assert(legal@.contains(legal@[0]));
        assert(moves@.len() > 0);
        assert(moves@.contains(moves@[0]));
    }
    let mut best_score: i32 = -INFINITY;
    let mut best_move = moves[0];
    let alpha_orig = alpha;
    let mut i: usize = 0;
    let ghost mut seen: Seq<(Move, int)> = Seq::empty();
    let ghost mut kids: Seq<Child> = Seq::empty();
    let ghost ctx0 = *ctx;
    while i < moves.len()
        invariant_except_break
            seen.len() == i,
        invariant
            node_ok(*board, ply as int),
            ply < MAX_PLY,
            us == board.side_to_move,
            1 <= depth <= MAX_DEPTH - (MAX_PLY - ply) + 1,
            forall|m: Move| #[trigger] moves@.contains(m) <==> is_legal(*board, m),
            ctx_kept(ctx0, *ctx),
            ctx0.game_history@ == old(ctx).game_history@,
            old(ctx).stopped ==> ctx0.stopped,
            ctx0.is_main == old(ctx).is_main,
            ctx0.unbounded == old(ctx).unbounded,
            old(ctx).unbounded ==> ctx0.stopped == old(ctx).stopped,
            !ctx.stopped,
            tt_kept(*tt),
            score_ok(alpha as int),
            score_ok(beta as int),
            score_ok(best_score as int),
            score_ok(alpha_orig as int),
            is_legal(*board, best_move),
            legal_line(*board, pv@),
            i <= moves@.len(),
            moves@.len() > 0,
            searched_prefix(seen, moves@),
            scores_of(kids) == seen,
            forall|j: int| 0 <= j < kids.len() ==> (#[trigger] kids[j]).score == -kids[j].result,
            forall|j: int|
                0 <= j < kids.len() ==> (#[trigger] kids[j]).searched ==> negamax_tree(
                    board_after(*board, kids[j].mv),
                    kids[j].tree,
                    kids[j].result,
                ),
            seen.len() == i || seen.len() == i + 1,
            best_score == best_of(seen).1,
            forall|j: int| 0 <= j < seen.len() ==> (#[trigger] seen[j]).1 <= best_score,
            match best_of(seen).0 {
                Some(m) => pv@.len() > 0 && pv@[0] == m && best_move == m,
                None => pv@.len() == 0,
            },
            depth == old_depth + (if in_check { 1int } else { 0int }),
            in_check == side_in_check(*board),
            seen.len() == 0 ==> alpha == alpha_orig,
            seen.len() > 0 ==> alpha == (if best_score > alpha_orig { best_score } else { alpha_orig }),
        ensures
            seen.len() == moves@.len() || alpha >= beta,
            seen.len() > 0,
        decreases moves@.len() - i,
    {
        let mv = moves[i];
        proof {
            assert(moves@.contains(mv)) by {
                assert(moves@[i as int] == mv);
            }
            lemma_pseudo_legal_consistent(*board, mv);
        }
        let next = board.make_move(mv);
        proof {
            lemma_child_node(*board, mv, next, ply as int);
        }
        let ghost h0 = ctx.game_history@;
        ctx.game_history.push(next.hash);
        let mut child_pv: Vec<Move> = Vec::new();
        let ghost mut last_c: int = 0;
        let ghost mut last_t: Option<Seq<Child>> = None;
        let ghost mut last_w: (int, int) = (0, 0);
        let score = if i == 0 {
            let c = negamax(&next, depth - 1, -beta, -alpha, ply + 1, &mut child_pv, ctx, tt);
            proof {
                last_c = c as int;
                last_t = ctx.last_node@;
                last_w = (-beta as int, -alpha as int);
            }
            -c
        } else {
            let reduction: i32 = if depth >= 3 && i >= 4 && !mv.is_capture() && mv.promotion().is_none() && !in_check {
                ctx.stats.lmr_attempts = ctx.stats.lmr_attempts.wrapping_add(1);
                if i >= 10 {
                    2
                } else {
                    1
                }
            } else {
                0
            };
            let c = negamax(&next, depth - 1 - reduction, above(alpha), -alpha, ply + 1, &mut child_pv, ctx, tt);
            proof {
                last_c = c as int;
                last_t = ctx.last_node@;
                last_w = (clamp_score(-alpha - 1), -alpha as int);
            }
            let mut s = -c;
            if !ctx.stopped && s > alpha && reduction > 0 {
                ctx.stats.lmr_researches = ctx.stats.lmr_researches.wrapping_add(1);
                let c2 = negamax(&next, depth - 1, above(alpha), -alpha, ply + 1, &mut child_pv, ctx, tt);
                proof {
                    last_c = c2 as int;
                    last_t = ctx.last_node@;
                }
                s = -c2;
            }
            if !ctx.stopped && s > alpha && s < beta {
                ctx.stats.pvs_researches = ctx.stats.pvs_researches.wrapping_add(1);
                let c3 = negamax(&next, depth - 1, -beta, -alpha, ply + 1, &mut child_pv, ctx, tt);
                proof {
                    last_c = c3 as int;
                    last_t = ctx.last_node@;
                    last_w = (-beta as int, -alpha as int);
                }
                s = -c3;
            }
            s
        };
        ctx.game_history.pop();
        proof {
            assert(ctx.game_history@ == h0);
        }
        if ctx.stopped {
            ctx.last_node = Ghost(None);
            return 0;
        }
        proof {
            let s2 = seen.push((mv, score as int));
            let kid = Child {
                mv,
                score: score as int,
                result: last_c,
                alpha: last_w.0,
                beta: last_w.1,
                searched: last_t is Some,
                tree: match last_t {
                    Some(t) => t,
                    None => Seq::empty(),
                },
            };
            let k2 = kids.push(kid);
            assert(scores_of(k2) =~= s2);
            kids = k2;
            assert(s2.drop_last() =~= seen);
            assert(s2[i as int].0 == moves@[i as int]);
            assert forall|j: int| 0 <= j < s2.len() implies (#[trigger] s2[j]).0 == moves@[j] by {
                if j < i {
                    assert(s2[j] == seen[j]);
                }
            }
            seen = s2;
        }
        if score > best_score {
            best_score = score;
            best_move = mv;
            proof {
                lemma_line_cons(*board, mv, child_pv@);
            }
            append_line(pv, mv, &child_pv);
        }
        if best_score > alpha {
            alpha = best_score;
        }
        if alpha >= beta {
            ctx.stats.beta_cutoffs = ctx.stats.beta_cutoffs.wrapping_add(1);
            if !mv.is_capture() {
                ctx.store_killer(ply, mv);
                ctx.bump_history(us, mv, depth);
            }
            break;
        }
        i += 1;
    }
    let flag = if best_score <= alpha_orig {
        TTFlag::UpperBound
    } else if best_score >= beta {
        TTFlag::LowerBound
    } else {
        TTFlag::Exact
    };
    let stored = score_to_tt(best_score, ply);
    proof {
        tt.lemma_slot_in_range(board.hash);
    }
    let ghost tt_before = *tt;
    tt.store(board.hash, depth, stored, flag, Some(best_move));
    proof {
        if ply == 0 {
            assert(stored == best_score);
            assert(tt.slot_of(board.hash) == tt_before.slot_of(board.hash));
            if best_of(seen).0 is None {
                assert(pv@.len() == 0);
            }
        }
    }
    proof {
        if seen.len() == moves@.len() {
            assert forall|m: Move| #[trigger] is_legal(*board, m) implies exists|j: int|
                0 <= j < seen.len() && (#[trigger] seen[j]).0 == m by {
                assert(moves@.contains(m));
                let j = choose|j: int| 0 <= j < moves@.len() && moves@[j] == m;
                assert(seen[j].0 == m);
            }
        }
        assert forall|j: int| 0 <= j < seen.len() implies is_legal(*board, (#[trigger] seen[j]).0) by {
            assert(moves@.contains(moves@[j]));
        }
    }
    proof {
        assert(scores_of(kids) == seen);
        assert forall|j: int| 0 <= j < kids.len() implies is_legal(*board, (#[trigger] kids[j]).mv) by {
            assert(scores_of(kids)[j] == (kids[j].mv, kids[j].score));
            assert(is_legal(*board, seen[j].0));
        }
        assert(negamax_tree(*board, kids, best_score as int));
    }
    ctx.last_node = Ghost(Some(kids));
    best_score
}

// ---------------------------------------------------------------------------
// Iterative deepening
// ---------------------------------------------------------------------------

/// Limits of a search: its deepest iteration and its two deadlines (the
/// soft one is checked between iterations, the hard one during them).
#[derive(Clone, Copy)]
pub struct SearchLimits {
    pub max_depth: i32,
    pub soft_deadline: std::time::Instant,
    pub hard_deadline: std::time::Instant,
}

/// The best move found so far, its score, the last completed depth, and the
/// depth of the next iteration.
#[derive(Clone, Copy, Debug)]
pub struct IterationState {
    pub best_move: Move,
    pub best_score: i32,
    pub last_completed_depth: i32,
    pub depth: i32,
}

/// What an iteration found: its depth, score and principal variation,
/// whether it completed before the search was stopped, and whether it is
/// to be reported (completed, or the first depth).
pub struct IterationReport {
    pub depth: i32,
    pub score: i32,
    pub pv: Vec<Move>,
    pub completed: bool,
    pub report: bool,
}

/// Before the first iteration: the first legal move as fallback, depth 1.
pub fn start_iterations(board: &Board) -> (st: IterationState)
    requires
        node_ok(*board, 0),
        exists|m: Move| is_legal(*board, m),
    ensures
        is_legal(*board, st.best_move),
        st.best_score == 0,
        st.last_completed_depth == 0,
        st.depth == 1,
{
    let root_moves = generate_legal_moves(board);
    proof {
        let m = choose|m: Move| is_legal(*board, m);
        assert(root_moves@.contains(m));
        assert(root_moves@.contains(root_moves@[0]));
    }
    IterationState { best_move: root_moves[0], best_score: 0, last_completed_depth: 0, depth: 1 }
}

/// Searches the root to the state's depth with a full window. A completed
/// iteration (or the first one) with a principal variation sets the best
/// move to its first move and the best score to its score, and becomes the
/// last completed depth.
pub fn run_iteration(board: &Board, st: &mut IterationState, ctx: &mut SearchContext, tt: &mut TranspositionTable) -> (rep: IterationReport)
    requires
        node_ok(*board, 0),
        old(ctx).wf(),
        tt_kept(*old(tt)),
        1 <= old(st).depth <= MAX_DEPTH - MAX_PLY,
        is_legal(*board, old(st).best_move),
    ensures
        ctx_kept(*old(ctx), *final(ctx)),
        tt_kept(*final(tt)),
        is_legal(*board, final(st).best_move),
        final(st).depth == old(st).depth,
        rep.depth == old(st).depth,
        rep.completed == !final(ctx).stopped,
        rep.report == (rep.completed || rep.depth == 1),
        legal_line(*board, rep.pv@),
        score_ok(rep.score as int),
        (if rep.report {
            final(st).last_completed_depth == rep.depth && (if rep.pv@.len() > 0 {
                final(st).best_move == rep.pv@[0] && final(st).best_score == rep.score
            } else {
                final(st).best_move == old(st).best_move && final(st).best_score == old(st).best_score
            })
        } else {
            final(st).best_move == old(st).best_move && final(st).best_score == old(st).best_score
                && final(st).last_completed_depth == old(st).last_completed_depth
        }),
        rep.completed ==> (final(ctx).last_node@ matches Some(t) && node_result(*board, scores_of(t), rep.score as int, rep.pv@)
            && negamax_tree(*board, t, rep.score as int) && (covers(scores_of(t), |m: Move| is_legal(*board, m))
            || rep.score >= INFINITY)),
        rep.completed ==> (rep.pv@.len() > 0 <==> rep.score > -INFINITY),
        rep.completed ==> root_stored(
            *final(tt),
            *board,
            old(st).depth + (if side_in_check(*board) { 1int } else { 0int }),
            rep.score as int,
        ) && (rep.pv@.len() > 0 ==> root_move(*final(tt), *board, rep.pv@[0])),
        old(ctx).unbounded && !old(ctx).stopped ==> rep.completed,
{
    let mut pv: Vec<Move> = Vec::new();
    proof {
        assert(!no_legal_move(*board));
    }
    let score = negamax(board, st.depth, -INFINITY, INFINITY, 0, &mut pv, ctx, tt);
    proof {
        if !ctx.stopped {
            lemma_best_of_some(scores_of(ctx.last_node@->0));
        }
    }
    let completed = !ctx.stopped;
    let report = completed || st.depth == 1;
    if report {
        if pv.len() > 0 {
            st.best_move = pv[0];
            st.best_score = score;
        }
        st.last_completed_depth = st.depth;
    }
    IterationReport { depth: st.depth, score, pv, completed, report }
}

/// An instant `secs` seconds from now (now itself should that not be
/// representable).
fn instant_in_secs(secs: u64) -> std::time::Instant {
    let now = instant_now();
    match instant_checked_add(&now, duration_from_secs(secs)) {
        Some(t) => t,
        None => now,
    }
}

/// Iterative deepening up to `depth` without a deadline and without
/// reports: the best move, its score and the search counters.
pub fn search_fixed_depth_with_stats(
    board: Board,
    depth: i32,
    tt: &mut TranspositionTable,
    game_history: Vec<u64>,
) -> (r: (Move, i32, SearchStatsSnapshot))
    requires
        node_ok(board, 0),
        exists|m: Move| is_legal(board, m),
        depth <= MAX_DEPTH - MAX_PLY,
        tt_kept(*old(tt)),
    ensures
        is_legal(board, r.0),
        tt_kept(*final(tt)),
        depth >= 1 ==> (root_stored(
            *final(tt),
            board,
            depth + (if side_in_check(board) { 1int } else { 0int }),
            r.1 as int,
        ) && root_move(*final(tt), board, r.0)) || root_stored(
            *final(tt),
            board,
            depth + (if side_in_check(board) { 1int } else { 0int }),
            -INFINITY as int,
        ),
{
    let stop = std::sync::atomic::AtomicBool::new(false);
    let deadline = instant_in_secs(86_400);
    let mut ctx = SearchContext::new(&stop, deadline, false, game_history);
    ctx.unbounded = true;
    let mut st = start_iterations(&board);
    let ghost chk: int = if side_in_check(board) { 1int } else { 0int };
    while st.depth <= depth
        invariant
            node_ok(board, 0),
            ctx.wf(),
            ctx.unbounded,
            !ctx.stopped,
            tt_kept(*tt),
            1 <= st.depth,
            depth >= 1 ==> st.depth <= depth + 1,
            depth <= MAX_DEPTH - MAX_PLY,
            is_legal(board, st.best_move),
            chk == (if side_in_check(board) { 1int } else { 0int }),
            st.depth > 1 ==> (root_stored(*tt, board, st.depth - 1 + chk, st.best_score as int) && root_move(
                *tt,
                board,
                st.best_move,
            )) || root_stored(*tt, board, st.depth - 1 + chk, -INFINITY as int),
        decreases depth + 1 - st.depth,
    {
        let ghost d0 = st.depth;
        let rep = run_iteration(&board, &mut st, &mut ctx, tt);
        proof {
            assert(rep.completed);
            assert(rep.report);
            if rep.pv@.len() > 0 {
                assert(st.best_move == rep.pv@[0] && st.best_score == rep.score);
            } else {
                lemma_best_of_some(scores_of(ctx.last_node@->0));
                assert(rep.score == -INFINITY);
            }
        }
        st.depth = st.depth + 1;
        proof {
            assert(st.depth - 1 + chk == d0 + chk);
        }
    }
    (st.best_move, st.best_score, ctx.stats.snapshot())
}

// ---------------------------------------------------------------------------
// Reports
// ---------------------------------------------------------------------------

/// UCI text of a score: "mate N" (N moves, negative when being mated) for
/// mate scores, "cp N" otherwise.
pub open spec fn score_text(score: int) -> Seq<char> {
    if score >= MATE_SCORE - MAX_PLY as int || score <= -(MATE_SCORE - MAX_PLY as int) {
        let mate_in = if score > 0 {
            crate::eval::tdiv(MATE_SCORE - score + 1, 2)
        } else {
            -crate::eval::tdiv(MATE_SCORE + score + 1, 2)
        };
        "mate "@ + crate::eval::int_text(mate_in)
    } else {
        "cp "@ + crate::eval::int_text(score)
    }
}

pub fn format_score(score: i32) -> (t: String)
    requires
        score_ok(score as int),
    ensures
        t@ == score_text(score as int),
{
    let abs = if score < 0 { -score } else { score };
    let mut v: Vec<char>;
    if abs >= MATE_SCORE - MAX_PLY as i32 {
        let mate_in = if score > 0 {
            (MATE_SCORE - score + 1) / 2
        } else {
            -((MATE_SCORE + score + 1) / 2)
        };
        v = crate::fen::chars_of("mate ");
        let d = crate::eval::int_chars(mate_in);
        crate::fen::push_all(&mut v, &d);
    } else {
        v = crate::fen::chars_of("cp ");
        let d = crate::eval::int_chars(score);
        crate::fen::push_all(&mut v, &d);
    }
    crate::types::string_from_chars(&v)
}

/// Decimal digits of `n`.
pub fn u128_chars(n: u128) -> (v: Vec<char>)
    ensures
        v@ == crate::fen::decimal_text(n as nat),
    decreases n,
{
    if n < 10 {
        let mut v: Vec<char> = Vec::new();
        v.push(((48 + n) as u8) as char);
        assert(v@ =~= crate::fen::decimal_text(n as nat));
        v
    } else {
        let mut v = u128_chars(n / 10);
        v.push(((48 + n % 10) as u8) as char);
        assert(v@ =~= crate::fen::decimal_text(n as nat));
        v
    }
}

/// The UCI names of the moves of `pv`, separated by spaces.
pub open spec fn line_text(pv: Seq<Move>) -> Seq<char>
    decreases pv.len(),
{
    if pv.len() == 0 {
        Seq::empty()
    } else if pv.len() == 1 {
        crate::moves::uci_name(pv[0])
    } else {
        line_text(pv.drop_last()) + " "@ + crate::moves::uci_name(pv.last())
    }
}

/// The UCI `info` line of a completed iteration; the time is taken as at
/// least 1 ms, and the speed is in nodes per second.
pub open spec fn info_text(depth: int, seldepth: int, score: int, nodes: int, elapsed_ms: int, pv: Seq<Move>) -> Seq<char> {
    let ms = if elapsed_ms > 1 { elapsed_ms } else { 1 };
    let nps = nodes * 1000 / ms;
    "info depth "@ + crate::eval::int_text(depth) + " seldepth "@ + crate::fen::decimal_text(seldepth as nat) + " score "@
        + score_text(score) + " nodes "@ + crate::fen::decimal_text(nodes as nat) + " nps "@ + crate::fen::decimal_text(nps as nat)
        + " time "@ + crate::fen::decimal_text(ms as nat) + " pv "@ + line_text(pv)
}

pub fn info_line(depth: i32, seldepth: u8, score: i32, nodes: u64, elapsed_ms: u128, pv: &Vec<Move>) -> (t: String)
    requires
        score_ok(score as int),
    ensures
        t@ == info_text(depth as int, seldepth as int, score as int, nodes as int, elapsed_ms as int, pv@),
{
    let ms: u128 = if elapsed_ms > 1 { elapsed_ms } else { 1 };
    let nps: u128 = (nodes as u128 * 1000) / ms;
    let mut v = crate::fen::chars_of("info depth ");
    let d = crate::eval::int_chars(depth);
    crate::fen::push_all(&mut v, &d);
    let w = crate::fen::chars_of(" seldepth ");
    crate::fen::push_all(&mut v, &w);
    let d = u128_chars(seldepth as u128);
    crate::fen::push_all(&mut v, &d);
    let w = crate::fen::chars_of(" score ");
    crate::fen::push_all(&mut v, &w);
    let fs = format_score(score);
    let d = crate::fen::chars_of(fs.as_str());
    crate::fen::push_all(&mut v, &d);
    let w = crate::fen::chars_of(" nodes ");
    crate::fen::push_all(&mut v, &w);
    let d = u128_chars(nodes as u128);
    crate::fen::push_all(&mut v, &d);
    let w = crate::fen::chars_of(" nps ");
    crate::fen::push_all(&mut v, &w);
    let d = u128_chars(nps);
    crate::fen::push_all(&mut v, &d);
    let w = crate::fen::chars_of(" time ");
    crate::fen::push_all(&mut v, &w);
    let d = u128_chars(ms);
    crate::fen::push_all(&mut v, &d);
    let w = crate::fen::chars_of(" pv ");
    crate::fen::push_all(&mut v, &w);
    let mut i: usize = 0;
    let ghost base = v@;
    while i < pv.len()
        invariant
            i <= pv@.len(),
            v@ == base + line_text(pv@.take(i as int)),
        decreases pv@.len() - i,
    {
        if i > 0 {
            v.push(' ');
        }
        let name = pv[i].uci_chars();
        crate::fen::push_all(&mut v, &name);
        proof {
            let t = pv@.take(i as int + 1);
            assert(t.drop_last() == pv@.take(i as int));
            assert(t.last() == pv@[i as int]);
            if i == 0 {
                assert(line_text(pv@.take(0)) == Seq::<char>::empty());
                assert(line_text(t) == crate::moves::uci_name(pv@[0]));
            } else {
                assert(line_text(t) == line_text(pv@.take(i as int)) + " "@ + crate::moves::uci_name(pv@[i as int]));
                assert(" "@ == seq![' ']) by {
                    reveal_strlit(" ");
                }
            }
        }
        i += 1;
    }
    proof {
        assert(pv@.take(pv@.len() as int) == pv@);
    }
    crate::types::string_from_chars(&v)
}

/// Whether iterative deepening goes on after an iteration at `depth`: the
/// search was not stopped, the soft deadline has not passed, and the next
/// depth is within `max_depth`.
pub fn continue_deepening(completed: bool, soft_deadline_passed: bool, depth: i32, max_depth: i32) -> (r: bool)
    ensures
        r == (completed && !soft_deadline_passed && depth < max_depth),
{
    completed && !soft_deadline_passed && depth < max_depth
}

/// The thread whose result is used among threads that searched to the
/// given depths: the deepest, the main thread (index 0) on a tie with it,
/// otherwise the last of the deepest.
pub fn chosen_thread(depths: &Vec<i32>) -> (r: usize)
    requires
        depths@.len() > 0,
    ensures
        r < depths@.len(),
        forall|i: int| 0 <= i < depths@.len() ==> depths@[i] <= depths@[r as int],
        r == 0 || depths@[0] < depths@[r as int],
        r != 0 ==> forall|i: int| r < i < depths@.len() ==> depths@[i] < depths@[r as int],
{
    let mut best: usize = 0;
    let mut i: usize = 1;
    while i < depths.len()
        invariant
            1 <= i <= depths.len(),
            best < i,
            forall|j: int| 0 <= j < i ==> depths@[j] <= depths@[best as int],
            best == 0 || depths@[0] < depths@[best as int],
            best != 0 ==> forall|j: int| best < j < i ==> depths@[j] < depths@[best as int],
        decreases depths.len() - i,
    {
        if depths[i] > depths[best] || (best != 0 && depths[i] == depths[best]) {
            best = i;
        }
        i += 1;
    }
    best
}

} // verus!
