//! The commands of the Universal Chess Interface that carry arguments:
//! `go`, `position` and `setoption`, read into values for the engine loop.

use vstd::prelude::*;
use crate::board::{zobrist_hash, Board};
use crate::epd::fen_board;
use crate::fen::fen_position;
use crate::epd::san::{sub_chars, trim, trim_chars};
use crate::fen::{
    all_digits, chars_of, decimal_value, is_digit, lemma_decimal_prefix_grows, lemma_decimal_value_nonneg,
    split_whitespace, ws_tokens,
};
use crate::movegen::{counters_ok, find_move, is_legal};
use crate::moves::{uci_name, Move};
use crate::movegen::{lemma_pseudo_legal_consistent, position_ok};
use crate::perft::check_playable;
use crate::board::{board_after, start_piece};
use crate::time_management::TimeControlInput;
use crate::types::{ascii_lower, string_from_chars, Color};

verus! {

pub const ENGINE_NAME: &'static str = "Fructosita 1.2.0 Aldosa";
pub const ENGINE_AUTHOR: &'static str = "Antonio";
pub const DEFAULT_HASH_MB: usize = 64;
pub const DEFAULT_THREADS: usize = 1;
/// Depth searched when `go` names none.
pub const DEFAULT_GO_DEPTH: i32 = 64;

// ---------------------------------------------------------------------------
// Numbers
// ---------------------------------------------------------------------------

/// The digits after an optional leading `sign` character.
pub open spec fn unsigned_body(s: Seq<char>, sign: char) -> Seq<char> {
    if s.len() > 0 && s[0] == sign {
        s.drop_first()
    } else {
        s
    }
}

/// The value of a non-empty digit string no greater than `limit`.
pub open spec fn digits_within(s: Seq<char>, limit: int) -> Option<int> {
    if s.len() > 0 && all_digits(s) && decimal_value(s) <= limit {
        Some(decimal_value(s))
    } else {
        None
    }
}

/// What `str::parse::<u64>` accepts: an optional '+' and decimal digits.
pub open spec fn parse_u64_spec(s: Seq<char>) -> Option<u64> {
    match digits_within(unsigned_body(s, '+'), u64::MAX as int) {
        Some(v) => Some(v as u64),
        None => None,
    }
}

/// What `str::parse::<usize>` accepts.
pub open spec fn parse_usize_spec(s: Seq<char>) -> Option<usize> {
    match digits_within(unsigned_body(s, '+'), usize::MAX as int) {
        Some(v) => Some(v as usize),
        None => None,
    }
}

/// What `str::parse::<i32>` accepts: an optional sign and decimal digits.
pub open spec fn parse_i32_spec(s: Seq<char>) -> Option<i32> {
    if s.len() > 0 && s[0] == '-' {
        match digits_within(s.drop_first(), 0x8000_0000) {
            Some(v) => Some((-v) as i32),
            None => None,
        }
    } else {
        match digits_within(unsigned_body(s, '+'), i32::MAX as int) {
            Some(v) => Some(v as i32),
            None => None,
        }
    }
}

/// The value of `s[start..]` as a non-empty digit string no greater than `limit`.
fn digits_value(s: &Vec<char>, start: usize, limit: u64) -> (r: Option<u64>)
    requires
        start <= s.len(),
    ensures
        match r {
            Some(v) => digits_within(s@.skip(start as int), limit as int) == Some(v as int),
            None => digits_within(s@.skip(start as int), limit as int) is None,
        },
{
    let ghost body = s@.skip(start as int);
    if start >= s.len() {
        return None;
    }
    let mut value: u128 = 0;
    let mut i: usize = start;
    while i < s.len()
        invariant
            start <= i <= s@.len(),
            body == s@.skip(start as int),
            all_digits(s@.subrange(start as int, i as int)),
            value == decimal_value(s@.subrange(start as int, i as int)),
            value <= limit,
        decreases s@.len() - i,
    {
        let c = s[i];
        if !('0' <= c && c <= '9') {
            proof {
                assert(body[i - start] == c);
                assert(!is_digit(body[i - start]));
            }
            return None;
        }
        let d = (c as u32 - '0' as u32) as u128;
        let next = value * 10 + d;
        proof {
            let pre = s@.subrange(start as int, i as int);
            let post = s@.subrange(start as int, i + 1);
            assert(post.drop_last() =~= pre);
            assert(post.last() == c);
            assert(all_digits(post));
            assert(decimal_value(post) == value * 10 + d);
        }
        if next > limit as u128 {
            proof {
                let post = s@.subrange(start as int, i + 1);
                assert(body.subrange(0, (i + 1 - start) as int) =~= post);
                lemma_decimal_prefix_grows(body, (i + 1 - start) as int);
            }
            return None;
        }
        value = next;
        i = i + 1;
    }
    proof {
        assert(s@.subrange(start as int, s@.len() as int) == body);
    }
    Some(value as u64)
}

pub fn parse_u64(s: &Vec<char>) -> (r: Option<u64>)
    ensures
        r == parse_u64_spec(s@),
{
    let start: usize = if s.len() > 0 && s[0] == '+' { 1 } else { 0 };
    assert(unsigned_body(s@, '+') == s@.skip(start as int));
    match digits_value(s, start, u64::MAX) {
        Some(v) => Some(v),
        None => None,
    }
}

pub fn parse_usize(s: &Vec<char>) -> (r: Option<usize>)
    ensures
        r == parse_usize_spec(s@),
{
    let start: usize = if s.len() > 0 && s[0] == '+' { 1 } else { 0 };
    assert(unsigned_body(s@, '+') == s@.skip(start as int));
    match digits_value(s, start, usize::MAX as u64) {
        Some(v) => Some(v as usize),
        None => None,
    }
}

pub fn parse_i32(s: &Vec<char>) -> (r: Option<i32>)
    ensures
        r == parse_i32_spec(s@),
{
    if s.len() > 0 && s[0] == '-' {
        assert(s@.drop_first() == s@.skip(1));
        match digits_value(s, 1, 0x8000_0000) {
            Some(v) => Some((0 - (v as i64)) as i32),
            None => None,
        }
    } else {
        let start: usize = if s.len() > 0 && s[0] == '+' { 1 } else { 0 };
        assert(unsigned_body(s@, '+') == s@.skip(start as int));
        match digits_value(s, start, 0x7fff_ffff) {
            Some(v) => Some(v as i32),
            None => None,
        }
    }
}

/// Whether the characters `v` spell the word `w`.
fn is_word(v: &Vec<char>, w: &str) -> (r: bool)
    ensures
        r == (v@ == w@),
{
    let wv = chars_of(w);
    if v.len() != wv.len() {
        return false;
    }
    let mut i: usize = 0;
    while i < v.len()
        invariant
            i <= v.len(),
            v.len() == wv.len(),
            wv@ == w@,
            forall|j: int| 0 <= j < i ==> v@[j] == wv@[j],
        decreases v.len() - i,
    {
        if v[i] != wv[i] {
            return false;
        }
        i += 1;
    }
    assert(v@ =~= wv@);
    true
}

// ---------------------------------------------------------------------------
// go
// ---------------------------------------------------------------------------

/// The limits given to `go`.
#[derive(Clone, Copy, Debug, PartialEq, Eq, Structural)]
pub struct GoParams {
    pub wtime: Option<u64>,
    pub btime: Option<u64>,
    pub winc: Option<u64>,
    pub binc: Option<u64>,
    pub movestogo: Option<u64>,
    pub movetime: Option<u64>,
    /// Deepest iteration (the `depth` argument, else 64).
    pub max_depth: i32,
    /// The `depth` argument, if given and readable.
    pub depth_limit: Option<i32>,
    pub infinite: bool,
    pub ponder: bool,
}

/// What a `go` command asks for.
#[derive(Clone, Copy, Debug, PartialEq, Eq, Structural)]
pub enum GoCommand {
    /// `go perft N`: count the leaf nodes to depth N (1 when unreadable).
    Perft(u32),
    /// A search with these limits.
    Search(GoParams),
}

pub open spec fn no_limits() -> GoParams {
    GoParams {
        wtime: None,
        btime: None,
        winc: None,
        binc: None,
        movestogo: None,
        movetime: None,
        max_depth: DEFAULT_GO_DEPTH,
        depth_limit: None,
        infinite: false,
        ponder: false,
    }
}

/// The token after position `i`, read as a `u64`.
pub open spec fn value_u64(t: Seq<Seq<char>>, i: int) -> Option<u64> {
    if i + 1 < t.len() {
        parse_u64_spec(t[i + 1])
    } else {
        None
    }
}

/// The token after position `i`, read as an `i32`.
pub open spec fn value_i32(t: Seq<Seq<char>>, i: int) -> Option<i32> {
    if i + 1 < t.len() {
        parse_i32_spec(t[i + 1])
    } else {
        None
    }
}

/// Reading the `go` arguments from position `i` on: a keyword that takes
/// a value consumes the next token too; unknown tokens are skipped.
pub open spec fn go_scan(t: Seq<Seq<char>>, i: int, p: GoParams) -> GoParams
    decreases t.len() + 1 - i,
{
    if i < 0 || i >= t.len() {
        p
    } else {
        let w = t[i];
        if w == "wtime"@ {
            go_scan(t, i + 2, GoParams { wtime: value_u64(t, i), ..p })
        } else if w == "btime"@ {
            go_scan(t, i + 2, GoParams { btime: value_u64(t, i), ..p })
        } else if w == "winc"@ {
            go_scan(t, i + 2, GoParams { winc: value_u64(t, i), ..p })
        } else if w == "binc"@ {
            go_scan(t, i + 2, GoParams { binc: value_u64(t, i), ..p })
        } else if w == "movestogo"@ {
            go_scan(t, i + 2, GoParams { movestogo: value_u64(t, i), ..p })
        } else if w == "movetime"@ {
            go_scan(t, i + 2, GoParams { movetime: value_u64(t, i), ..p })
        } else if w == "depth"@ {
            let d = value_i32(t, i);
            go_scan(
                t,
                i + 2,
                GoParams {
                    depth_limit: d,
                    max_depth: match d {
                        Some(x) => x,
                        None => DEFAULT_GO_DEPTH,
                    },
                    ..p
                },
            )
        } else if w == "infinite"@ {
            go_scan(t, i + 1, GoParams { infinite: true, ..p })
        } else if w == "ponder"@ {
            go_scan(t, i + 1, GoParams { ponder: true, ..p })
        } else {
            go_scan(t, i + 1, p)
        }
    }
}

/// The keywords of `go` that take a `u64` value.
pub open spec fn u64_keyword(kw: Seq<char>) -> bool {
    kw == "wtime"@ || kw == "btime"@ || kw == "winc"@ || kw == "binc"@ || kw == "movestogo"@ || kw == "movetime"@
}

/// The field of `p` that the `u64` keyword `kw` sets.
pub open spec fn u64_field(p: GoParams, kw: Seq<char>) -> Option<u64> {
    if kw == "wtime"@ {
        p.wtime
    } else if kw == "btime"@ {
        p.btime
    } else if kw == "winc"@ {
        p.winc
    } else if kw == "binc"@ {
        p.binc
    } else if kw == "movestogo"@ {
        p.movestogo
    } else {
        p.movetime
    }
}

proof fn lemma_go_keywords_distinct()
    ensures
        "wtime"@ != "btime"@,
        "wtime"@ != "winc"@,
        "wtime"@ != "binc"@,
        "wtime"@ != "movestogo"@,
        "wtime"@ != "movetime"@,
        "btime"@ != "winc"@,
        "btime"@ != "binc"@,
        "btime"@ != "movestogo"@,
        "btime"@ != "movetime"@,
        "winc"@ != "binc"@,
        "winc"@ != "movestogo"@,
        "winc"@ != "movetime"@,
        "binc"@ != "movestogo"@,
        "binc"@ != "movetime"@,
        "movestogo"@ != "movetime"@,
        "depth"@ != "wtime"@,
        "depth"@ != "btime"@,
        "depth"@ != "winc"@,
        "depth"@ != "binc"@,
        "depth"@ != "movestogo"@,
        "depth"@ != "movetime"@,
        "infinite"@ != "wtime"@,
        "infinite"@ != "btime"@,
        "infinite"@ != "winc"@,
        "infinite"@ != "binc"@,
        "infinite"@ != "movestogo"@,
        "infinite"@ != "movetime"@,
        "ponder"@ != "wtime"@,
        "ponder"@ != "btime"@,
        "ponder"@ != "winc"@,
        "ponder"@ != "binc"@,
        "ponder"@ != "movestogo"@,
        "ponder"@ != "movetime"@,
        "perft"@ != "wtime"@,
        "perft"@ != "btime"@,
        "perft"@ != "winc"@,
        "perft"@ != "binc"@,
        "perft"@ != "movestogo"@,
        "perft"@ != "movetime"@,
{
    reveal_strlit("wtime");
    reveal_strlit("btime");
    reveal_strlit("winc");
    reveal_strlit("binc");
    reveal_strlit("movestogo");
    reveal_strlit("movetime");
    reveal_strlit("depth");
    reveal_strlit("infinite");
    reveal_strlit("ponder");
    reveal_strlit("perft");
    assert("wtime"@[0] != "btime"@[0]);
    assert("wtime"@[1] != "winc"@[1]);
    assert("wtime"@[1] != "binc"@[1]);
    assert("wtime"@[0] != "movestogo"@[0]);
    assert("wtime"@[0] != "movetime"@[0]);
    assert("btime"@[1] != "winc"@[1]);
    assert("btime"@[1] != "binc"@[1]);
    assert("btime"@[0] != "movestogo"@[0]);
    assert("btime"@[0] != "movetime"@[0]);
    assert("winc"@[0] != "binc"@[0]);
    assert("winc"@[0] != "movestogo"@[0]);
    assert("winc"@[0] != "movetime"@[0]);
    assert("binc"@[0] != "movestogo"@[0]);
    assert("binc"@[0] != "movetime"@[0]);
    assert("movestogo"@.len() != "movetime"@.len());
    assert("depth"@[0] != "wtime"@[0]);
    assert("depth"@[0] != "btime"@[0]);
    assert("depth"@[0] != "winc"@[0]);
    assert("depth"@[0] != "binc"@[0]);
    assert("depth"@[0] != "movestogo"@[0]);
    assert("depth"@[0] != "movetime"@[0]);
    assert("infinite"@[0] != "wtime"@[0]);
    assert("infinite"@[0] != "btime"@[0]);
    assert("infinite"@[0] != "winc"@[0]);
    assert("infinite"@[0] != "binc"@[0]);
    assert("infinite"@[0] != "movestogo"@[0]);
    assert("infinite"@[0] != "movetime"@[0]);
    assert("ponder"@[0] != "wtime"@[0]);
    assert("ponder"@[0] != "btime"@[0]);
    assert("ponder"@[0] != "winc"@[0]);
    assert("ponder"@[0] != "binc"@[0]);
    assert("ponder"@[0] != "movestogo"@[0]);
    assert("ponder"@[0] != "movetime"@[0]);
    assert("perft"@[0] != "wtime"@[0]);
    assert("perft"@[0] != "btime"@[0]);
    assert("perft"@[0] != "winc"@[0]);
    assert("perft"@[0] != "binc"@[0]);
    assert("perft"@[0] != "movestogo"@[0]);
    assert("perft"@[0] != "movetime"@[0]);
}

/// Tokens other than `kw` leave the field `kw` sets as it was.
proof fn lemma_scan_keeps(t: Seq<Seq<char>>, i: int, p: GoParams, kw: Seq<char>)
    requires
        u64_keyword(kw),
        forall|j: int| i <= j < t.len() ==> #[trigger] t[j] != kw,
    ensures
        u64_field(go_scan(t, i, p), kw) == u64_field(p, kw),
    decreases t.len() + 1 - i,
{
    lemma_go_keywords_distinct();
    if 0 <= i < t.len() {
        let w = t[i];
        assert(w != kw);
        if w == "wtime"@ || w == "btime"@ || w == "winc"@ || w == "binc"@ || w == "movestogo"@ || w == "movetime"@
            || w == "depth"@ {
            let q = go_scan(t, i + 2, p);
            if w == "wtime"@ {
                lemma_scan_keeps(t, i + 2, GoParams { wtime: value_u64(t, i), ..p }, kw);
            } else if w == "btime"@ {
                lemma_scan_keeps(t, i + 2, GoParams { btime: value_u64(t, i), ..p }, kw);
            } else if w == "winc"@ {
                lemma_scan_keeps(t, i + 2, GoParams { winc: value_u64(t, i), ..p }, kw);
            } else if w == "binc"@ {
                lemma_scan_keeps(t, i + 2, GoParams { binc: value_u64(t, i), ..p }, kw);
            } else if w == "movestogo"@ {
                lemma_scan_keeps(t, i + 2, GoParams { movestogo: value_u64(t, i), ..p }, kw);
            } else if w == "movetime"@ {
                lemma_scan_keeps(t, i + 2, GoParams { movetime: value_u64(t, i), ..p }, kw);
            } else {
                let d = value_i32(t, i);
                lemma_scan_keeps(
                    t,
                    i + 2,
                    GoParams {
                        depth_limit: d,
                        max_depth: match d {
                            Some(x) => x,
                            None => DEFAULT_GO_DEPTH,
                        },
                        ..p
                    },
                    kw,
                );
            }
        } else if w == "infinite"@ {
            lemma_scan_keeps(t, i + 1, GoParams { infinite: true, ..p }, kw);
        } else if w == "ponder"@ {
            lemma_scan_keeps(t, i + 1, GoParams { ponder: true, ..p }, kw);
        } else {
            lemma_scan_keeps(t, i + 1, p, kw);
        }
    }
}

/// Tokens other than `depth` leave the depth limit as it was.
proof fn lemma_scan_keeps_depth(t: Seq<Seq<char>>, i: int, p: GoParams)
    requires
        forall|j: int| i <= j < t.len() ==> #[trigger] t[j] != "depth"@,
    ensures
        go_scan(t, i, p).depth_limit == p.depth_limit,
        go_scan(t, i, p).max_depth == p.max_depth,
    decreases t.len() + 1 - i,
{
    lemma_go_keywords_distinct();
    if 0 <= i < t.len() {
        let w = t[i];
        assert(w != "depth"@);
        if w == "wtime"@ || w == "btime"@ || w == "winc"@ || w == "binc"@ || w == "movestogo"@ || w == "movetime"@
            || w == "depth"@ {
            let q = go_scan(t, i + 2, p);
            if w == "wtime"@ {
                lemma_scan_keeps_depth(t, i + 2, GoParams { wtime: value_u64(t, i), ..p });
            } else if w == "btime"@ {
                lemma_scan_keeps_depth(t, i + 2, GoParams { btime: value_u64(t, i), ..p });
            } else if w == "winc"@ {
                lemma_scan_keeps_depth(t, i + 2, GoParams { winc: value_u64(t, i), ..p });
            } else if w == "binc"@ {
                lemma_scan_keeps_depth(t, i + 2, GoParams { binc: value_u64(t, i), ..p });
            } else if w == "movestogo"@ {
                lemma_scan_keeps_depth(t, i + 2, GoParams { movestogo: value_u64(t, i), ..p });
            } else if w == "movetime"@ {
                lemma_scan_keeps_depth(t, i + 2, GoParams { movetime: value_u64(t, i), ..p });
            } else {
                let d = value_i32(t, i);
                lemma_scan_keeps_depth(
                    t,
                    i + 2,
                    GoParams {
                        depth_limit: d,
                        max_depth: match d {
                            Some(x) => x,
                            None => DEFAULT_GO_DEPTH,
                        },
                        ..p
                    },
                );
            }
        } else if w == "infinite"@ {
            lemma_scan_keeps_depth(t, i + 1, GoParams { infinite: true, ..p });
        } else if w == "ponder"@ {
            lemma_scan_keeps_depth(t, i + 1, GoParams { ponder: true, ..p });
        } else {
            lemma_scan_keeps_depth(t, i + 1, p);
        }
    }
}

/// A `go` line whose arguments start with `depth`, named nowhere later in
/// the line, is a search limited to the depth that the next token reads as
/// (a decimal `i32`), and 64 when there is none or it does not read.
pub proof fn lemma_go_depth_value(line: Seq<char>)
    requires
        ws_tokens(line).len() >= 2,
        ws_tokens(line)[1] == "depth"@,
        forall|j: int| 2 <= j < ws_tokens(line).len() ==> #[trigger] ws_tokens(line)[j] != "depth"@,
    ensures
        ({
            let d = if ws_tokens(line).len() > 2 {
                parse_i32_spec(ws_tokens(line)[2])
            } else {
                None
            };
            go_spec(line) matches GoCommand::Search(p) && p.depth_limit == d && p.max_depth == match d {
                Some(x) => x,
                None => 64,
            }
        }),
{
    lemma_go_keywords_distinct();
    reveal_strlit("depth");
    reveal_strlit("perft");
    let all = ws_tokens(line);
    let t = all.drop_first();
    assert(t[0] == "depth"@);
    assert(t[0][0] != "perft"@[0]);
    let p0 = no_limits();
    let d = value_i32(t, 0);
    let q = GoParams {
        depth_limit: d,
        max_depth: match d {
            Some(x) => x,
            None => DEFAULT_GO_DEPTH,
        },
        ..p0
    };
    assert(go_scan(t, 0, p0) == go_scan(t, 2, q));
    assert forall|j: int| 2 <= j < t.len() implies #[trigger] t[j] != "depth"@ by {
        assert(t[j] == all[j + 1]);
    }
    lemma_scan_keeps_depth(t, 2, q);
    if all.len() > 2 {
        assert(t[1] == all[2]);
    }
}

/// A `go` line whose arguments start with a keyword taking a `u64` value
/// (`wtime`, `btime`, `winc`, `binc`, `movestogo` or `movetime`), named
/// nowhere later in the line, is a search whose field for that keyword is
/// the value of the next token read as a decimal `u64` (none when there is
/// no next token or it does not read): `go movetime 1000` searches with a
/// move time of 1000 ms, whatever follows.
pub proof fn lemma_go_keyword_value(line: Seq<char>, kw: Seq<char>)
    requires
        u64_keyword(kw),
        ws_tokens(line).len() >= 2,
        ws_tokens(line)[1] == kw,
        forall|j: int| 2 <= j < ws_tokens(line).len() ==> #[trigger] ws_tokens(line)[j] != kw,
    ensures
        go_spec(line) matches GoCommand::Search(p) && u64_field(p, kw) == (if ws_tokens(line).len() > 2 {
            parse_u64_spec(ws_tokens(line)[2])
        } else {
            None
        }),
{
    lemma_go_keywords_distinct();
    let all = ws_tokens(line);
    let t = all.drop_first();
    assert(t[0] == kw);
    assert(t[0] != "perft"@);
    let p0 = no_limits();
    let q = if kw == "wtime"@ {
        GoParams { wtime: value_u64(t, 0), ..p0 }
    } else if kw == "btime"@ {
        GoParams { btime: value_u64(t, 0), ..p0 }
    } else if kw == "winc"@ {
        GoParams { winc: value_u64(t, 0), ..p0 }
    } else if kw == "binc"@ {
        GoParams { binc: value_u64(t, 0), ..p0 }
    } else if kw == "movestogo"@ {
        GoParams { movestogo: value_u64(t, 0), ..p0 }
    } else {
        GoParams { movetime: value_u64(t, 0), ..p0 }
    };
    assert(go_scan(t, 0, p0) == go_scan(t, 2, q));
    assert forall|j: int| 2 <= j < t.len() implies #[trigger] t[j] != kw by {
        assert(t[j] == all[j + 1]);
    }
    lemma_scan_keeps(t, 2, q, kw);
    if all.len() > 2 {
        assert(t[1] == all[2]);
    }
}

/// The meaning of a `go` line (its first word is not looked at).
pub open spec fn go_spec(line: Seq<char>) -> GoCommand {
    let all = ws_tokens(line);
    let t = if all.len() > 0 { all.drop_first() } else { all };
    if t.len() > 0 && t[0] == "perft"@ {
        GoCommand::Perft(
            if t.len() > 1 {
                match crate::fen::parse_u32_spec(t[1]) {
                    Some(d) => d,
                    None => 1,
                }
            } else {
                1
            },
        )
    } else {
        GoCommand::Search(go_scan(t, 0, no_limits()))
    }
}

/// Reads the arguments of a `go` command.
pub fn parse_go(line: &str) -> (r: GoCommand)
    ensures
        r == go_spec(line@),
{
    let chars = chars_of(line);
    let all = split_whitespace(&chars);
    let ghost allv = ws_tokens(line@);
    let ghost tv = if allv.len() > 0 { allv.drop_first() } else { allv };
    let first: usize = if all.len() > 0 { 1 } else { 0 };
    let n = all.len();
    proof {
        assert(tv.len() == n - first);
        assert forall|j: int| first <= j < n implies tv[j - first] == #[trigger] all@[j]@ by {}
    }
    proof {
        if n > first {
            assert(tv[0] == all@[first as int]@);
        }
    }
    if n > first && is_word(&all[first], "perft") {
        let depth: u32 = if n > first + 1 {
            match crate::fen::parse_u32(&all[first + 1]) {
                Some(d) => d,
                None => 1,
            }
        } else {
            1
        };
        proof {
            assert(tv[0] == all@[first as int]@);
            if n > first + 1 {
                assert(tv[1] == all@[first + 1]@);
            }
        }
        return GoCommand::Perft(depth);
    }
    let mut p = GoParams {
        wtime: None,
        btime: None,
        winc: None,
        binc: None,
        movestogo: None,
        movetime: None,
        max_depth: DEFAULT_GO_DEPTH,
        depth_limit: None,
        infinite: false,
        ponder: false,
    };
    let mut i: usize = first;
    while i < n
        invariant
            first <= i,
            n == all@.len(),
            tv.len() == n - first,
            forall|j: int| first <= j < n ==> tv[j - first] == #[trigger] all@[j]@,
            !(tv.len() > 0 && tv[0] == "perft"@),
            go_spec(line@) == GoCommand::Search(go_scan(tv, (i - first) as int, p)),
        decreases n + 2 - i,
    {
        let ghost k = (i - first) as int;
        let ghost old_p = p;
        let w = &all[i];
        assert(tv[k] == w@);
        let v_u64: Option<u64> = if i + 1 < n {
            assert(tv[k + 1] == all@[i + 1]@);
            parse_u64(&all[i + 1])
        } else {
            None
        };
        assert(v_u64 == value_u64(tv, k));
        if is_word(w, "wtime") {
            p.wtime = v_u64;
            i = if i + 1 < n { i + 2 } else { n };
        } else if is_word(w, "btime") {
            p.btime = v_u64;
            i = if i + 1 < n { i + 2 } else { n };
        } else if is_word(w, "winc") {
            p.winc = v_u64;
            i = if i + 1 < n { i + 2 } else { n };
        } else if is_word(w, "binc") {
            p.binc = v_u64;
            i = if i + 1 < n { i + 2 } else { n };
        } else if is_word(w, "movestogo") {
            p.movestogo = v_u64;
            i = if i + 1 < n { i + 2 } else { n };
        } else if is_word(w, "movetime") {
            p.movetime = v_u64;
            i = if i + 1 < n { i + 2 } else { n };
        } else if is_word(w, "depth") {
            let d: Option<i32> = if i + 1 < n {
                assert(tv[k + 1] == all@[i + 1]@);
                parse_i32(&all[i + 1])
            } else {
                None
            };
            assert(d == value_i32(tv, k));
            p.depth_limit = d;
            p.max_depth = match d {
                Some(x) => x,
                None => DEFAULT_GO_DEPTH,
            };
            i = if i + 1 < n { i + 2 } else { n };
        } else if is_word(w, "infinite") {
            p.infinite = true;
            i += 1;
        } else if is_word(w, "ponder") {
            p.ponder = true;
            i += 1;
        } else {
            i += 1;
        }
        proof {
            if k + 2 > tv.len() {
                assert(go_scan(tv, k + 2, p) == p);
                assert(go_scan(tv, (i - first) as int, p) == p);
            }
        }
    }
    GoCommand::Search(p)
}

/// The clock state of a `go` search, for the time manager.
pub fn time_control(p: &GoParams, side_to_move: Color) -> (t: TimeControlInput)
    ensures
        t == (TimeControlInput {
            side_to_move,
            wtime_ms: p.wtime,
            btime_ms: p.btime,
            winc_ms: p.winc,
            binc_ms: p.binc,
            movestogo: p.movestogo,
            movetime_ms: p.movetime,
            depth: p.depth_limit,
            infinite: p.infinite,
            ponder: p.ponder,
        }),
{
    TimeControlInput {
        side_to_move,
        wtime_ms: p.wtime,
        btime_ms: p.btime,
        winc_ms: p.winc,
        binc_ms: p.binc,
        movestogo: p.movestogo,
        movetime_ms: p.movetime,
        depth: p.depth_limit,
        infinite: p.infinite,
        ponder: p.ponder,
    }
}

/// The depth argument of a `perft N` line: its second word read as a
/// number, 1 when missing or unreadable.
pub fn perft_depth_arg(line: &str) -> (r: u32)
    ensures
        r == (if ws_tokens(line@).len() > 1 {
            match crate::fen::parse_u32_spec(ws_tokens(line@)[1]) {
                Some(d) => d,
                None => 1,
            }
        } else {
            1
        }),
{
    let chars = chars_of(line);
    let t = split_whitespace(&chars);
    if t.len() > 1 {
        match crate::fen::parse_u32(&t[1]) {
            Some(d) => d,
            None => 1,
        }
    } else {
        1
    }
}

// ---------------------------------------------------------------------------
// position
// ---------------------------------------------------------------------------

/// The board that `Board::start_pos` builds.
pub open spec fn is_start_board(b: Board) -> bool {
    &&& b.wf()
    &&& forall|s: int| 0 <= s < 64 ==> #[trigger] b.mailbox[s] == start_piece(s)
    &&& b.side_to_move == Color::White
    &&& b.castling.white_kingside && b.castling.white_queenside && b.castling.black_kingside
        && b.castling.black_queenside
    &&& b.en_passant is None
    &&& b.halfmove_clock == 0
    &&& b.fullmove_number == 1
    &&& b.hash == zobrist_hash(b)
}

/// Index of the first "moves" token at or after `i` (the end when none).
pub open spec fn fen_end(t: Seq<Seq<char>>, i: int) -> int
    decreases t.len() - i,
{
    if i < 0 || i >= t.len() || t[i] == "moves"@ {
        i
    } else {
        fen_end(t, i + 1)
    }
}

/// Tokens joined with single spaces.
pub open spec fn join_space(t: Seq<Seq<char>>) -> Seq<char>
    decreases t.len(),
{
    if t.len() == 0 {
        Seq::empty()
    } else if t.len() == 1 {
        t[0]
    } else {
        join_space(t.drop_last()) + seq![' '] + t.last()
    }
}

/// Whether a `position` command gives a FEN record.
pub open spec fn gives_fen(t: Seq<Seq<char>>) -> bool {
    t.len() > 0 && t[0] == "fen"@
}

/// The FEN record of a `position fen ...` command.
pub open spec fn command_fen(t: Seq<Seq<char>>) -> Seq<char> {
    join_space(t.subrange(1, fen_end(t, 1)))
}

/// Where the move list of a `position` command may start.
pub open spec fn moves_index(t: Seq<Seq<char>>) -> int {
    if t.len() > 0 && t[0] == "startpos"@ {
        1
    } else if gives_fen(t) {
        fen_end(t, 1)
    } else {
        0
    }
}

/// The moves of a `position` command, in UCI notation.
pub open spec fn command_moves(t: Seq<Seq<char>>) -> Seq<Seq<char>> {
    let i = moves_index(t);
    if i < t.len() && t[i] == "moves"@ {
        t.skip(i + 1)
    } else {
        Seq::empty()
    }
}

/// The board a `position` command starts from: its FEN record when that
/// reads, the initial position otherwise.
pub open spec fn command_origin(t: Seq<Seq<char>>, b: Board) -> bool {
    if gives_fen(t) && fen_position(command_fen(t)) is Some {
        fen_board(command_fen(t), b)
    } else {
        is_start_board(b)
    }
}

/// The board reached by playing `ms` from `b`.
pub open spec fn play_line(b: Board, ms: Seq<Move>) -> Board
    decreases ms.len(),
{
    if ms.len() == 0 {
        b
    } else {
        board_after(play_line(b, ms.drop_last()), ms.last())
    }
}

/// Each move of `ms` is legal where it is played and is named by the
/// token of the same rank in `names`.
pub open spec fn line_named(b: Board, ms: Seq<Move>, names: Seq<Seq<char>>) -> bool {
    &&& ms.len() <= names.len()
    &&& forall|i: int| 0 <= i < ms.len() ==> is_legal(play_line(b, ms.take(i)), #[trigger] ms[i])
    &&& forall|i: int| 0 <= i < ms.len() ==> uci_name(#[trigger] ms[i]) == names[i]
}

/// A move named `name` can be played on `b`.
pub open spec fn playable(b: Board, name: Seq<char>) -> bool {
    position_ok(b) && counters_ok(b) && exists|m: Move| is_legal(b, m) && #[trigger] uci_name(m) == name
}

/// A `position` command read: the board it sets up, the hashes of the
/// positions from its start to that board, the error of a FEN record that
/// did not read, and the first move that could not be played.
pub struct PositionCommand {
    pub board: Board,
    pub history: Vec<u64>,
    pub fen_error: Option<String>,
    pub unknown_move: Option<String>,
}

/// The record joined from tokens `from..to`, with single spaces.
fn join_tokens(t: &Vec<Vec<char>>, from: usize, to: usize) -> (r: Vec<char>)
    requires
        from <= to <= t.len(),
    ensures
        r@ == join_space(Seq::new((to - from) as nat, |j: int| t@[from + j]@)),
    decreases to - from,
{
    if to == from {
        assert(Seq::new((to - from) as nat, |j: int| t@[from + j]@) =~= Seq::<Seq<char>>::empty());
        return Vec::new();
    }
    let ghost whole = Seq::new((to - from) as nat, |j: int| t@[from + j]@);
    let ghost front = Seq::new((to - 1 - from) as nat, |j: int| t@[from + j]@);
    assert(whole.drop_last() =~= front);
    let mut r = join_tokens(t, from, to - 1);
    if to - 1 > from {
        r.push(' ');
    } else {
        assert(r@ =~= Seq::<char>::empty());
    }
    crate::fen::push_all(&mut r, &t[to - 1]);
    assert(whole.last() == t@[to - 1]@);
    r
}

/// The legal move of `board` named `name`, when moves can be played there.
fn named_move(board: &Board, name: &str) -> (r: Option<Move>)
    ensures
        match r {
            Some(m) => position_ok(*board) && counters_ok(*board) && is_legal(*board, m) && uci_name(m) == name@,
            None => !playable(*board, name@),
        },
{
    if check_playable(board) {
        find_move(board, name)
    } else {
        None
    }
}

/// A line named by the first tokens stays so named when one more legal
/// move, named by the next token, is played at its end.
proof fn lemma_extend_line(b0: Board, ms: Seq<Move>, m: Move, names: Seq<Seq<char>>)
    requires
        line_named(b0, ms, names),
        ms.len() < names.len(),
        is_legal(play_line(b0, ms), m),
        uci_name(m) == names[ms.len() as int],
    ensures
        line_named(b0, ms.push(m), names),
        play_line(b0, ms.push(m)) == board_after(play_line(b0, ms), m),
        forall|i: int| 0 <= i <= ms.len() ==> #[trigger] ms.push(m).take(i) == ms.take(i),
{
    let ms2 = ms.push(m);
    assert(ms2.drop_last() =~= ms);
    assert forall|i: int| 0 <= i <= ms.len() implies #[trigger] ms2.take(i) == ms.take(i) by {
        assert(ms2.take(i) =~= ms.take(i));
    }
    assert(ms2.take(ms.len() as int) =~= ms);
    assert forall|i: int| 0 <= i < ms2.len() implies is_legal(play_line(b0, ms2.take(i)), #[trigger] ms2[i]) by {
        if i < ms.len() {
            assert(ms2.take(i) == ms.take(i));
        }
    }
}

/// The start of a `position` command: its board, the index where a move
/// list may start, and the error of a FEN record that did not read.
fn command_start(t: &Vec<Vec<char>>, Ghost(tv): Ghost<Seq<Seq<char>>>) -> (r: (Board, usize, Option<String>))
    requires
        t@.len() == tv.len(),
        forall|j: int| 0 <= j < tv.len() ==> #[trigger] t@[j]@ == tv[j],
    ensures
        command_origin(tv, r.0),
        r.1 == moves_index(tv),
        r.1 <= tv.len(),
        r.2 is Some <==> (gives_fen(tv) && fen_position(command_fen(tv)) is None),
{
    let n = t.len();
    if n > 0 && is_word(&t[0], "startpos") {
        proof {
            reveal_strlit("startpos");
            reveal_strlit("fen");
            assert(tv[0] == t@[0]@);
            assert("startpos"@.len() != "fen"@.len());
        }
        return (Board::start_pos(), 1, None);
    }
    if n > 0 && is_word(&t[0], "fen") {
        let mut idx: usize = 1;
        while idx < n && !is_word(&t[idx], "moves")
            invariant
                1 <= idx <= n,
                n == t@.len(),
                t@.len() == tv.len(),
                forall|j: int| 0 <= j < tv.len() ==> #[trigger] t@[j]@ == tv[j],
                fen_end(tv, 1) == fen_end(tv, idx as int),
            decreases n - idx,
        {
            idx += 1;
        }
        let fen = join_tokens(t, 1, idx);
        assert(Seq::new((idx - 1) as nat, |j: int| t@[1 + j]@) =~= tv.subrange(1, idx as int));
        let fen_text = string_from_chars(&fen);
        match Board::from_fen(fen_text.as_str()) {
            Ok(b) => {
                return (b, idx, None);
            },
            Err(e) => {
                return (Board::start_pos(), idx, Some(e));
            },
        }
    }
    (Board::start_pos(), 0, None)
}

/// Plays the moves named by `t[from..]` from `b0` until one cannot be
/// played: the board reached, the hashes along the way, the name that
/// stopped it, and the moves played.
fn play_named(b0: Board, t: &Vec<Vec<char>>, from: usize, Ghost(names): Ghost<Seq<Seq<char>>>) -> (r: (Board, Vec<u64>, Option<String>, Ghost<Seq<Move>>))
    requires
        from <= t@.len(),
        names.len() == t@.len() - from,
        forall|k: int| 0 <= k < names.len() ==> #[trigger] names[k] == t@[from + k]@,
    ensures
        ({
            let ms = r.3@;
            &&& line_named(b0, ms, names)
            &&& r.0 == play_line(b0, ms)
            &&& r.1@.len() == ms.len() + 1
            &&& forall|i: int| 0 <= i <= ms.len() ==> #[trigger] r.1@[i] == play_line(b0, ms.take(i)).hash
            &&& match r.2 {
                Some(name) => ms.len() < names.len() && name@ == names[ms.len() as int] && !playable(
                    play_line(b0, ms),
                    names[ms.len() as int],
                ),
                None => ms.len() == names.len(),
            }
        }),
{
    let n = t.len();
    let mut board = b0;
    let mut history: Vec<u64> = Vec::new();
    history.push(board.hash);
    let ghost mut ms: Seq<Move> = Seq::empty();
    assert(ms.take(0) =~= ms);
    let mut j: usize = from;
    while j < n
        invariant
            from <= j <= n,
            n == t@.len(),
            names.len() == n - from,
            forall|k: int| 0 <= k < names.len() ==> #[trigger] names[k] == t@[from + k]@,
            ms.len() == j - from,
            line_named(b0, ms, names),
            board == play_line(b0, ms),
            history@.len() == ms.len() + 1,
            forall|i: int| 0 <= i <= ms.len() ==> #[trigger] history@[i] == play_line(b0, ms.take(i)).hash,
        decreases n - j,
    {
        let ghost k = (j - from) as int;
        assert(names[k] == t@[j as int]@);
        let name_text = string_from_chars(&t[j]);
        match named_move(&board, name_text.as_str()) {
            Some(m) => {
                proof {
                    lemma_pseudo_legal_consistent(board, m);
                    lemma_extend_line(b0, ms, m, names);
                }
                let ghost old_ms = ms;
                board = board.make_move(m);
                history.push(board.hash);
                proof {
                    ms = ms.push(m);
                    assert(ms.take(ms.len() as int) =~= ms);
                    assert forall|i: int| 0 <= i <= ms.len() implies #[trigger] history@[i] == play_line(b0, ms.take(i)).hash by {
                        if i < ms.len() {
                            assert(ms.take(i) == old_ms.take(i));
                        }
                    }
                }
            },
            None => {
                return (board, history, Some(name_text), Ghost(ms));
            },
        }
        j += 1;
    }
    (board, history, None, Ghost(ms))
}

/// Reads the arguments of a `position` command ("startpos" or "fen ..."
/// and an optional "moves ..." list). A FEN record that does not read
/// leaves the initial position; the moves are played until one names no
/// legal move of the position reached.
pub fn parse_position(rest: &str) -> (r: PositionCommand)
    ensures
        ({
            let t = ws_tokens(rest@);
            let names = command_moves(t);
            exists|b0: Board, ms: Seq<Move>|
                {
                    &&& command_origin(t, b0)
                    &&& line_named(b0, ms, names)
                    &&& r.board == play_line(b0, ms)
                    &&& r.history@.len() == ms.len() + 1
                    &&& forall|i: int| 0 <= i <= ms.len() ==> #[trigger] r.history@[i] == play_line(b0, ms.take(i)).hash
                    &&& match r.unknown_move {
                        Some(name) => ms.len() < names.len() && name@ == names[ms.len() as int] && !playable(
                            play_line(b0, ms),
                            names[ms.len() as int],
                        ),
                        None => ms.len() == names.len(),
                    }
                }
        }),
        r.fen_error is Some <==> (gives_fen(ws_tokens(rest@)) && fen_position(command_fen(ws_tokens(rest@))) is None),
{
    let chars = chars_of(rest);
    let t = split_whitespace(&chars);
    let ghost tv = ws_tokens(rest@);
    let n = t.len();
    let (board, idx, fen_error) = command_start(&t, Ghost(tv));
    let ghost names = command_moves(tv);
    let from: usize = if idx < n && is_word(&t[idx], "moves") { idx + 1 } else { n };
    proof {
        if idx < n && t@[idx as int]@ == "moves"@ {
            assert(names =~= tv.skip(idx + 1));
        } else {
            assert(names =~= Seq::<Seq<char>>::empty());
        }
    }
    let (b, history, unknown_move, Ghost(ms)) = play_named(board, &t, from, Ghost(names));
    PositionCommand { board: b, history, fen_error, unknown_move }
}

// ---------------------------------------------------------------------------
// setoption
// ---------------------------------------------------------------------------

/// Index of the first occurrence of `p` in `s` at or after `i`.
pub open spec fn find_sub(s: Seq<char>, p: Seq<char>, i: int) -> Option<int>
    decreases s.len() + 1 - i,
{
    if i < 0 || i + p.len() > s.len() {
        None
    } else if s.subrange(i, i + p.len()) == p {
        Some(i)
    } else {
        find_sub(s, p, i + 1)
    }
}

/// Equality of two texts with ASCII letters compared without case.
pub open spec fn eq_ignore_case(a: Seq<char>, b: Seq<char>) -> bool {
    a.len() == b.len() && forall|i: int| 0 <= i < a.len() ==> ascii_lower(#[trigger] a[i]) == ascii_lower(b[i])
}

/// The (name, value) of a "setoption name <name> value <value>" line, trimmed.
pub open spec fn option_parts(l: Seq<char>) -> Option<(Seq<char>, Seq<char>)> {
    match find_sub(l, "name "@, 0) {
        None => None,
        Some(np) => {
            let rest = l.skip(np + 5);
            match find_sub(rest, " value "@, 0) {
                None => None,
                Some(vp) => Some((trim(rest.take(vp)), trim(rest.skip(vp + 7)))),
            }
        },
    }
}

/// A change of an engine option.
pub enum EngineOption {
    /// Size of the transposition table, in megabytes (at least 1).
    Hash(usize),
    /// Number of search threads (1 to 64).
    Threads(usize),
    /// Whether to play from the opening book.
    OwnBook(bool),
    /// The opening book file, or none.
    BookFile(Option<String>),
    /// A line that changes nothing.
    Unchanged,
}

/// Reads a `setoption` line. Unknown options, and numbers that do not
/// read, change nothing.
pub fn parse_setoption(line: &str) -> (r: EngineOption)
    ensures
        match option_parts(line@) {
            None => r is Unchanged,
            Some((name, value)) => if eq_ignore_case(name, "Hash"@) {
                match parse_usize_spec(value) {
                    Some(mb) => r == EngineOption::Hash(if mb < 1 { 1 } else { mb }),
                    None => r is Unchanged,
                }
            } else if eq_ignore_case(name, "Threads"@) {
                match parse_usize_spec(value) {
                    Some(n) => r == EngineOption::Threads(if n < 1 { 1 } else if n > 64 { 64 } else { n }),
                    None => r is Unchanged,
                }
            } else if eq_ignore_case(name, "OwnBook"@) {
                r == EngineOption::OwnBook(eq_ignore_case(value, "true"@))
            } else if eq_ignore_case(name, "BookFile"@) {
                if value.len() == 0 || value == "<empty>"@ {
                    r == EngineOption::BookFile(None)
                } else {
                    r matches EngineOption::BookFile(Some(f)) && f@ == value
                }
            } else {
                r is Unchanged
            },
        },
{
    let l = chars_of(line);
    proof {
        reveal_strlit("name ");
        reveal_strlit(" value ");
    }
    let np = match find_chars(&l, "name ", 0) {
        Some(i) => i,
        None => {
            return EngineOption::Unchanged;
        },
    };
    assert("name "@.len() == 5);
    assert(l@ == line@);
    assert(np + 5 <= l.len());
    let rest = sub_chars(&l, np + 5, l.len());
    assert(rest@ == l@.skip(np + 5));
    let vp = match find_chars(&rest, " value ", 0) {
        Some(i) => i,
        None => {
            return EngineOption::Unchanged;
        },
    };
    let name_raw = sub_chars(&rest, 0, vp);
    let name = trim_chars(&name_raw);
    let value_raw = sub_chars(&rest, vp + 7, rest.len());
    let value = trim_chars(&value_raw);
    assert(name_raw@ == rest@.take(vp as int));
    assert(value_raw@ == rest@.skip(vp + 7));
    if same_ignoring_case(&name, "Hash") {
        match parse_usize(&value) {
            Some(mb) => EngineOption::Hash(if mb < 1 { 1 } else { mb }),
            None => EngineOption::Unchanged,
        }
    } else if same_ignoring_case(&name, "Threads") {
        match parse_usize(&value) {
            Some(n) => EngineOption::Threads(if n < 1 { 1 } else if n > 64 { 64 } else { n }),
            None => EngineOption::Unchanged,
        }
    } else if same_ignoring_case(&name, "OwnBook") {
        EngineOption::OwnBook(same_ignoring_case(&value, "true"))
    } else if same_ignoring_case(&name, "BookFile") {
        if value.len() == 0 || is_word(&value, "<empty>") {
            EngineOption::BookFile(None)
        } else {
            EngineOption::BookFile(Some(string_from_chars(&value)))
        }
    } else {
        EngineOption::Unchanged
    }
}

/// The first occurrence of `p` in `s` at or after `from`.
fn find_chars(s: &Vec<char>, p: &str, from: usize) -> (r: Option<usize>)
    requires
        from <= s.len(),
    ensures
        match r {
            Some(i) => find_sub(s@, p@, from as int) == Some(i as int) && i + p@.len() <= s@.len(),
            None => find_sub(s@, p@, from as int) is None,
        },
{
    let pv = chars_of(p);
    let mut i: usize = from;
    while pv.len() <= s.len() && i <= s.len() - pv.len()
        invariant
            from <= i,
            i <= s.len(),
            pv@ == p@,
            find_sub(s@, p@, from as int) == find_sub(s@, p@, i as int),
        decreases s.len() - i,
    {
        let mut k: usize = 0;
        let mut same = true;
        while k < pv.len()
            invariant
                i + pv.len() <= s.len(),
                k <= pv.len(),
                same == forall|j: int| 0 <= j < k ==> s@[i + j] == pv@[j],
            decreases pv.len() - k,
        {
            if s[i + k] != pv[k] {
                same = false;
            }
            k += 1;
        }
        if same {
            assert(s@.subrange(i as int, i + pv@.len()) =~= pv@);
            return Some(i);
        }
        proof {
            let j = choose|j: int| 0 <= j < pv@.len() && s@[i + j] != pv@[j];
            assert(s@.subrange(i as int, i + pv@.len())[j] != pv@[j]);
        }
        i += 1;
    }
    None
}

/// Whether `v` spells `w`, ASCII letters compared without case.
fn same_ignoring_case(v: &Vec<char>, w: &str) -> (r: bool)
    ensures
        r == eq_ignore_case(v@, w@),
{
    let wv = chars_of(w);
    if v.len() != wv.len() {
        return false;
    }
    let mut i: usize = 0;
    while i < v.len()
        invariant
            i <= v.len(),
            v.len() == wv.len(),
            wv@ == w@,
            forall|j: int| 0 <= j < i ==> ascii_lower(#[trigger] v@[j]) == ascii_lower(wv@[j]),
        decreases v.len() - i,
    {
        if lower_char(v[i]) != lower_char(wv[i]) {
            return false;
        }
        i += 1;
    }
    true
}

fn lower_char(c: char) -> (r: char)
    ensures
        r == ascii_lower(c),
{
    if 'A' <= c && c <= 'Z' {
        ((c as u32) + 32) as u8 as char
    } else {
        c
    }
}

} // verus!
