//! Extended Position Description (EPD) test suites: each line holds the
//! first four FEN fields followed by operations such as `bm Nf3;` (best
//! moves), `am Qxb7;` (moves to avoid) and `id "name";`.

pub mod san;

use vstd::prelude::*;
use crate::board::{zobrist_hash, Board};
use crate::epd::san::{clean_token, resolve_san_token, san_resolves_to, sub_chars, trim, trim_chars};
use crate::fen::fen_position;
use crate::movegen::{generate_legal_moves, is_legal};
use crate::moves::Move;
use crate::perft::check_legal_position;
use crate::search::{node_ok, search_fixed_depth_with_stats, tt_kept, MAX_DEPTH, MAX_PLY};
use crate::tt::TranspositionTable;
use crate::fen::{char_is_whitespace, chars_of, decimal_text, is_ws, push_all, split_whitespace, ws_tokens};
use crate::search::u128_chars;
use crate::types::string_from_chars;

verus! {

/// One test position of a suite.
#[derive(Debug)]
pub struct EpdPosition {
    /// The position as a FEN record (clocks set to "0 1").
    pub fen: String,
    /// SAN tokens of the moves the engine should choose (`bm`).
    pub best_moves: Vec<String>,
    /// SAN tokens of the moves the engine should avoid (`am`).
    pub avoid_moves: Vec<String>,
    /// The position's name (`id`), without its quotes.
    pub id: Option<String>,
    /// Line of the suite the position was read from (1-based).
    pub line_number: usize,
}

/// Counts over a whole suite.
#[derive(Debug, Default)]
pub struct EpdSummary {
    pub positions: usize,
    pub passed: usize,
    pub failed: usize,
}

// ---------------------------------------------------------------------------
// The shape of a line
// ---------------------------------------------------------------------------

/// The characters of each string.
pub open spec fn strings_view(v: Seq<String>) -> Seq<Seq<char>> {
    Seq::new(v.len(), |i: int| v[i]@)
}

/// Index of the first whitespace character of `s` at or after `i`.
pub open spec fn first_ws_from(s: Seq<char>, i: int) -> Option<int>
    decreases s.len() - i,
{
    if i < 0 || i >= s.len() {
        None
    } else if is_ws(s[i]) {
        Some(i)
    } else {
        first_ws_from(s, i + 1)
    }
}

/// The text after the `n`-th whitespace character (empty when there are
/// fewer), as the last piece of splitting at whitespace into `n + 1` pieces.
pub open spec fn after_nth_ws(s: Seq<char>, n: nat) -> Seq<char>
    decreases n,
{
    if n == 0 {
        s
    } else {
        match first_ws_from(s, 0) {
            None => Seq::empty(),
            Some(i) => after_nth_ws(s.skip(i + 1), (n - 1) as nat),
        }
    }
}

/// Splitting the first `n` characters of the operations at ';' outside
/// double quotes: the finished (trimmed) operations, the one being read,
/// and whether a quote is open.
pub open spec fn ops_state(s: Seq<char>, n: int) -> (Seq<Seq<char>>, Seq<char>, bool)
    decreases n,
{
    if n <= 0 {
        (Seq::empty(), Seq::empty(), false)
    } else {
        let (res, cur, q) = ops_state(s, n - 1);
        let c = s[n - 1];
        if c == '"' {
            (res, cur.push(c), !q)
        } else if c == ';' && !q {
            (res.push(trim(cur)), Seq::empty(), q)
        } else {
            (res, cur.push(c), q)
        }
    }
}

/// The operations of a line, trimmed; a last one without ';' counts when
/// it is not blank.
pub open spec fn split_ops_spec(s: Seq<char>) -> Seq<Seq<char>> {
    let (res, cur, _q) = ops_state(s, s.len() as int);
    if trim(cur).len() > 0 {
        res.push(trim(cur))
    } else {
        res
    }
}

pub open spec fn has_prefix(s: Seq<char>, p: Seq<char>) -> bool {
    p.len() <= s.len() && s.take(p.len() as int) == p
}

/// An `id` value without its surrounding double quotes.
pub open spec fn parse_id_spec(r: Seq<char>) -> Seq<char> {
    if r.len() >= 2 && r[0] == '"' && r.last() == '"' {
        r.subrange(1, r.len() - 1)
    } else {
        r
    }
}

/// Best moves, moves to avoid and name collected from the first `n`
/// operations (a later `id` replaces an earlier one).
pub open spec fn ops_fields(ops: Seq<Seq<char>>, n: int) -> (Seq<Seq<char>>, Seq<Seq<char>>, Option<Seq<char>>)
    decreases n,
{
    if n <= 0 {
        (Seq::empty(), Seq::empty(), None)
    } else {
        let (bm, am, id) = ops_fields(ops, n - 1);
        let op = trim(ops[n - 1]);
        if has_prefix(op, seq!['b', 'm', ' ']) {
            (bm + ws_tokens(op.skip(3)), am, id)
        } else if has_prefix(op, seq!['a', 'm', ' ']) {
            (bm, am + ws_tokens(op.skip(3)), id)
        } else if has_prefix(op, seq!['i', 'd', ' ']) {
            (bm, am, Some(parse_id_spec(trim(op.skip(3)))))
        } else {
            (bm, am, id)
        }
    }
}

/// A blank line or a comment.
pub open spec fn epd_skipped(line: Seq<char>) -> bool {
    let t = trim(line);
    t.len() == 0 || t[0] == '#'
}

/// A line with fewer than the four position fields.
pub open spec fn epd_incomplete(line: Seq<char>) -> bool {
    !epd_skipped(line) && ws_tokens(trim(line)).len() < 4
}

/// The FEN record of the four position fields, with clocks "0 1".
pub open spec fn epd_fen(f: Seq<Seq<char>>) -> Seq<char> {
    f[0] + seq![' '] + f[1] + seq![' '] + f[2] + seq![' '] + f[3] + seq![' ', '0', ' ', '1']
}

/// The operations of a line.
pub open spec fn epd_ops(line: Seq<char>) -> Seq<Seq<char>> {
    split_ops_spec(after_nth_ws(trim(line), 4))
}

pub open spec fn incomplete_message(n: nat) -> Seq<char> {
    seq!['l', 'i', 'n', 'e', ' '] + decimal_text(n) + ": EPD incompleto"@
}

// ---------------------------------------------------------------------------
// Reading a line
// ---------------------------------------------------------------------------

/// Start of the text after the fourth whitespace character, if there are four.
fn ops_start(s: &Vec<char>) -> (r: usize)
    ensures
        r <= s.len(),
        after_nth_ws(s@, 4) == s@.skip(r as int),
{
    let mut count: usize = 0;
    let mut pos: usize = 0;
    let mut i: usize = 0;
    assert(s@.skip(0) == s@);
    while i < s.len() && count < 4
        invariant
            pos <= i <= s.len(),
            count <= 4,
            after_nth_ws(s@, 4) == after_nth_ws(s@.skip(pos as int), (4 - count) as nat),
            first_ws_from(s@.skip(pos as int), 0) == first_ws_from(s@.skip(pos as int), i - pos),
        decreases s.len() - i,
    {
        let ghost t = s@.skip(pos as int);
        if char_is_whitespace(s[i]) {
            assert(t[i - pos] == s@[i as int]);
            assert(first_ws_from(t, i - pos) == Some(i - pos));
            assert(t.skip(i - pos + 1) == s@.skip(i + 1));
            count += 1;
            pos = i + 1;
            assert(first_ws_from(s@.skip(pos as int), 0) == first_ws_from(s@.skip(pos as int), i + 1 - pos));
        } else {
            assert(t[i - pos] == s@[i as int]);
            assert(first_ws_from(t, i - pos) == first_ws_from(t, i - pos + 1));
        }
        i += 1;
    }
    if count == 4 {
        pos
    } else {
        assert(first_ws_from(s@.skip(pos as int), i - pos) is None);
        assert(s@.skip(s@.len() as int) == Seq::<char>::empty());
        s.len()
    }
}

/// The operations of a text, split at ';' outside double quotes and trimmed.
fn split_ops(ops: &Vec<char>) -> (r: Vec<Vec<char>>)
    ensures
        r@.len() == split_ops_spec(ops@).len(),
        forall|i: int| 0 <= i < r@.len() ==> #[trigger] r@[i]@ == split_ops_spec(ops@)[i],
{
    let mut result: Vec<Vec<char>> = Vec::new();
    let mut current: Vec<char> = Vec::new();
    let mut in_quote = false;
    let mut i: usize = 0;
    while i < ops.len()
        invariant
            i <= ops.len(),
            result@.len() == ops_state(ops@, i as int).0.len(),
            forall|j: int| 0 <= j < result@.len() ==> #[trigger] result@[j]@ == ops_state(ops@, i as int).0[j],
            current@ == ops_state(ops@, i as int).1,
            in_quote == ops_state(ops@, i as int).2,
        decreases ops.len() - i,
    {
        let c = ops[i];
        if c == '"' {
            in_quote = !in_quote;
            current.push(c);
        } else if c == ';' && !in_quote {
            let t = trim_chars(&current);
            result.push(t);
            current = Vec::new();
        } else {
            current.push(c);
        }
        i += 1;
    }
    let t = trim_chars(&current);
    if t.len() > 0 {
        result.push(t);
    }
    result
}

/// Whether `v` starts with the two letters `a`, `b` and a space.
fn has_op_prefix(v: &Vec<char>, a: char, b: char) -> (r: bool)
    ensures
        r == has_prefix(v@, seq![a, b, ' ']),
{
    let r = v.len() >= 3 && v[0] == a && v[1] == b && v[2] == ' ';
    proof {
        if v@.len() >= 3 {
            assert(r == (v@.take(3) =~= seq![a, b, ' ']));
        }
    }
    r
}

/// The strings of the whitespace-separated tokens of `v`, appended to `out`.
fn push_tokens(out: &mut Vec<String>, v: &Vec<char>)
    ensures
        strings_view(final(out)@) == strings_view(old(out)@) + ws_tokens(v@),
{
    let toks = split_whitespace(v);
    let ghost start = strings_view(out@);
    let mut j: usize = 0;
    while j < toks.len()
        invariant
            j <= toks.len(),
            toks@.len() == ws_tokens(v@).len(),
            forall|i: int| 0 <= i < toks@.len() ==> #[trigger] toks@[i]@ == ws_tokens(v@)[i],
            strings_view(out@) == start + ws_tokens(v@).take(j as int),
        decreases toks.len() - j,
    {
        let s = string_from_chars(&toks[j]);
        let ghost before = out@;
        out.push(s);
        assert(strings_view(out@) == strings_view(before).push(s@));
        assert(ws_tokens(v@).take(j as int + 1) == ws_tokens(v@).take(j as int).push(ws_tokens(v@)[j as int]));
        j += 1;
    }
    assert(ws_tokens(v@).take(toks@.len() as int) == ws_tokens(v@));
}

/// The value of an `id` operation without its surrounding double quotes.
fn parse_id(rest: &Vec<char>) -> (r: String)
    ensures
        r@ == parse_id_spec(rest@),
{
    if rest.len() >= 2 && rest[0] == '"' && rest[rest.len() - 1] == '"' {
        let inner = sub_chars(rest, 1, rest.len() - 1);
        string_from_chars(&inner)
    } else {
        string_from_chars(rest)
    }
}

/// Reads one line of a suite: `Ok(None)` for a blank line or a comment
/// ('#'), an error for a line with fewer than the four position fields,
/// and otherwise the position with its `bm`, `am` and `id` operations.
pub fn parse_line(line: &str, line_number: usize) -> (r: Result<Option<EpdPosition>, String>)
    ensures
        match r {
            Err(e) => epd_incomplete(line@) && e@ == incomplete_message(line_number as nat),
            Ok(None) => epd_skipped(line@),
            Ok(Some(p)) => {
                let fields = ops_fields(epd_ops(line@), epd_ops(line@).len() as int);
                &&& !epd_skipped(line@)
                &&& !epd_incomplete(line@)
                &&& p.fen@ == epd_fen(ws_tokens(trim(line@)))
                &&& strings_view(p.best_moves@) == fields.0
                &&& strings_view(p.avoid_moves@) == fields.1
                &&& match p.id {
                    Some(s) => fields.2 == Some(s@),
                    None => fields.2 is None,
                }
                &&& p.line_number == line_number
            },
        },
{
    let raw = chars_of(line);
    let t = trim_chars(&raw);
    if t.len() == 0 || t[0] == '#' {
        return Ok(None);
    }
    let fields = split_whitespace(&t);
    if fields.len() < 4 {
        let mut msg = chars_of("line ");
        let digits = u128_chars(line_number as u128);
        push_all(&mut msg, &digits);
        let tail = chars_of(": EPD incompleto");
        push_all(&mut msg, &tail);
        proof {
            reveal_strlit("line ");
            assert(seq!['l', 'i', 'n', 'e', ' '] =~= "line "@);
        }
        return Err(string_from_chars(&msg));
    }
    let mut fen: Vec<char> = Vec::new();
    push_all(&mut fen, &fields[0]);
    fen.push(' ');
    push_all(&mut fen, &fields[1]);
    fen.push(' ');
    push_all(&mut fen, &fields[2]);
    fen.push(' ');
    push_all(&mut fen, &fields[3]);
    fen.push(' ');
    fen.push('0');
    fen.push(' ');
    fen.push('1');
    assert(fen@ =~= epd_fen(ws_tokens(t@)));
    let start = ops_start(&t);
    let rest = sub_chars(&t, start, t.len());
    assert(rest@ == t@.skip(start as int));
    let ops = split_ops(&rest);
    let ghost opss = epd_ops(line@);
    let mut best_moves: Vec<String> = Vec::new();
    let mut avoid_moves: Vec<String> = Vec::new();
    let mut id: Option<String> = None;
    let mut i: usize = 0;
    while i < ops.len()
        invariant
            i <= ops.len(),
            ops@.len() == opss.len(),
            forall|j: int| 0 <= j < ops@.len() ==> #[trigger] ops@[j]@ == opss[j],
            strings_view(best_moves@) == ops_fields(opss, i as int).0,
            strings_view(avoid_moves@) == ops_fields(opss, i as int).1,
            match id {
                Some(s) => ops_fields(opss, i as int).2 == Some(s@),
                None => ops_fields(opss, i as int).2 is None,
            },
        decreases ops.len() - i,
    {
        let op = trim_chars(&ops[i]);
        if has_op_prefix(&op, 'b', 'm') {
            let rest = sub_chars(&op, 3, op.len());
            assert(rest@ == op@.skip(3));
            push_tokens(&mut best_moves, &rest);
        } else if has_op_prefix(&op, 'a', 'm') {
            let rest = sub_chars(&op, 3, op.len());
            assert(rest@ == op@.skip(3));
            push_tokens(&mut avoid_moves, &rest);
        } else if has_op_prefix(&op, 'i', 'd') {
            let rest = sub_chars(&op, 3, op.len());
            assert(rest@ == op@.skip(3));
            let inner = trim_chars(&rest);
            id = Some(parse_id(&inner));
        }
        i += 1;
    }
    let position = EpdPosition {
        fen: string_from_chars(&fen),
        best_moves,
        avoid_moves,
        id,
        line_number,
    };
    Ok(Some(position))
}

// ---------------------------------------------------------------------------
// Judging a position
// ---------------------------------------------------------------------------

/// The engine's answer on a position: whether it passed, the move it
/// chose, and why it failed (empty when it passed).
#[derive(Debug)]
pub struct EpdResult {
    pub passed: bool,
    pub best_move: Move,
    pub reason: String,
}

/// What `{:?}` writes for a list of strings, such as `["e4", "d4"]`.
pub uninterp spec fn debug_list(v: Seq<Seq<char>>) -> Seq<char>;

/// `format!("{:?}", v)` on a list of strings.
#[verifier::external_body]
fn debug_strings(v: &Vec<String>) -> (r: String)
    ensures
        r@ == debug_list(strings_view(v@)),
{
    format!("{:?}", v)
}

/// A token names exactly one legal move.
pub open spec fn resolvable(b: Board, t: Seq<char>) -> bool {
    clean_token(t).len() > 0 && exists|m: Move| san_resolves_to(b, clean_token(t), m)
}

pub open spec fn all_resolvable(b: Board, toks: Seq<Seq<char>>) -> bool {
    forall|i: int| 0 <= i < toks.len() ==> resolvable(b, #[trigger] toks[i])
}

/// Some token of `toks` names the move `m`.
pub open spec fn named_by(b: Board, toks: Seq<Seq<char>>, m: Move) -> bool {
    exists|i: int| 0 <= i < toks.len() && san_resolves_to(b, clean_token(#[trigger] toks[i]), m)
}

pub open spec fn unresolved_message(t: Seq<char>) -> Seq<char> {
    "no se pudo resolver SAN '"@ + t + "'"@
}

/// A chosen move passes when it is one of the best moves (if any are
/// given) and none of the moves to avoid.
pub open spec fn verdict_passed(b: Board, bm: Seq<Seq<char>>, am: Seq<Seq<char>>, m: Move) -> bool {
    (bm.len() == 0 || named_by(b, bm, m)) && !named_by(b, am, m)
}

pub open spec fn verdict_reason(b: Board, bm: Seq<Seq<char>>, am: Seq<Seq<char>>, m: Move) -> Seq<char> {
    if !(bm.len() == 0 || named_by(b, bm, m)) {
        "no está en bm "@ + debug_list(bm)
    } else if named_by(b, am, m) {
        "está en am "@ + debug_list(am)
    } else {
        Seq::empty()
    }
}

/// The verdict `res` on the position `p` over the board `b`.
pub open spec fn judged(b: Board, p: EpdPosition, res: EpdResult) -> bool {
    let bm = strings_view(p.best_moves@);
    let am = strings_view(p.avoid_moves@);
    &&& all_resolvable(b, bm)
    &&& all_resolvable(b, am)
    &&& is_legal(b, res.best_move)
    &&& res.passed == verdict_passed(b, bm, am, res.best_move)
    &&& res.reason@ == verdict_reason(b, bm, am, res.best_move)
}

/// `b` is the board that `Board::from_fen` reads from `fen`.
pub open spec fn fen_board(fen: Seq<char>, b: Board) -> bool {
    &&& fen_position(fen) == Some(
        (b.mailbox@, b.side_to_move, b.castling, b.en_passant, b.halfmove_clock, b.fullmove_number),
    )
    &&& b.wf()
    &&& b.hash == zobrist_hash(b)
}

/// The move each token names, or the message for the first token that
/// names none or several.
fn resolve_tokens(board: &Board, tokens: &Vec<String>) -> (r: Result<Vec<Move>, String>)
    requires
        crate::movegen::position_ok(*board),
        crate::movegen::counters_ok(*board),
    ensures
        match r {
            Ok(ms) => all_resolvable(*board, strings_view(tokens@)) && ms@.len() == tokens@.len() && forall|i: int|
                0 <= i < ms@.len() ==> san_resolves_to(*board, clean_token(tokens@[i]@), #[trigger] ms@[i]),
            Err(e) => exists|i: int|
                0 <= i < tokens@.len() && !resolvable(*board, #[trigger] tokens@[i]@) && e@ == unresolved_message(
                    tokens@[i]@,
                ),
        },
{
    let mut ms: Vec<Move> = Vec::new();
    let mut i: usize = 0;
    while i < tokens.len()
        invariant
            crate::movegen::position_ok(*board),
            crate::movegen::counters_ok(*board),
            i <= tokens.len(),
            ms@.len() == i,
            forall|j: int| 0 <= j < i ==> resolvable(*board, #[trigger] tokens@[j]@),
            forall|j: int| 0 <= j < i ==> san_resolves_to(*board, clean_token(tokens@[j]@), #[trigger] ms@[j]),
        decreases tokens.len() - i,
    {
        match resolve_san_token(board, tokens[i].as_str()) {
            Some(m) => {
                ms.push(m);
            },
            None => {
                let mut msg = chars_of("no se pudo resolver SAN '");
                let t = chars_of(tokens[i].as_str());
                push_all(&mut msg, &t);
                let close = chars_of("'");
                push_all(&mut msg, &close);
                return Err(string_from_chars(&msg));
            },
        }
        i += 1;
    }
    proof {
        assert forall|j: int| 0 <= j < strings_view(tokens@).len() implies resolvable(
            *board,
            #[trigger] strings_view(tokens@)[j],
        ) by {
            assert(resolvable(*board, tokens@[j]@));
        }
    }
    Ok(ms)
}

/// Whether `m` is one of the moves `ms`, which the tokens `toks` name one each.
fn named_in(ms: &Vec<Move>, m: Move, Ghost(b): Ghost<Board>, Ghost(toks): Ghost<Seq<Seq<char>>>) -> (r: bool)
    requires
        ms@.len() == toks.len(),
        forall|i: int| 0 <= i < ms@.len() ==> san_resolves_to(b, clean_token(toks[i]), #[trigger] ms@[i]),
    ensures
        r == named_by(b, toks, m),
{
    let mut i: usize = 0;
    while i < ms.len()
        invariant
            i <= ms.len(),
            ms@.len() == toks.len(),
            forall|j: int| 0 <= j < ms@.len() ==> san_resolves_to(b, clean_token(toks[j]), #[trigger] ms@[j]),
            forall|j: int| 0 <= j < i ==> ms@[j] != m,
        decreases ms.len() - i,
    {
        if ms[i] == m {
            proof {
                assert(san_resolves_to(b, clean_token(toks[i as int]), ms@[i as int]));
            }
            return true;
        }
        i += 1;
    }
    proof {
        if named_by(b, toks, m) {
            let j = choose|j: int| 0 <= j < toks.len() && san_resolves_to(b, clean_token(#[trigger] toks[j]), m);
            assert(san_resolves_to(b, clean_token(toks[j]), ms@[j]));
            assert(crate::epd::san::san_candidate(b, m, clean_token(toks[j])));
        }
    }
    false
}

/// Text of the failure on a chosen move (empty when it passes).
fn reason_text(prefix: &str, list: &Vec<String>) -> (r: String)
    ensures
        r@ == prefix@ + debug_list(strings_view(list@)),
{
    let mut v = chars_of(prefix);
    let d = debug_strings(list);
    let dv = chars_of(d.as_str());
    push_all(&mut v, &dv);
    string_from_chars(&v)
}

/// Searches a position to `depth` and judges the chosen move against its
/// `bm` and `am` operations. Fails when a token names no legal move (or
/// several), or when the position has no legal move.
pub fn judge_position(board: &Board, position: &EpdPosition, depth: i32) -> (r: Result<EpdResult, String>)
    requires
        node_ok(*board, 0),
        depth <= MAX_DEPTH - MAX_PLY,
    ensures
        match r {
            Ok(res) => judged(*board, *position, res),
            Err(_) => !(all_resolvable(*board, strings_view(position.best_moves@)) && all_resolvable(
                *board,
                strings_view(position.avoid_moves@),
            ) && exists|m: Move| is_legal(*board, m)),
        },
{
    let ghost bmv = strings_view(position.best_moves@);
    let ghost amv = strings_view(position.avoid_moves@);
    let bm = match resolve_tokens(board, &position.best_moves) {
        Ok(ms) => ms,
        Err(e) => {
            proof {
                let i = choose|i: int| 0 <= i < position.best_moves@.len() && !resolvable(*board, #[trigger] position.best_moves@[i]@);
                assert(bmv[i] == position.best_moves@[i]@);
            }
            return Err(e);
        },
    };
    let am = match resolve_tokens(board, &position.avoid_moves) {
        Ok(ms) => ms,
        Err(e) => {
            proof {
                let i = choose|i: int| 0 <= i < position.avoid_moves@.len() && !resolvable(*board, #[trigger] position.avoid_moves@[i]@);
                assert(amv[i] == position.avoid_moves@[i]@);
            }
            return Err(e);
        },
    };
    let legal = generate_legal_moves(board);
    if legal.len() == 0 {
        proof {
            assert forall|m: Move| !is_legal(*board, m) by {
                if is_legal(*board, m) {
                    assert(legal@.contains(m));
                }
            }
        }
        return Err(string_from_chars(&chars_of("la posición no tiene jugadas legales")));
    }
    proof {
        assert(legal@.contains(legal@[0]));
    }
    let mut tt = TranspositionTable::new(64);
    assert(tt_kept(tt));
    let (best_move, _score, _stats) = search_fixed_depth_with_stats(*board, depth, &mut tt, vec![board.hash]);
    proof {
        assert forall|i: int| 0 <= i < bm@.len() implies san_resolves_to(*board, clean_token(bmv[i]), #[trigger] bm@[i]) by {
            assert(bmv[i] == position.best_moves@[i]@);
        }
        assert forall|i: int| 0 <= i < am@.len() implies san_resolves_to(*board, clean_token(amv[i]), #[trigger] am@[i]) by {
            assert(amv[i] == position.avoid_moves@[i]@);
        }
    }
    let in_bm = named_in(&bm, best_move, Ghost(*board), Ghost(bmv));
    let in_am = named_in(&am, best_move, Ghost(*board), Ghost(amv));
    if bm.len() != 0 && !in_bm {
        let reason = reason_text("no está en bm ", &position.best_moves);
        return Ok(EpdResult { passed: false, best_move, reason });
    }
    if in_am {
        let reason = reason_text("está en am ", &position.avoid_moves);
        return Ok(EpdResult { passed: false, best_move, reason });
    }
    Ok(EpdResult { passed: true, best_move, reason: string_from_chars(&Vec::new()) })
}

/// Reads the position's FEN record, searches it to `depth` and judges the
/// chosen move. Fails on a record that does not read, on a position that is
/// not one of a game (or whose move counters leave no room for a search),
/// and where `judge_position` fails.
pub fn run_position(position: &EpdPosition, depth: i32) -> (r: Result<EpdResult, String>)
    requires
        depth <= MAX_DEPTH - MAX_PLY,
    ensures
        match r {
            Ok(res) => exists|b: Board| fen_board(position.fen@, b) && node_ok(b, 0) && judged(b, *position, res),
            Err(_) => fen_position(position.fen@) is None || exists|b: Board|
                fen_board(position.fen@, b) && !(node_ok(b, 0) && all_resolvable(b, strings_view(position.best_moves@))
                    && all_resolvable(b, strings_view(position.avoid_moves@)) && exists|m: Move| is_legal(b, m)),
        },
{
    let board = match Board::from_fen(position.fen.as_str()) {
        Ok(b) => b,
        Err(e) => {
            let mut v = chars_of("FEN inválido: ");
            let ev = chars_of(e.as_str());
            push_all(&mut v, &ev);
            return Err(string_from_chars(&v));
        },
    };
    let room: u64 = (MAX_PLY as u64) + 1;
    if !check_legal_position(&board) || board.halfmove_clock as u64 + room > u32::MAX as u64
        || board.fullmove_number as u64 + room > u32::MAX as u64 {
        proof {
            assert(fen_board(position.fen@, board));
            assert(!node_ok(board, 0));
        }
        return Err(string_from_chars(&chars_of("la posición no es de una partida")));
    }
    let r = judge_position(&board, position, depth);
    proof {
        assert(fen_board(position.fen@, board));
    }
    r
}

/// The name of a position in reports: its `id`, or "epd." and its line.
pub fn label(position: &EpdPosition) -> (r: String)
    ensures
        r@ == match position.id {
            Some(s) => s@,
            None => "epd."@ + decimal_text(position.line_number as nat),
        },
{
    match &position.id {
        Some(s) => string_from_chars(&chars_of(s.as_str())),
        None => {
            let mut v = chars_of("epd.");
            let d = u128_chars(position.line_number as u128);
            push_all(&mut v, &d);
            string_from_chars(&v)
        },
    }
}

} // verus!
