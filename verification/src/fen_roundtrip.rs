//! Reading back a written FEN record gives the position that was written.

use vstd::prelude::*;
use crate::board::{Board, CastlingRights};
use crate::fen::{
    castling_field, castling_state, castling_text, decimal_text, decimal_value, digit_value,
    ep_field, ep_text, fen_position, fen_text, is_digit, is_ws, parse_u32_spec, placement,
    placement_state, placement_text, rank_state, rank_text, sep_split, sep_split_state, side_field,
    ws_split_state, ws_tokens, all_digits, empty_mailbox, letter_color,
};
use crate::types::{fen_char, kind_from_char, Color, Piece, Square};

verus! {

// ---------------------------------------------------------------------------
// Whitespace-separated words
// ---------------------------------------------------------------------------

/// No character of `w` is whitespace.
pub open spec fn no_ws(w: Seq<char>) -> bool {
    forall|i: int| 0 <= i < w.len() ==> !is_ws(#[trigger] w[i])
}

/// Words joined by single spaces.
pub open spec fn space_joined(ws: Seq<Seq<char>>) -> Seq<char>
    decreases ws.len(),
{
    if ws.len() <= 1 {
        if ws.len() == 1 {
            ws[0]
        } else {
            Seq::empty()
        }
    } else {
        space_joined(ws.drop_last()) + seq![' '] + ws.last()
    }
}

/// The whitespace split of the first `n` characters depends on nothing else.
proof fn lemma_ws_state_prefix(s: Seq<char>, t: Seq<char>, n: int)
    requires
        0 <= n <= s.len(),
        n <= t.len(),
        s.subrange(0, n) == t.subrange(0, n),
    ensures
        ws_split_state(s, n) == ws_split_state(t, n),
    decreases n,
{
    if n > 0 {
        assert(s.subrange(0, n - 1) =~= s.subrange(0, n).subrange(0, n - 1));
        assert(t.subrange(0, n - 1) =~= t.subrange(0, n).subrange(0, n - 1));
        assert(s[n - 1] == s.subrange(0, n)[n - 1]);
        assert(t[n - 1] == t.subrange(0, n)[n - 1]);
        lemma_ws_state_prefix(s, t, n - 1);
    }
}

/// Reading a word without whitespace extends the pending token.
proof fn lemma_ws_state_word(s: Seq<char>, n: int, k: int)
    requires
        0 <= n,
        0 <= k,
        n + k <= s.len(),
        no_ws(s.subrange(n, n + k)),
    ensures
        ws_split_state(s, n + k) == (ws_split_state(s, n).0, ws_split_state(s, n).1 + s.subrange(n, n + k)),
    decreases k,
{
    if k == 0 {
        assert(ws_split_state(s, n).1 + s.subrange(n, n) =~= ws_split_state(s, n).1);
    } else {
        assert(no_ws(s.subrange(n, n + k - 1))) by {
            assert forall|i: int| 0 <= i < k - 1 implies !is_ws(#[trigger] s.subrange(n, n + k - 1)[i]) by {
                assert(s.subrange(n, n + k - 1)[i] == s.subrange(n, n + k)[i]);
            }
        }
        lemma_ws_state_word(s, n, k - 1);
        assert(!is_ws(s.subrange(n, n + k)[k - 1]));
        assert(s[n + k - 1] == s.subrange(n, n + k)[k - 1]);
        assert(s.subrange(n, n + k) =~= s.subrange(n, n + k - 1).push(s[n + k - 1]));
        assert(ws_split_state(s, n).1 + s.subrange(n, n + k) =~= (ws_split_state(s, n).1 + s.subrange(
            n,
            n + k - 1,
        )).push(s[n + k - 1]));
    }
}

/// Splitting words joined by spaces: all but the last are finished tokens,
/// the last one is pending.
proof fn lemma_space_joined_state(ws: Seq<Seq<char>>)
    requires
        ws.len() >= 1,
        forall|i: int| 0 <= i < ws.len() ==> (#[trigger] ws[i]).len() > 0 && no_ws(ws[i]),
    ensures
        ws_split_state(space_joined(ws), space_joined(ws).len() as int) == (ws.drop_last(), ws.last()),
    decreases ws.len(),
{
    let s = space_joined(ws);
    if ws.len() == 1 {
        assert(s == ws[0]);
        assert(s.subrange(0, s.len() as int) =~= s);
        lemma_ws_state_word(s, 0, s.len() as int);
        assert(Seq::<char>::empty() + s =~= s);
        assert(ws.drop_last() =~= Seq::<Seq<char>>::empty());
    } else {
        let init = ws.drop_last();
        let j = space_joined(init);
        assert(forall|i: int| 0 <= i < init.len() ==> #[trigger] init[i] == ws[i]);
        lemma_space_joined_state(init);
        let n = j.len() as int;
        assert(s == j + seq![' '] + ws.last());
        assert(s.subrange(0, n) =~= j.subrange(0, n));
        lemma_ws_state_prefix(s, j, n);
        assert(j.subrange(0, n) =~= j);
        assert(s[n] == ' ');
        assert(is_ws(' '));
        assert(init.last().len() > 0) by {
            assert(init.last() == ws[ws.len() - 2]);
        }
        assert(ws_split_state(s, n + 1) == (init.drop_last().push(init.last()), Seq::<char>::empty()));
        assert(init.drop_last().push(init.last()) =~= init);
        let w = ws.last();
        assert(s.subrange(n + 1, n + 1 + w.len()) =~= w);
        assert(no_ws(w)) by {
            assert(w == ws[ws.len() - 1]);
        }
        lemma_ws_state_word(s, n + 1, w.len() as int);
        assert(Seq::<char>::empty() + w =~= w);
    }
}

/// Words without whitespace, joined by spaces, split back into the same words.
pub proof fn lemma_space_joined_tokens(ws: Seq<Seq<char>>)
    requires
        ws.len() >= 1,
        forall|i: int| 0 <= i < ws.len() ==> (#[trigger] ws[i]).len() > 0 && no_ws(ws[i]),
    ensures
        ws_tokens(space_joined(ws)) == ws,
{
    lemma_space_joined_state(ws);
    assert(ws.last() == ws[ws.len() - 1]);
    assert(ws.drop_last().push(ws.last()) =~= ws);
}


// ---------------------------------------------------------------------------
// Ranks separated by '/'
// ---------------------------------------------------------------------------

/// The '/'-split of the first `n` characters depends on nothing else.
proof fn lemma_sep_state_prefix(s: Seq<char>, t: Seq<char>, n: int)
    requires
        0 <= n <= s.len(),
        n <= t.len(),
        s.subrange(0, n) == t.subrange(0, n),
    ensures
        sep_split_state(s, '/', n) == sep_split_state(t, '/', n),
    decreases n,
{
    if n > 0 {
        assert(s.subrange(0, n - 1) =~= s.subrange(0, n).subrange(0, n - 1));
        assert(t.subrange(0, n - 1) =~= t.subrange(0, n).subrange(0, n - 1));
        assert(s[n - 1] == s.subrange(0, n)[n - 1]);
        assert(t[n - 1] == t.subrange(0, n)[n - 1]);
        lemma_sep_state_prefix(s, t, n - 1);
    }
}

/// No character of `w` is '/'.
pub open spec fn no_slash(w: Seq<char>) -> bool {
    forall|i: int| 0 <= i < w.len() ==> #[trigger] w[i] != '/'
}

/// Reading a piece without '/' extends the pending piece.
proof fn lemma_sep_state_word(s: Seq<char>, n: int, k: int)
    requires
        0 <= n,
        0 <= k,
        n + k <= s.len(),
        no_slash(s.subrange(n, n + k)),
    ensures
        sep_split_state(s, '/', n + k) == (
            sep_split_state(s, '/', n).0,
            sep_split_state(s, '/', n).1 + s.subrange(n, n + k),
        ),
    decreases k,
{
    if k == 0 {
        assert(sep_split_state(s, '/', n).1 + s.subrange(n, n) =~= sep_split_state(s, '/', n).1);
    } else {
        assert(no_slash(s.subrange(n, n + k - 1))) by {
            assert forall|i: int| 0 <= i < k - 1 implies #[trigger] s.subrange(n, n + k - 1)[i] != '/' by {
                assert(s.subrange(n, n + k - 1)[i] == s.subrange(n, n + k)[i]);
            }
        }
        lemma_sep_state_word(s, n, k - 1);
        assert(s.subrange(n, n + k)[k - 1] != '/');
        assert(s[n + k - 1] == s.subrange(n, n + k)[k - 1]);
        assert(s.subrange(n, n + k) =~= s.subrange(n, n + k - 1).push(s[n + k - 1]));
        assert(sep_split_state(s, '/', n).1 + s.subrange(n, n + k) =~= (sep_split_state(s, '/', n).1
            + s.subrange(n, n + k - 1)).push(s[n + k - 1]));
    }
}

/// One piece letter: what reading it gives back.
proof fn lemma_fen_char(p: Piece)
    ensures
        !is_digit(fen_char(p)),
        kind_from_char(fen_char(p)) == Some(p.kind),
        letter_color(fen_char(p)) == p.color,
        fen_char(p) != '/',
        !is_ws(fen_char(p)),
{
}

/// The one-digit count of a run of one to eight empty squares.
proof fn lemma_run_digit(run: int)
    requires
        1 <= run <= 8,
    ensures
        decimal_text(run as nat) == seq![(('0' as int) + run) as char],
        is_digit((('0' as int) + run) as char),
        digit_value((('0' as int) + run) as char) == run,
        (('0' as int) + run) as char != '/',
        !is_ws((('0' as int) + run) as char),
{
}

/// The text of a rank holds digits and piece letters only.
proof fn lemma_rank_text_chars(mb: Seq<Option<Piece>>, rank: int, file: int, run: int)
    requires
        0 <= rank < 8,
        0 <= run <= file <= 8,
        mb.len() == 64,
    ensures
        no_slash(rank_text(mb, rank, file, run)),
        no_ws(rank_text(mb, rank, file, run)),
    decreases 8 - file,
{
    let t = rank_text(mb, rank, file, run);
    if file >= 8 {
        if run > 0 {
            lemma_run_digit(run);
        }
    } else {
        match mb[rank * 8 + file] {
            None => {
                lemma_rank_text_chars(mb, rank, file + 1, run + 1);
            },
            Some(p) => {
                lemma_rank_text_chars(mb, rank, file + 1, 0);
                lemma_fen_char(p);
                let d = if run > 0 {
                    decimal_text(run as nat)
                } else {
                    Seq::empty()
                };
                if run > 0 {
                    lemma_run_digit(run);
                }
                let rest = rank_text(mb, rank, file + 1, 0);
                assert(t == d + seq![fen_char(p)] + rest);
                assert forall|i: int| 0 <= i < t.len() implies #[trigger] t[i] != '/' && !is_ws(t[i]) by {
                    if i < d.len() {
                        assert(t[i] == d[i]);
                    } else if i == d.len() {
                        assert(t[i] == fen_char(p));
                    } else {
                        assert(t[i] == rest[i - d.len() - 1]);
                    }
                }
            },
        }
    }
}

/// The ranks `rank` down to 1 of a placement text, as the '/'-split sees them.
pub open spec fn rank_texts(mb: Seq<Option<Piece>>, rank: int) -> Seq<Seq<char>> {
    Seq::new(rank as nat, |i: int| rank_text(mb, rank - i, 0, 0))
}

/// Splitting a placement text at '/', after a prefix that ends a piece.
proof fn lemma_sep_placement(x: Seq<char>, mb: Seq<Option<Piece>>, rank: int)
    requires
        0 <= rank < 8,
        mb.len() == 64,
        sep_split_state(x, '/', x.len() as int).1 == Seq::<char>::empty(),
    ensures
        sep_split_state(x + placement_text(mb, rank), '/', (x + placement_text(mb, rank)).len() as int)
            == (sep_split_state(x, '/', x.len() as int).0 + rank_texts(mb, rank), rank_text(mb, 0, 0, 0)),
    decreases rank,
{
    let toks = sep_split_state(x, '/', x.len() as int).0;
    let r = rank_text(mb, rank, 0, 0);
    let s = x + placement_text(mb, rank);
    let n = x.len() as int;
    lemma_rank_text_chars(mb, rank, 0, 0);
    assert(s.subrange(0, n) =~= x.subrange(0, n));
    assert(x.subrange(0, n) =~= x);
    lemma_sep_state_prefix(s, x, n);
    if rank == 0 {
        assert(placement_text(mb, -1) =~= Seq::<char>::empty());
        assert(placement_text(mb, 0) =~= r);
        assert(s.subrange(n, n + r.len()) =~= r);
        lemma_sep_state_word(s, n, r.len() as int);
        assert(Seq::<char>::empty() + r =~= r);
        assert(rank_texts(mb, 0) =~= Seq::<Seq<char>>::empty());
        assert(toks + rank_texts(mb, 0) =~= toks);
    } else {
        let x2 = x + r + seq!['/'];
        assert(placement_text(mb, rank) == r + seq!['/'] + placement_text(mb, rank - 1));
        assert(s =~= x2 + placement_text(mb, rank - 1));
        assert(s.subrange(n, n + r.len()) =~= r);
        lemma_sep_state_word(s, n, r.len() as int);
        assert(Seq::<char>::empty() + r =~= r);
        assert(s[n + r.len()] == '/');
        let n2 = x2.len() as int;
        assert(n2 == n + r.len() + 1);
        assert(sep_split_state(s, '/', n2) == (toks.push(r), Seq::<char>::empty()));
        assert(s.subrange(0, n2) =~= x2.subrange(0, n2));
        lemma_sep_state_prefix(s, x2, n2);
        assert(x2.subrange(0, n2) =~= x2);
        lemma_sep_placement(x2, mb, rank - 1);
        assert(toks.push(r) + rank_texts(mb, rank - 1) =~= toks + rank_texts(mb, rank));
    }
}

/// The '/'-split of a placement text: the eight ranks, from the eighth down.
proof fn lemma_placement_split(mb: Seq<Option<Piece>>)
    requires
        mb.len() == 64,
    ensures
        sep_split(placement_text(mb, 7), '/').len() == 8,
        forall|i: int| 0 <= i < 8 ==> #[trigger] sep_split(placement_text(mb, 7), '/')[i] == rank_text(mb, 7 - i, 0, 0),
{
    let x = Seq::<char>::empty();
    assert(sep_split_state(x, '/', 0) == (Seq::<Seq<char>>::empty(), Seq::<char>::empty()));
    lemma_sep_placement(x, mb, 7);
    assert(x + placement_text(mb, 7) =~= placement_text(mb, 7));
    let sp = sep_split(placement_text(mb, 7), '/');
    assert(sp =~= (Seq::<Seq<char>>::empty() + rank_texts(mb, 7)).push(rank_text(mb, 0, 0, 0)));
    assert forall|i: int| 0 <= i < 8 implies #[trigger] sp[i] == rank_text(mb, 7 - i, 0, 0) by {
        if i < 7 {
            assert(sp[i] == rank_texts(mb, 7)[i]);
        }
    }
}


// ---------------------------------------------------------------------------
// Reading the ranks back
// ---------------------------------------------------------------------------

/// `m` with files below `k` of `rank` taken from `mb`.
pub open spec fn row_fill(m: Seq<Option<Piece>>, mb: Seq<Option<Piece>>, rank: int, k: int) -> Seq<
    Option<Piece>,
> {
    Seq::new(64, |i: int| if i / 8 == rank && i % 8 < k { mb[i] } else { m[i] })
}

/// Reading the rest of a rank text, from file `file` with `run` empty
/// squares not yet written, completes the rank.
proof fn lemma_rank_read(
    s: Seq<char>,
    n: int,
    mb: Seq<Option<Piece>>,
    rank: int,
    file: int,
    run: int,
    m: Seq<Option<Piece>>,
)
    requires
        0 <= rank < 8,
        m.len() == 64,
        mb.len() == 64,
        0 <= run <= file <= 8,
        forall|f: int| 0 <= f < 8 ==> (#[trigger] m[rank * 8 + f]) is None,
        forall|f: int| file - run <= f < file ==> (#[trigger] mb[rank * 8 + f]) is None,
        0 <= n <= s.len(),
        s.subrange(n, s.len() as int) == rank_text(mb, rank, file, run),
        rank_state(s, n, rank, m) == Some((row_fill(m, mb, rank, file), file - run)),
    ensures
        rank_state(s, s.len() as int, rank, m) == Some((row_fill(m, mb, rank, 8), 8int)),
    decreases 8 - file,
{
    let m1 = row_fill(m, mb, rank, file);
    let t = s.subrange(n, s.len() as int);
    if file >= 8 {
        if run > 0 {
            lemma_run_digit(run);
            assert(t.len() == 1);
            assert(s[n] == t[0]);
            assert(s.len() == n + 1);
        } else {
            assert(t.len() == 0);
        }
    } else {
        match mb[rank * 8 + file] {
            None => {
                assert(row_fill(m, mb, rank, file + 1) =~= m1) by {
                    assert forall|i: int| 0 <= i < 64 implies #[trigger] row_fill(m, mb, rank, file + 1)[i]
                        == m1[i] by {
                        if i / 8 == rank && i % 8 == file {
                            assert(i == rank * 8 + file);
                        }
                    }
                }
                lemma_rank_read(s, n, mb, rank, file + 1, run + 1, m);
            },
            Some(p) => {
                lemma_fen_char(p);
                let d: int = if run > 0 { 1 } else { 0 };
                let rest = rank_text(mb, rank, file + 1, 0);
                if run > 0 {
                    lemma_run_digit(run);
                    assert(t == decimal_text(run as nat) + seq![fen_char(p)] + rest);
                    assert(t.len() == 2 + rest.len());
                    assert(t[0] == (('0' as int) + run) as char);
                    assert(s[n] == t[0]);
                    assert(rank_state(s, n + 1, rank, m) == Some((m1, file)));
                } else {
                    assert(t == Seq::<char>::empty() + seq![fen_char(p)] + rest);
                    assert(t.len() == 1 + rest.len());
                }
                assert(rank_state(s, n + d, rank, m) == Some((m1, file)));
                assert(s[n + d] == t[d]);
                assert(t[d] == fen_char(p));
                let m2 = m1.update(rank * 8 + file, Some(Piece { color: p.color, kind: p.kind }));
                assert(rank_state(s, n + d + 1, rank, m) == Some((m2, file + 1)));
                assert(m2 =~= row_fill(m, mb, rank, file + 1)) by {
                    assert forall|i: int| 0 <= i < 64 implies #[trigger] m2[i] == row_fill(m, mb, rank, file + 1)[i] by {
                        if i == rank * 8 + file {
                            assert(i / 8 == rank && i % 8 == file);
                        } else if i / 8 == rank && i % 8 == file {
                            assert(i == rank * 8 + file);
                        }
                    }
                }
                assert(s.subrange(n + d + 1, s.len() as int) =~= rest) by {
                    assert(t.subrange(d + 1, t.len() as int) =~= rest);
                }
                lemma_rank_read(s, n + d + 1, mb, rank, file + 1, 0, m);
            },
        }
    }
}

/// The squares of the top `i` ranks of `mb`, the others empty.
pub open spec fn top_ranks(mb: Seq<Option<Piece>>, i: int) -> Seq<Option<Piece>> {
    Seq::new(64, |s: int| if s / 8 >= 8 - i { mb[s] } else { None })
}

/// Reading the texts of the top `i` ranks fills exactly those ranks.
proof fn lemma_placement_read(ranks: Seq<Seq<char>>, mb: Seq<Option<Piece>>, i: int)
    requires
        ranks.len() == 8,
        mb.len() == 64,
        0 <= i <= 8,
        forall|j: int| 0 <= j < 8 ==> #[trigger] ranks[j] == rank_text(mb, 7 - j, 0, 0),
    ensures
        placement_state(ranks, i) == Some(top_ranks(mb, i)),
    decreases i,
{
    if i == 0 {
        assert(top_ranks(mb, 0) =~= empty_mailbox());
    } else {
        lemma_placement_read(ranks, mb, i - 1);
        let m = top_ranks(mb, i - 1);
        let rank = 8 - i;
        let s = ranks[i - 1];
        assert(s == rank_text(mb, rank, 0, 0));
        assert forall|f: int| 0 <= f < 8 implies (#[trigger] m[rank * 8 + f]) is None by {
            assert((rank * 8 + f) / 8 == rank);
        }
        assert(s.subrange(0, s.len() as int) =~= s);
        assert(row_fill(m, mb, rank, 0) =~= m);
        lemma_rank_read(s, 0, mb, rank, 0, 0, m);
        assert(row_fill(m, mb, rank, 8) =~= top_ranks(mb, i));
    }
}

/// A written placement field reads back as the mailbox it was written from.
pub proof fn lemma_placement_roundtrip(mb: Seq<Option<Piece>>)
    requires
        mb.len() == 64,
    ensures
        placement(placement_text(mb, 7)) == Some(mb),
{
    lemma_placement_split(mb);
    let ranks = sep_split(placement_text(mb, 7), '/');
    lemma_placement_read(ranks, mb, 8);
    assert(top_ranks(mb, 8) =~= mb);
}


// ---------------------------------------------------------------------------
// The other fields
// ---------------------------------------------------------------------------

/// Decimal text is a non-empty digit string with the number's value.
proof fn lemma_decimal_text(n: nat)
    ensures
        decimal_text(n).len() >= 1,
        all_digits(decimal_text(n)),
        decimal_value(decimal_text(n)) == n,
        no_ws(decimal_text(n)),
    decreases n,
{
    let t = decimal_text(n);
    if n < 10 {
        assert(t.drop_last() =~= Seq::<char>::empty());
        assert(digit_value(t.last()) == n);
        assert(decimal_value(t.drop_last()) == 0);
        assert(decimal_value(t) == n);
    } else {
        lemma_decimal_text(n / 10);
        let c = (('0' as int) + n % 10) as char;
        assert(t == decimal_text(n / 10).push(c));
        assert(t.drop_last() =~= decimal_text(n / 10));
        assert(forall|i: int| 0 <= i < t.len() - 1 ==> #[trigger] t[i] == decimal_text(n / 10)[i]);
        assert(t[t.len() - 1] == c);
        assert(digit_value(c) == n % 10);
        assert(decimal_value(t) == decimal_value(decimal_text(n / 10)) * 10 + digit_value(c));
        assert((n / 10) * 10 + n % 10 == n) by (nonlinear_arith);
    }
}

/// A written number reads back as itself.
pub proof fn lemma_number_roundtrip(n: u32)
    ensures
        parse_u32_spec(decimal_text(n as nat)) == Some(n),
{
    lemma_decimal_text(n as nat);
    let t = decimal_text(n as nat);
    assert(is_digit(t[0]));
}

/// A written castling field reads back as the rights it was written from.
pub proof fn lemma_castling_roundtrip(c: CastlingRights)
    ensures
        castling_field(castling_text(c)) == Some(c),
        castling_text(c).len() >= 1,
        no_ws(castling_text(c)),
{
    reveal_with_fuel(castling_state, 5);
}

/// A written en passant field reads back as the square it was written from.
pub proof fn lemma_ep_roundtrip(e: Option<Square>)
    requires
        e matches Some(x) ==> x < 64,
    ensures
        ep_field(ep_text(e)) == e,
        ep_text(e).len() >= 1,
        no_ws(ep_text(e)),
{
}


/// A placement text holds no whitespace.
proof fn lemma_placement_text_no_ws(mb: Seq<Option<Piece>>, rank: int)
    requires
        mb.len() == 64,
        rank < 8,
    ensures
        no_ws(placement_text(mb, rank)),
    decreases rank + 1,
{
    if rank >= 0 {
        lemma_rank_text_chars(mb, rank, 0, 0);
        lemma_placement_text_no_ws(mb, rank - 1);
        let r = rank_text(mb, rank, 0, 0);
        let sl = if rank > 0 { seq!['/'] } else { Seq::<char>::empty() };
        let rest = placement_text(mb, rank - 1);
        let t = placement_text(mb, rank);
        assert(t == r + sl + rest);
        assert forall|i: int| 0 <= i < t.len() implies !is_ws(#[trigger] t[i]) by {
            if i < r.len() {
                assert(t[i] == r[i]);
            } else if i < r.len() + sl.len() {
                assert(t[i] == '/');
            } else {
                assert(t[i] == rest[i - r.len() - sl.len()]);
            }
        }
    }
}

// ---------------------------------------------------------------------------
// The whole record
// ---------------------------------------------------------------------------

/// Reading back the FEN record written for a board gives the board's piece
/// placement, side to move, castling rights, en passant square and both
/// clocks: `Board::from_fen(&b.to_fen())` rebuilds `b`.
pub proof fn lemma_fen_roundtrip(b: Board)
    requires
        b.wf(),
    ensures
        fen_position(fen_text(b)) == Some(
            (b.mailbox@, b.side_to_move, b.castling, b.en_passant, b.halfmove_clock, b.fullmove_number),
        ),
{
    let mb = b.mailbox@;
    let p = placement_text(mb, 7);
    let sd = if b.side_to_move == Color::White { seq!['w'] } else { seq!['b'] };
    let c = castling_text(b.castling);
    let e = ep_text(b.en_passant);
    let h = decimal_text(b.halfmove_clock as nat);
    let f = decimal_text(b.fullmove_number as nat);
    let words = seq![p, sd, c, e, h, f];
    assert(fen_text(b) =~= space_joined(words)) by {
        reveal_with_fuel(space_joined, 7);
        assert(words.drop_last() =~= seq![p, sd, c, e, h]);
        assert(words.drop_last().drop_last() =~= seq![p, sd, c, e]);
        assert(words.drop_last().drop_last().drop_last() =~= seq![p, sd, c]);
        assert(words.drop_last().drop_last().drop_last().drop_last() =~= seq![p, sd]);
        assert(seq![p, sd].drop_last() =~= seq![p]);
    }
    lemma_placement_text_no_ws(mb, 7);
    assert(p.len() >= 1) by {
        assert(p == rank_text(mb, 7, 0, 0) + seq!['/'] + placement_text(mb, 6));
    }
    lemma_castling_roundtrip(b.castling);
    lemma_ep_roundtrip(b.en_passant);
    lemma_decimal_text(b.halfmove_clock as nat);
    lemma_decimal_text(b.fullmove_number as nat);
    assert(no_ws(sd));
    assert forall|i: int| 0 <= i < words.len() implies (#[trigger] words[i]).len() > 0 && no_ws(words[i]) by {
        if i == 0 {
            assert(words[i] == p);
        } else if i == 1 {
            assert(words[i] == sd);
        } else if i == 2 {
            assert(words[i] == c);
        } else if i == 3 {
            assert(words[i] == e);
        } else if i == 4 {
            assert(words[i] == h);
        } else {
            assert(words[i] == f);
        }
    }
    lemma_space_joined_tokens(words);
    lemma_placement_roundtrip(mb);
    lemma_number_roundtrip(b.halfmove_clock);
    lemma_number_roundtrip(b.fullmove_number);
    let t = ws_tokens(fen_text(b));
    assert(t == words);
    assert(t.len() == 6);
    assert(t[0] == p && t[1] == sd && t[2] == c && t[3] == e && t[4] == h && t[5] == f);
    assert(placement(t[0]) == Some(mb));
    if b.side_to_move == Color::Black {
        assert(sd[0] != seq!['w'][0]);
        assert(sd != seq!['w']);
    }
    assert(side_field(t[1]) == Some(b.side_to_move));
    assert(castling_field(t[2]) == Some(b.castling));
    assert(ep_field(t[3]) == b.en_passant);
}

/// A record in the form `to_fen` writes is written back unchanged after
/// being read: if `b2` is the board `Board::from_fen` reads from the record
/// written for `b`, then `b2.to_fen()` is that same record.
pub proof fn lemma_canonical_fen_rewritten(b: Board, b2: Board)
    requires
        b.wf(),
        fen_position(fen_text(b)) == Some(
            (b2.mailbox@, b2.side_to_move, b2.castling, b2.en_passant, b2.halfmove_clock, b2.fullmove_number),
        ),
    ensures
        fen_text(b2) == fen_text(b),
{
    lemma_fen_roundtrip(b);
    assert(b2.mailbox@ == b.mailbox@);
}

} // verus!
