//! Static exchange evaluation: the material balance of the whole sequence
//! of captures on a square, each side recapturing with its least valuable
//! attacker and free to stop when going on would cost it.

use vstd::prelude::*;
use crate::bitboard::{
    bishop_attacks_of, clear_bit, has_bit, king_attacks_of, knight_attacks_of, lemma_bishop_symmetric,
    lemma_rook_symmetric, lemma_squares_ops, lemma_step_symmetric, lsb, pawn_attacks_of, rook_attacks_of,
    squares, Bitboard, EMPTY,
};
use crate::board::{piece_attacks, piece_of, Board};
use crate::moves::{kind_is_capture, kind_promotion, Move, MoveKind};
use crate::types::{kind_of_index, Color, Piece, PieceType, Square};

verus! {

/// Piece values for exchanges; the king is worth more than anything, so it
/// is the last to recapture.
pub open spec fn see_value(k: PieceType) -> i32 {
    match k {
        PieceType::Pawn => 100,
        PieceType::Knight => 320,
        PieceType::Bishop => 330,
        PieceType::Rook => 500,
        PieceType::Queen => 900,
        PieceType::King => 20000,
    }
}

pub fn see_piece_value(pt: PieceType) -> (v: i32)
    ensures
        v == see_value(pt),
{
    match pt {
        PieceType::Pawn => 100,
        PieceType::Knight => 320,
        PieceType::Bishop => 330,
        PieceType::Rook => 500,
        PieceType::Queen => 900,
        PieceType::King => 20_000,
    }
}

/// The piece on `s`, still on the board `occ`, attacks `to` (sliding
/// pieces through the squares of `occ`).
pub open spec fn attacks_through(b: Board, s: int, occ: u64, to: int) -> bool {
    &&& has_bit(occ, s)
    &&& b.mailbox[s] is Some
    &&& piece_attacks(b.mailbox[s]->0, s, occ, to)
}

/// `x` holds exactly the pieces on `occ` attacking `to` through `occ`.
pub open spec fn is_attackers(b: Board, to: int, occ: u64, x: u64) -> bool {
    forall|s: int| #[trigger] has_bit(x, s) <==> (0 <= s < 64 && attacks_through(b, s, occ, to))
}

/// The pieces on `occ` attacking `to` through `occ`.
pub open spec fn attackers_bb(b: Board, to: int, occ: u64) -> u64 {
    choose|x: u64| is_attackers(b, to, occ, x)
}

/// The least valuable attacker among `att` from kind index `k` on: the
/// first kind with an attacker of colour index `c`, on its lowest square.
pub open spec fn lva_from(b: Board, att: u64, c: int, k: int) -> Option<(int, PieceType)>
    decreases 6 - k,
{
    if k >= 6 || k < 0 {
        None
    } else if att & b.pieces[c][k] != 0 {
        Some((vstd::std_specs::bits::u64_trailing_zeros(att & b.pieces[c][k]) as int, kind_of_index(k)))
    } else {
        lva_from(b, att, c, k + 1)
    }
}

/// The least valuable attacker of `side` among `att`: the first kind, in
/// the order pawn, knight, bishop, rook, queen, king, with an attacker, on
/// the lowest square it has one.
pub open spec fn lva(b: Board, att: u64, side: Color) -> Option<(int, PieceType)> {
    lva_from(b, att, side.spec_index() as int, 0)
}

/// Value of a piece standing on `to` after it captured there: a pawn
/// reaching the last rank counts as a queen.
pub open spec fn standing_value(pt: PieceType, to: int) -> i32 {
    if pt == PieceType::Pawn && (to / 8 == 0 || to / 8 == 7) {
        see_value(PieceType::Queen)
    } else {
        see_value(pt)
    }
}

pub open spec fn max0(x: int) -> int {
    if x > 0 {
        x
    } else {
        0
    }
}

/// Number of captures the exchange considers at most.
pub const MAX_STEPS: usize = 32;

/// The exchange from step `n` on, with `side` to capture a piece worth
/// `standing` on `to`: `None` when `side` has no attacker left (or the step
/// limit is reached), else what capturing gains, the piece taken minus what
/// the other side then gains if it goes on.
pub open spec fn exchange(b: Board, to: int, occ: u64, side: Color, standing: int, n: nat) -> Option<int>
    decreases 32 - n,
{
    if n >= 32 {
        None
    } else {
        match lva(b, attackers_bb(b, to, occ), side) {
            None => None,
            Some((sq, pt)) => match exchange(
                b,
                to,
                occ & !(1u64 << (sq as u64)),
                side.spec_opposite(),
                standing_value(pt, to) as int,
                n + 1,
            ) {
                Some(r) => Some(standing - max0(r)),
                None => Some(standing),
            },
        }
    }
}

/// Square of the pawn taken en passant by a move landing on `to`.
pub open spec fn see_ep_victim(us: Color, to: int) -> int {
    if us == Color::White {
        to - 8
    } else {
        to + 8
    }
}

/// The exchange started by the capture `m`: what it takes, minus what the
/// opponent gains by going on (if it does).
pub open spec fn see_spec(b: Board, m: Move) -> int {
    if !kind_is_capture(m.kind) {
        0
    } else {
        let us = b.side_to_move;
        let to = m.to as int;
        let occ0 = crate::board::occ_bb(b);
        let occ1 = if m.kind is EnPassantCapture {
            occ0 & !(1u64 << (see_ep_victim(us, to) as u64))
        } else {
            occ0
        };
        let gain0 = if m.kind is EnPassantCapture {
            see_value(PieceType::Pawn)
        } else {
            match b.mailbox[to] {
                Some(p) => see_value(p.kind),
                None => see_value(PieceType::Pawn),
            }
        };
        let standing0 = match kind_promotion(m.kind) {
            Some(p) => see_value(p),
            None => match b.mailbox[m.from as int] {
                Some(p) => see_value(p.kind),
                None => see_value(PieceType::Pawn),
            },
        };
        let occ2 = occ1 & !(1u64 << (m.from as u64));
        match exchange(b, to, occ2, us.spec_opposite(), standing0 as int, 1) {
            Some(r) => gain0 - max0(r),
            None => gain0 as int,
        }
    }
}

/// All pieces of both colours on `occ` that attack `sq` through `occ`.
pub fn attackers_to(board: &Board, sq: Square, occ: Bitboard) -> (r: Bitboard)
    requires
        board.wf(),
        sq < 64,
    ensures
        is_attackers(*board, sq as int, occ, r),
        r == attackers_bb(*board, sq as int, occ),
{
    let wi = 0usize;
    let bi = 1usize;
    let mut attackers: u64 = EMPTY;
    let bpa = pawn_attacks_of(Color::Black, sq);
    let wpa = pawn_attacks_of(Color::White, sq);
    let wp = bpa & board.pieces[wi][0];
    let bp = wpa & board.pieces[bi][0];
    let knights = board.pieces[wi][1] | board.pieces[bi][1];
    let kna = knight_attacks_of(sq);
    let kn = kna & knights;
    let kings = board.pieces[wi][5] | board.pieces[bi][5];
    let kga = king_attacks_of(sq);
    let kg = kga & kings;
    let bq = board.pieces[wi][2] | board.pieces[bi][2] | board.pieces[wi][4] | board.pieces[bi][4];
    let bsa = bishop_attacks_of(sq, occ);
    let bs = bsa & bq;
    let rq = board.pieces[wi][3] | board.pieces[bi][3] | board.pieces[wi][4] | board.pieces[bi][4];
    let rsa = rook_attacks_of(sq, occ);
    let rs = rsa & rq;
    attackers = wp | bp | kn | kg | bs | rs;
    let r = attackers & occ;
    proof {
        let t = sq as int;
        let pw = board.pieces[wi as int];
        let pb = board.pieces[bi as int];
        lemma_squares_ops(attackers, occ);
        lemma_squares_ops(wp | bp | kn | kg | bs, rs);
        lemma_squares_ops(wp | bp | kn | kg, bs);
        lemma_squares_ops(wp | bp | kn, kg);
        lemma_squares_ops(wp | bp, kn);
        lemma_squares_ops(wp, bp);
        lemma_squares_ops(bpa, pw[0]);
        lemma_squares_ops(wpa, pb[0]);
        lemma_squares_ops(kna, knights);
        lemma_squares_ops(pw[1], pb[1]);
        lemma_squares_ops(kga, kings);
        lemma_squares_ops(pw[5], pb[5]);
        lemma_squares_ops(bsa, bq);
        lemma_squares_ops(pw[2] | pb[2] | pw[4], pb[4]);
        lemma_squares_ops(pw[2] | pb[2], pw[4]);
        lemma_squares_ops(pw[2], pb[2]);
        lemma_squares_ops(rsa, rq);
        lemma_squares_ops(pw[3] | pb[3] | pw[4], pb[4]);
        lemma_squares_ops(pw[3] | pb[3], pw[4]);
        lemma_squares_ops(pw[3], pb[3]);
        assert forall|s: int| #[trigger] has_bit(r, s) <==> (0 <= s < 64 && attacks_through(*board, s, occ, t)) by {
            assert(has_bit(r, s) == squares(r).contains(s));
            if 0 <= s < 64 {
                lemma_step_symmetric(s, t);
                lemma_rook_symmetric(s, t, occ);
                lemma_bishop_symmetric(s, t, occ);
                assert(has_bit(occ, s) == squares(occ).contains(s));
                assert(forall|k: int| 0 <= k < 6 ==> (squares(#[trigger] pw[k]).contains(s) <==> board.mailbox[s] == Some(
                    piece_of(0, k),
                )));
                assert(forall|k: int| 0 <= k < 6 ==> (squares(#[trigger] pb[k]).contains(s) <==> board.mailbox[s] == Some(
                    piece_of(1, k),
                )));
                if board.mailbox[s] is Some {
                    let p = board.mailbox[s]->0;
                    let c = p.color.spec_index() as int;
                    let k = p.kind.spec_index() as int;
                    assert(board.mailbox[s] == Some(piece_of(c, k)));
                }
            }
        }
        lemma_attackers_unique(*board, sq as int, occ, r);
    }
    r
}

/// The attackers bitboard is unique.
pub proof fn lemma_attackers_unique(b: Board, to: int, occ: u64, x: u64)
    requires
        is_attackers(b, to, occ, x),
    ensures
        attackers_bb(b, to, occ) == x,
{
    let y = attackers_bb(b, to, occ);
    assert(is_attackers(b, to, occ, y));
    assert forall|s: int| squares(x).contains(s) == squares(y).contains(s) by {
        assert(has_bit(x, s) == has_bit(y, s));
    }
    assert(squares(x) =~= squares(y));
    crate::bitboard::lemma_squares_ext(x, y);
}

/// The least valuable attacker of `side` among `attackers`.
pub fn least_valuable_attacker(board: &Board, attackers: Bitboard, side: Color) -> (r: Option<(Square, PieceType)>)
    ensures
        match r {
            Some((sq, pt)) => lva(*board, attackers, side) == Some((sq as int, pt)) && sq < 64,
            None => lva(*board, attackers, side) is None,
        },
{
    let c = side.index();
    let kinds: [PieceType; 6] = [
        PieceType::Pawn,
        PieceType::Knight,
        PieceType::Bishop,
        PieceType::Rook,
        PieceType::Queen,
        PieceType::King,
    ];
    let mut k: usize = 0;
    while k < 6
        invariant
            k <= 6,
            c == side.spec_index(),
            forall|j: int| 0 <= j < 6 ==> #[trigger] kinds[j] == kind_of_index(j),
            lva(*board, attackers, side) == lva_from(*board, attackers, c as int, k as int),
        decreases 6 - k,
    {
        let candidates = attackers & board.pieces[c][k];
        if candidates != EMPTY {
            let sq = lsb(candidates);
            return Some((sq, kinds[k]));
        }
        k += 1;
    }
    None
}

/// One recorded step of the exchange: `side` captures on `to` with its
/// least valuable attacker, which then stands there.
pub open spec fn step_ok(b: Board, to: int, occ: u64, side: Color, occ2: u64, side2: Color, standing2: int) -> bool {
    match lva(b, attackers_bb(b, to, occ), side) {
        Some((sq, pt)) => occ2 == occ & !(1u64 << (sq as u64)) && side2 == side.spec_opposite() && standing2
            == standing_value(pt, to) as int,
        None => false,
    }
}

/// Net material won by the capture `mv` once the exchange on its target
/// square is played out (0 for a move that captures nothing).
pub fn see(board: &Board, mv: &Move) -> (v: i32)
    requires
        board.wf(),
        mv.from < 64,
        mv.to < 64,
        mv.kind is EnPassantCapture ==> 0 <= see_ep_victim(board.side_to_move, mv.to as int) < 64,
    ensures
        v == see_spec(*board, *mv),
        -20000 <= v <= 20000,
{
    if !mv.is_capture() {
        return 0;
    }
    let to = mv.to;
    let mut occ = board.occupancy();
    let gain0 = if mv.kind == MoveKind::EnPassantCapture {
        let captured_sq = if board.side_to_move == Color::White { mv.to - 8 } else { mv.to + 8 };
        occ = clear_bit(occ, captured_sq);
        see_piece_value(PieceType::Pawn)
    } else {
        match board.mailbox[to as usize] {
            Some(p) => see_piece_value(p.kind),
            None => see_piece_value(PieceType::Pawn),
        }
    };
    let mut gains: Vec<i32> = Vec::new();
    gains.push(gain0);
    let mut standing: i32 = match mv.promotion() {
        Some(promo) => see_piece_value(promo),
        None => match board.mailbox[mv.from as usize] {
            Some(p) => see_piece_value(p.kind),
            None => see_piece_value(PieceType::Pawn),
        },
    };
    occ = clear_bit(occ, mv.from);
    let mut side = board.side_to_move.opposite();
    let mut n: usize = 1;
    let to_rank = to / 8;
    let ghost b = *board;
    let ghost t = to as int;
    let ghost mut occs: Seq<u64> = seq![0u64, occ];
    let ghost mut sides: Seq<Color> = seq![side, side];
    let ghost mut stands: Seq<int> = seq![0int, standing as int];
    let ghost o1 = occ;
    let ghost s1 = side;
    let ghost st1 = standing as int;
    proof {
        let us = b.side_to_move;
        let occ0 = crate::board::occ_bb(b);
        let occ_a = if mv.kind is EnPassantCapture {
            occ0 & !(1u64 << (see_ep_victim(us, t) as u64))
        } else {
            occ0
        };
        assert(o1 == occ_a & !(1u64 << (mv.from as u64)));
        assert(s1 == us.spec_opposite());
    }
    let mut stopped = false;
    while n < MAX_STEPS && !stopped
        invariant
            occs[1] == o1,
            sides[1] == s1,
            stands[1] == st1,
            gains@[0] == gain0,
            b == *board,
            board.wf(),
            t == to as int,
            to < 64,
            to_rank == to / 8,
            1 <= n <= 32,
            gains@.len() == n,
            occs.len() == n + 1,
            sides.len() == n + 1,
            stands.len() == n + 1,
            occs[n as int] == occ,
            sides[n as int] == side,
            stands[n as int] == standing as int,
            0 <= standing <= 20000,
            -20000 <= gains@[0] <= 20000,
            forall|k: int| 1 <= k < n ==> #[trigger] step_ok(b, t, occs[k], sides[k], occs[k + 1], sides[k + 1], stands[k + 1]),
            forall|k: int| 1 <= k < n ==> #[trigger] gains@[k] == stands[k] && 0 <= stands[k] <= 20000,
            stopped ==> lva(b, attackers_bb(b, t, occ), side) is None,
        decreases 33 - n - (if stopped { 1int } else { 0int }),
    {
        let attackers = attackers_to(board, to, occ) & occ;
        proof {
            assert forall|s: int| squares(attackers).contains(s) == squares(attackers_bb(b, t, occ)).contains(s) by {
                if 0 <= s < 64 {
                    crate::bitboard::lemma_bit_and(attackers_bb(b, t, occ), occ, s as u64);
                }
            }
            assert(squares(attackers) =~= squares(attackers_bb(b, t, occ)));
            crate::bitboard::lemma_squares_ext(attackers, attackers_bb(b, t, occ));
        }
        match least_valuable_attacker(board, attackers, side) {
            Some((sq, pt)) => {
                gains.push(standing);
                let next_standing = if pt == PieceType::Pawn && (to_rank == 0 || to_rank == 7) {
                    see_piece_value(PieceType::Queen)
                } else {
                    see_piece_value(pt)
                };
                let ghost old_occ = occ;
                let ghost old_side = side;
                standing = next_standing;
                occ = clear_bit(occ, sq);
                side = side.opposite();
                proof {
                    occs = occs.push(occ);
                    sides = sides.push(side);
                    stands = stands.push(standing as int);
                    assert(step_ok(b, t, occs[n as int], sides[n as int], occs[n + 1], sides[n + 1], stands[n + 1]));
                }
                n += 1;
            },
            None => {
                stopped = true;
            },
        }
    }
    proof {
        assert(exchange(b, t, occs[n as int], sides[n as int], stands[n as int], n as nat) is None);
    }
    let ghost g0 = gains@[0] as int;
    proof {
        assert forall|k: int| 1 <= k < n implies 0 <= #[trigger] stands[k] <= 20000 by {
            assert(gains@[k] == stands[k]);
        }
        if n >= 2 {
            let k = (n - 1) as int;
            assert(step_ok(b, t, occs[k], sides[k], occs[k + 1], sides[k + 1], stands[k + 1]));
            assert(gains@[k] == stands[k]);
        }
    }
    let mut i: usize = n - 1;
    while i > 0
        invariant
            occs[1] == o1,
            sides[1] == s1,
            stands[1] == st1,
            g0 == gain0,
            b == *board,
            t == to as int,
            1 <= n <= 32,
            i <= n - 1,
            gains@.len() == n,
            occs.len() == n + 1,
            sides.len() == n + 1,
            stands.len() == n + 1,
            -20000 <= g0 <= 20000,
            exchange(b, t, occs[n as int], sides[n as int], stands[n as int], n as nat) is None,
            forall|k: int| 1 <= k < n ==> #[trigger] step_ok(b, t, occs[k], sides[k], occs[k + 1], sides[k + 1], stands[k + 1]),
            forall|k: int| 1 <= k < n ==> 0 <= #[trigger] stands[k] <= 20000,
            forall|k: int| 1 <= k < i ==> #[trigger] gains@[k] == stands[k],
            i >= 1 ==> gains@[0] == g0,
            i >= 1 ==> -20000 <= gains@[i as int] <= 20000,
            i >= 1 ==> exchange(b, t, occs[i as int], sides[i as int], stands[i as int], i as nat) == Some(gains@[i as int] as int),
            i == 0 ==> gains@[0] == (match exchange(b, t, occs[1], sides[1], stands[1], 1) {
                Some(r) => g0 - max0(r),
                None => g0,
            }),
        decreases i,
    {
        let g = gains[i];
        let g = if g > 0 { g } else { 0 };
        let prev = gains[i - 1];
        let ghost r = gains@[i as int] as int;
        gains.set(i - 1, prev - g);
        proof {
            if i >= 2 {
                let k = (i - 1) as int;
                assert(step_ok(b, t, occs[k], sides[k], occs[k + 1], sides[k + 1], stands[k + 1]));
                assert(exchange(b, t, occs[k], sides[k], stands[k], k as nat) == Some(stands[k] - max0(r)));
            }
        }
        i -= 1;
    }
    gains[0]
}

} // verus!
