use fructosita::bitboard::{count_bits, get_bit, set_bit, tables, EMPTY};
use fructosita::board::Board;
use fructosita::types::{str_to_square, A1};

#[test]
fn knight_corner() {
    let attacks = tables().knight_attacks(A1);
    assert_eq!(count_bits(attacks), 2);
    assert!(get_bit(attacks, str_to_square("b3").unwrap()));
    assert!(get_bit(attacks, str_to_square("c2").unwrap()));
}

#[test]
fn king_center() {
    let e4 = str_to_square("e4").unwrap();
    assert_eq!(count_bits(tables().king_attacks(e4)), 8);
}

#[test]
fn rook_blocked() {
    let a1 = str_to_square("a1").unwrap();
    let a4 = str_to_square("a4").unwrap();
    let occ = set_bit(EMPTY, a4);
    let attacks = tables().rook_attacks(a1, occ);
    assert!(get_bit(attacks, a4));
    assert!(!get_bit(attacks, str_to_square("a5").unwrap()));
    assert!(get_bit(attacks, str_to_square("a3").unwrap()));
    assert!(get_bit(attacks, str_to_square("h1").unwrap()));
}

#[test]
fn bishop_open_center() {
    let d4 = str_to_square("d4").unwrap();
    assert_eq!(count_bits(tables().bishop_attacks(d4, EMPTY)), 13);
}

#[test]
fn magic_matches_ray_reference_on_sample_positions() {
    let positions = [
        "rnbqkbnr/pppppppp/8/8/8/8/PPPPPPPP/RNBQKBNR w KQkq - 0 1",
        "r3k2r/p1ppqpb1/bn2pnp1/3PN3/1p2P3/2N2Q1p/PPPBBPPP/R3K2R w KQkq - 0 1",
        "8/2p5/3p4/KP5r/1R3p1k/8/4P1P1/8 w - - 0 1",
    ];
    for fen in positions {
        let board = Board::from_fen(fen).unwrap();
        let occ = board.occupancy();
        for sq in 0u8..64 {
            assert_eq!(
                tables().rook_attacks(sq, occ),
                tables().rook_attacks_ray(sq, occ),
                "rook: lookup and rays differ on {sq} for {fen}"
            );
            assert_eq!(
                tables().bishop_attacks(sq, occ),
                tables().bishop_attacks_ray(sq, occ),
                "bishop: lookup and rays differ on {sq} for {fen}"
            );
        }
    }
}

#[test]
fn set_get_clear_bits() {
    let bb = set_bit(EMPTY, 37);
    assert_eq!(bb, 1u64 << 37);
    assert!(get_bit(bb, 37));
    assert!(!get_bit(bb, 36));
    assert_eq!(fructosita::bitboard::clear_bit(bb, 37), EMPTY);
    assert_eq!(count_bits(0xFF00), 8);
}

#[test]
fn lsb_and_pop_lsb() {
    let mut bb: u64 = (1u64 << 9) | (1u64 << 40);
    assert_eq!(fructosita::bitboard::lsb(bb), 9);
    assert_eq!(fructosita::bitboard::pop_lsb(&mut bb), 9);
    assert_eq!(bb, 1u64 << 40);
    assert_eq!(fructosita::bitboard::pop_lsb(&mut bb), 40);
    assert_eq!(bb, 0);
}

#[test]
fn pawn_attacks_both_colours() {
    let e4 = str_to_square("e4").unwrap();
    let w = tables().pawn_attacks(fructosita::types::Color::White, e4);
    let b = tables().pawn_attacks(fructosita::types::Color::Black, e4);
    assert_eq!(w, set_bit(set_bit(EMPTY, str_to_square("d5").unwrap()), str_to_square("f5").unwrap()));
    assert_eq!(b, set_bit(set_bit(EMPTY, str_to_square("d3").unwrap()), str_to_square("f3").unwrap()));
    let a2 = str_to_square("a2").unwrap();
    assert_eq!(count_bits(tables().pawn_attacks(fructosita::types::Color::White, a2)), 1);
}

#[test]
fn queen_is_rook_plus_bishop() {
    let d4 = str_to_square("d4").unwrap();
    let occ = set_bit(set_bit(EMPTY, 30), 19);
    assert_eq!(
        tables().queen_attacks(d4, occ),
        tables().rook_attacks(d4, occ) | tables().bishop_attacks(d4, occ)
    );
    assert_eq!(count_bits(tables().queen_attacks(d4, EMPTY)), 27);
}

#[test]
fn print_bitboard_marks_set_squares() {
    let text = fructosita::bitboard::print_bitboard(set_bit(EMPTY, 0));
    assert!(text.contains('1'));
}
