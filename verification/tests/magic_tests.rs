use fructosita::bitboard::count_bits;
use fructosita::magic::{
    bishop_attacks_oracle, bishop_mask, find_magic, ROOK_MAGICS, magic_tables, rook_attacks_oracle, rook_mask, subset_from_index, MagicTables,
};
use fructosita::types::{str_to_square, A1, A8, H1, H8};

/// Deterministic generator of test occupancies.
struct XorShift64(u64);

impl XorShift64 {
    fn next(&mut self) -> u64 {
        let mut x = self.0;
        x ^= x << 13;
        x ^= x >> 7;
        x ^= x << 17;
        self.0 = x;
        x
    }
}

#[test]
fn matches_ray_oracle_on_mask_subsets_exhaustively() {
    let mt = magic_tables();
    for sq in 0u8..64 {
        let rmask = rook_mask(sq);
        for i in 0..(1usize << count_bits(rmask)) {
            let occ = subset_from_index(i, rmask);
            assert_eq!(
                mt.rook_attacks(sq, occ),
                rook_attacks_oracle(sq, occ),
                "rook: mismatch on square {sq}, occupancy {occ:#x}"
            );
        }
        let bmask = bishop_mask(sq);
        for i in 0..(1usize << count_bits(bmask)) {
            let occ = subset_from_index(i, bmask);
            assert_eq!(
                mt.bishop_attacks(sq, occ),
                bishop_attacks_oracle(sq, occ),
                "bishop: mismatch on square {sq}, occupancy {occ:#x}"
            );
        }
    }
}

#[test]
fn matches_ray_oracle_on_full_random_occupancies() {
    let mt = magic_tables();
    let mut rng = XorShift64(0xD1CE_D1CE_D1CE_D1CE);
    for sq in 0u8..64 {
        for _ in 0..20_000 {
            let occ = rng.next() & rng.next();
            assert_eq!(
                mt.rook_attacks(sq, occ),
                rook_attacks_oracle(sq, occ),
                "rook: mismatch (random full occupancy) on square {sq}"
            );
            assert_eq!(
                mt.bishop_attacks(sq, occ),
                bishop_attacks_oracle(sq, occ),
                "bishop: mismatch (random full occupancy) on square {sq}"
            );
        }
    }
}

#[test]
fn total_relevant_bits_match_known_reference_tables() {
    let rook_total: u32 = (0u8..64).map(|sq| count_bits(rook_mask(sq))).sum();
    let bishop_total: u32 = (0u8..64).map(|sq| count_bits(bishop_mask(sq))).sum();
    assert_eq!(rook_total, 672);
    assert_eq!(bishop_total, 364);
}

#[test]
fn corner_and_center_bit_counts_match_known_values() {
    for &sq in &[A1, H1, A8, H8] {
        assert_eq!(count_bits(rook_mask(sq)), 12);
        assert_eq!(count_bits(bishop_mask(sq)), 6);
    }
    for sq_name in ["d4", "e4", "d5", "e5"] {
        let sq = str_to_square(sq_name).unwrap();
        assert_eq!(count_bits(rook_mask(sq)), 10, "rook on {sq_name}");
        assert_eq!(count_bits(bishop_mask(sq)), 9, "bishop on {sq_name}");
    }
}

#[test]
fn no_destructive_collisions_were_silently_accepted() {
    let tables = MagicTables::new();
    let occ = rook_mask(27) | bishop_mask(27);
    assert_eq!(tables.rook_attacks(27, occ), rook_attacks_oracle(27, occ));
    assert_eq!(tables.bishop_attacks(27, occ), bishop_attacks_oracle(27, occ));
}

#[test]
fn subsets_stay_within_the_mask() {
    let mask = rook_mask(0);
    assert_eq!(subset_from_index(0, mask), 0);
    assert_eq!(subset_from_index((1usize << count_bits(mask)) - 1, mask), mask);
    assert_eq!(subset_from_index(1, mask), mask & mask.wrapping_neg());
    assert_eq!(subset_from_index(5, 0b1011_0000), 0b1001_0000);
    assert_eq!(subset_from_index(6, 0b1011_0000), 0b1010_0000);
    assert_eq!(subset_from_index(2, 0b0101), 0b0100);
}

#[test]
fn find_magic_reproduces_the_built_in_numbers() {
    let mut rng: u64 = 0xC0FFEE_D15EA5E_u64 ^ 0x9E3779B97F4A7C15;
    for sq in 0u8..4 {
        let (magic, shift) = find_magic(sq, true, &mut rng, u64::MAX).unwrap();
        assert_eq!(magic, ROOK_MAGICS[sq as usize]);
        assert_eq!(shift, 64 - count_bits(rook_mask(sq)));
    }
}
