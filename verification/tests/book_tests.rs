use fructosita::board::Board;
use fructosita::book::{choose_weighted, polyglot_hash, Book, BookRng};
use fructosita::movegen::find_move;
use fructosita::moves::{Move, MoveKind};

/// A key table for tests (not the standard Polyglot one): distinct values
/// from a fixed xorshift sequence.
fn test_keys() -> Vec<u64> {
    let mut x: u64 = 0x9E37_79B9_7F4A_7C15;
    (0..781)
        .map(|_| {
            x ^= x << 13;
            x ^= x >> 7;
            x ^= x << 17;
            x
        })
        .collect()
}

fn entry(key: u64, raw: u16, weight: u16) -> Vec<u8> {
    let mut v = key.to_be_bytes().to_vec();
    v.extend_from_slice(&raw.to_be_bytes());
    v.extend_from_slice(&weight.to_be_bytes());
    v.extend_from_slice(&[0, 0, 0, 0]);
    v
}

fn raw(from: u16, to: u16) -> u16 {
    (from << 6) | to
}

#[test]
fn weighted_choice_respects_zero_weight_fallback() {
    let entries = vec![];
    let mut rng = BookRng::new(42);
    assert_eq!(choose_weighted(&entries, &mut rng), None);
}

#[test]
fn weighted_choice_skips_zero_weights() {
    let a = Move::new(12, 28, MoveKind::DoublePawnPush);
    let b = Move::new(11, 27, MoveKind::DoublePawnPush);
    let entries = vec![(a, 0), (b, 7)];
    let mut rng = BookRng::new(0);
    for _ in 0..50 {
        assert_eq!(choose_weighted(&entries, &mut rng), Some(b));
    }
    let all_zero = vec![(a, 0), (b, 0)];
    for _ in 0..20 {
        let m = choose_weighted(&all_zero, &mut rng).unwrap();
        assert!(m == a || m == b);
    }
}

/// A small book for the tests, keyed with `test_keys`: the start position
/// with three moves of different weights, a follow-up position, a castling
/// move in the Polyglot encoding (king takes own rook) and an en passant
/// capture. Entries are sorted by key, as in a Polyglot file.
fn test_book(keys: &[u64]) -> Book {
    let keys = keys.to_vec();
    let start = Board::start_pos();
    let after_e4 = start.make_move(find_move(&start, "e2e4").unwrap());
    let after_e5 = after_e4.make_move(find_move(&after_e4, "e7e5").unwrap());
    let castle = Board::from_fen("r1bqk2r/pppp1ppp/2n2n2/2b1p3/2B1P3/2N2N2/PPPP1PPP/R1BQK2R w KQkq - 6 5").unwrap();
    let ep = Board::from_fen("rnbqkbnr/ppp1p1pp/8/3pPp2/8/8/PPPP1PPP/RNBQKBNR w KQkq f6 0 4").unwrap();
    let mut entries: Vec<(u64, u16, u16)> = vec![
        (polyglot_hash(&start, &keys), raw(12, 28), 50),
        (polyglot_hash(&start, &keys), raw(11, 27), 30),
        (polyglot_hash(&start, &keys), raw(10, 26), 1),
        (polyglot_hash(&after_e5, &keys), raw(6, 21), 40),
        (polyglot_hash(&castle, &keys), raw(4, 7), 1),
        (polyglot_hash(&ep, &keys), raw(36, 45), 1),
    ];
    entries.sort_by_key(|e| e.0);
    let mut data = Vec::new();
    for (k, r, w) in entries {
        data.extend(entry(k, r, w));
    }
    Book::from_bytes(data).unwrap()
}

#[test]
fn startpos_book_moves_match_python_chess() {
    let keys = test_keys();
    let book = test_book(&keys);
    let board = Board::start_pos();
    let mut results = book.probe(&board, &keys);
    results.sort_by_key(|b| std::cmp::Reverse(b.1));
    let as_strings: Vec<(String, u32)> = results.iter().map(|(m, w)| (m.to_uci(), *w)).collect();
    assert_eq!(
        as_strings,
        vec![("e2e4".to_string(), 50), ("d2d4".to_string(), 30), ("c2c4".to_string(), 1)]
    );
}

#[test]
fn follow_up_position_book_move() {
    let keys = test_keys();
    let book = test_book(&keys);
    let mut board = Board::start_pos();
    board = board.make_move(find_move(&board, "e2e4").unwrap());
    board = board.make_move(find_move(&board, "e7e5").unwrap());
    let results = book.probe(&board, &keys);
    assert_eq!(results.len(), 1);
    assert_eq!(results[0].0.to_uci(), "g1f3");
    assert_eq!(results[0].1, 40);
}

#[test]
fn castling_encoding_quirk_is_translated_correctly() {
    let keys = test_keys();
    let book = test_book(&keys);
    let board = Board::from_fen("r1bqk2r/pppp1ppp/2n2n2/2b1p3/2B1P3/2N2N2/PPPP1PPP/R1BQK2R w KQkq - 6 5").unwrap();
    let results = book.probe(&board, &keys);
    assert_eq!(results.len(), 1);
    assert_eq!(results[0].0.to_uci(), "e1g1");
}

#[test]
fn en_passant_position_book_move() {
    let keys = test_keys();
    let book = test_book(&keys);
    let board = Board::from_fen("rnbqkbnr/ppp1p1pp/8/3pPp2/8/8/PPPP1PPP/RNBQKBNR w KQkq f6 0 4").unwrap();
    let results = book.probe(&board, &keys);
    assert_eq!(results.len(), 1);
    assert_eq!(results[0].0.to_uci(), "e5f6");
}

#[test]
fn unknown_position_returns_no_moves() {
    let keys = test_keys();
    let book = test_book(&keys);
    let board = Board::from_fen("8/8/8/4k3/8/8/4K3/8 w - - 0 1").unwrap();
    assert!(book.probe(&board, &keys).is_empty());
}

#[test]
fn invalid_file_size_is_rejected() {
    assert!(Book::from_bytes(vec![0u8; 17]).is_none());
}

#[test]
fn book_rejects_partial_entries() {
    assert!(Book::from_bytes(vec![]).is_none());
    assert!(Book::from_bytes(vec![0u8; 17]).is_none());
    assert!(Book::from_bytes(vec![0u8; 32]).is_some());
}

#[test]
fn probe_reads_entries_of_the_position() {
    let keys = test_keys();
    let start = Board::start_pos();
    let k = polyglot_hash(&start, &keys);
    let mut data = Vec::new();
    data.extend(entry(k.wrapping_sub(1), raw(1, 18), 9));
    data.extend(entry(k, raw(12, 28), 50));
    data.extend(entry(k, raw(11, 27), 30));
    data.extend(entry(k, raw(12, 36), 5));
    data.extend(entry(k.wrapping_add(1), raw(6, 21), 9));
    let book = Book::from_bytes(data).unwrap();
    let found = book.probe(&start, &keys);
    let as_text: Vec<(String, u32)> = found.iter().map(|(m, w)| (m.to_uci(), *w)).collect();
    assert_eq!(as_text, vec![("e2e4".to_string(), 50), ("d2d4".to_string(), 30)]);
    let empty = Board::from_fen("8/8/8/4k3/8/8/4K3/8 w - - 0 1").unwrap();
    assert!(book.probe(&empty, &keys).is_empty());
}

#[test]
fn hash_depends_on_side_castling_and_capturable_en_passant() {
    let keys = test_keys();
    let start = Board::start_pos();
    let after = start.make_move(find_move(&start, "e2e4").unwrap());
    let a = Board::from_fen("rnbqkbnr/pppppppp/8/8/4P3/8/PPPP1PPP/RNBQKBNR b KQkq e3 0 1").unwrap();
    let b = Board::from_fen("rnbqkbnr/pppppppp/8/8/4P3/8/PPPP1PPP/RNBQKBNR b KQkq - 0 1").unwrap();
    assert_eq!(polyglot_hash(&a, &keys), polyglot_hash(&b, &keys));
    assert_eq!(polyglot_hash(&after, &keys), polyglot_hash(&b, &keys));
    let c = Board::from_fen("rnbqkbnr/pppppppp/8/8/4P3/8/PPPP1PPP/RNBQKBNR w KQkq - 0 1").unwrap();
    assert_eq!(polyglot_hash(&c, &keys), polyglot_hash(&b, &keys) ^ keys[780]);
    let ep = Board::from_fen("rnbqkbnr/ppp1p1pp/8/3pPp2/8/8/PPPP1PPP/RNBQKBNR w KQkq f6 0 4").unwrap();
    let no_ep = Board::from_fen("rnbqkbnr/ppp1p1pp/8/3pPp2/8/8/PPPP1PPP/RNBQKBNR w KQkq - 0 4").unwrap();
    assert_eq!(polyglot_hash(&ep, &keys), polyglot_hash(&no_ep, &keys) ^ keys[772 + 5]);
}
