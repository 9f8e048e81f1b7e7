//! The proven opening book.

use mancala::board::{Board, Player, Rules};
use mancala::book::Book;
use mancala::bytes::LoadError;
use mancala::solver;
use mancala::tablebase::Tablebase;

fn small_book() -> (Tablebase, Book) {
    let rules = Rules::default();
    let tb = Tablebase::build(rules, 3, 8);
    let book = Book::build(rules, 3, 3, 2, &tb, |_, _| {}).unwrap();
    (tb, book)
}

#[test]
fn book_matches_direct_solve_and_round_trips() {
    let rules = Rules::default();
    let tb = Tablebase::build(rules, 4, 10);
    let book = Book::build(rules, 4, 3, 2, &tb, |_, _| {}).unwrap();
    assert!(book.len() > 1, "book should cover several layouts");

    // The book's exact opening result must match a direct exact solve.
    let start = Board::start(4, 3, Player::P0).unwrap();
    let direct = solver::analyze_with_tb(&start, rules, u64::MAX, 12, Some(&tb));
    let booked = book.analyze(&start, rules, Some(&tb)).unwrap();
    assert!(booked.exact);
    assert_eq!(booked.value, direct.value, "book value must equal solved value");
    assert_eq!(booked.best_move, direct.best_move);
    assert!(!booked.pv.is_empty());

    // A position one move in is also a book hit with the matching value.
    let next = start.apply(&rules, direct.best_move.unwrap()).board;
    if let Some(b) = book.analyze(&next, rules, Some(&tb)) {
        let d = solver::analyze_with_tb(&next, rules, u64::MAX, 12, Some(&tb));
        assert_eq!(b.value, d.value);
    }

    // Serialization round-trips.
    let mut buf = Vec::new();
    book.write_to(&mut buf);
    let loaded = Book::from_bytes(&buf).unwrap();
    assert_eq!(loaded.len(), book.len());
    assert_eq!(loaded.lookup(&start), book.lookup(&start));
}

#[test]
fn book_holds_what_is_within_reach() {
    let rules = Rules::default();
    let (_, book) = small_book();
    assert_eq!(book.pits_per_side(), 3);
    assert!(!book.is_empty());
    // Everything within two moves of the opening is there.
    let start = Board::start(3, 3, Player::P0).unwrap();
    for i in start.legal_moves(Player::P0) {
        let one = start.apply(&rules, i).board;
        assert!(book.lookup(&one).is_some());
        for j in one.legal_moves(one.turn()) {
            let two = one.apply(&rules, j).board;
            if !two.is_terminal() {
                assert!(book.lookup(&two).is_some());
            }
        }
    }
    // Boards of another size are not, nor is what lies beyond.
    assert_eq!(book.lookup(&Board::start(4, 3, Player::P0).unwrap()), None);
    assert_eq!(book.lookup(&Board::start(3, 2, Player::P0).unwrap()), None);
    assert!(book
        .analyze(&Board::start(3, 2, Player::P0).unwrap(), rules, None)
        .is_none());
}

#[test]
fn book_entries_serve_both_mirrors_and_every_store() {
    let (_, book) = small_book();
    let a = Board::new(3, vec![3, 3, 3, 0, 3, 3, 3, 0], Player::P0).unwrap();
    let b = Board::new(3, vec![3, 3, 3, 7, 3, 3, 3, 4], Player::P1).unwrap();
    assert_eq!(book.lookup(&a), book.lookup(&b));
    assert_eq!(book.lookup(&a), Some((2, Some(0))));
    let margin = book.analyze(&b, Rules::default(), None).unwrap().value;
    assert_eq!(margin, 2 + 4 - 7);
}

#[test]
fn book_file_format() {
    let (_, book) = small_book();
    let f = book.to_bytes();
    assert_eq!(&f[..8], b"KALABK01");
    assert_eq!(f[8..12], 3u32.to_le_bytes());
    assert_eq!(f[12..20], (book.len() as u64).to_le_bytes());
    assert_eq!(f.len(), 20 + 19 * book.len());
}

#[test]
fn book_rejects_what_is_not_one() {
    let (_, book) = small_book();
    let f = book.to_bytes();
    assert_eq!(Book::from_bytes(&f[..5]).err(), Some(LoadError::UnexpectedEnd));
    assert_eq!(Book::from_bytes(&f[..15]).err(), Some(LoadError::UnexpectedEnd));
    assert_eq!(Book::from_bytes(&f[..f.len() - 1]).err(), Some(LoadError::UnexpectedEnd));
    let mut g = f.clone();
    g[0] = b'X';
    assert_eq!(Book::from_bytes(&g).err(), Some(LoadError::NotATable));
    // What follows the book is not read.
    let mut g = f.clone();
    g.push(1);
    assert_eq!(Book::from_bytes(&g).unwrap().len(), book.len());
}

#[test]
fn book_reports_its_progress() {
    let rules = Rules::default();
    let tb = Tablebase::build(rules, 3, 8);
    let mut calls = Vec::new();
    let book = Book::build(rules, 3, 3, 1, &tb, |done, total| calls.push((done, total))).unwrap();
    let expected: Vec<(usize, usize)> = (1..=book.len()).map(|i| (i, book.len())).collect();
    assert_eq!(calls, expected);
    // The opening, and what each of its three moves leads to.
    assert_eq!(book.len(), 4);
}

#[test]
fn book_of_a_finished_opening_is_empty() {
    let rules = Rules::default();
    let tb = Tablebase::build(rules, 6, 0);
    let book = Book::build(rules, 6, 0, 2, &tb, |_, _| {}).unwrap();
    let mut w = Vec::new();
    book.write_to(&mut w);
    assert_eq!(w, b"KALABK01\x06\0\0\0\0\0\0\0\0\0\0\0".to_vec());
}

#[test]
fn book_holds_layouts_that_overflow_their_key() {
    let rules = Rules::default();
    // More than 63 seeds in a pit.
    let tb = Tablebase::build(rules, 1, 4);
    let book = Book::build(rules, 1, 100, 0, &tb, |_, _| {}).unwrap();
    assert_eq!(book.len(), 1);
    let b = Board::start(1, 100, Player::P1).unwrap();
    let (g, best) = book.lookup(&b).unwrap();
    assert_eq!(best, Some(0));
    assert_eq!(g as i32, solver::analyze(&b, rules, u64::MAX, 12).value);
    // More than ten pits per side.
    let tb = Tablebase::build(rules, 11, 3);
    assert!(Book::build(rules, 11, 0, 2, &tb, |_, _| {}).unwrap().is_empty());
    let mut cells = vec![0u8; 24];
    (cells[0], cells[10], cells[12]) = (3, 1, 2);
    let key = cells[..11].iter().chain(&cells[12..23]).fold(0u128, |k, &c| (k << 6) | c as u128);
    let mut file = b"KALABK01".to_vec();
    file.extend(11u32.to_le_bytes());
    file.extend(1u64.to_le_bytes());
    file.extend(key.to_le_bytes());
    file.extend((-2i16).to_le_bytes());
    file.push(10);
    let book = Book::from_bytes(&file).unwrap();
    let b = Board::new(11, cells.clone(), Player::P0).unwrap();
    assert_eq!(book.lookup(&b), Some((-2, Some(10))));
    cells[0] = 2;
    let b = Board::new(11, cells, Player::P0).unwrap();
    assert_eq!(book.lookup(&b), None);
}

#[test]
fn book_of_an_impossible_board_is_refused() {
    let tb = Tablebase::build(Rules::default(), 2, 4);
    assert_eq!(
        Book::build(Rules::default(), 0, 3, 1, &tb, |_, _| {}).err(),
        Board::start(0, 3, Player::P0).err()
    );
}
