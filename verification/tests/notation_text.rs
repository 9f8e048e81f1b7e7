//! Board notation.

use mancala::board::Player;
use mancala::notation::parse;

fn complaint(s: &str) -> String {
    parse(s, Player::P0).unwrap_err()
}

#[test]
fn parses_start_position() {
    let b = parse("4,4,4,4,4,4,0 | 4,4,4,4,4,4,0", Player::P0).unwrap();
    assert_eq!(b.pits_per_side(), 6);
    assert_eq!(b.store(Player::P0), 0);
    assert_eq!(b.store(Player::P1), 0);
    assert_eq!(b.cells().iter().map(|&c| c as u32).sum::<u32>(), 48);
}

#[test]
fn round_trips() {
    let s = "1,2,3,0 | 4,5,6,7";
    let b = parse(s, Player::P1).unwrap();
    assert_eq!(mancala::notation::format(&b), s);
}

#[test]
fn rejects_mismatched_sides() {
    assert!(parse("1,2,0 | 3,4,5,0", Player::P0).is_err());
}

#[test]
fn rejects_missing_separator() {
    assert!(parse("1,2,3,0", Player::P0).is_err());
}

#[test]
fn rejects_non_numeric() {
    assert!(parse("1,x,0 | 1,2,0", Player::P0).is_err());
}

#[test]
fn space_signs_and_empty_values_are_forgiven() {
    let b = parse("  1 , 02,\t+3 , ,0|4,5,6,7,", Player::P1).unwrap();
    assert_eq!(b.cells(), &[1, 2, 3, 0, 4, 5, 6, 7]);
    assert_eq!(b.turn(), Player::P1);
}

#[test]
fn complaints_name_what_is_wrong() {
    assert_eq!(
        complaint("1,2,3,0"),
        "expected exactly one '|' separating the two sides, found 0"
    );
    assert_eq!(
        complaint("1,0 | 2,0 | 3,0"),
        "expected exactly one '|' separating the two sides, found 2"
    );
    assert_eq!(
        complaint("1, x ,0 | 1,2,0"),
        "'x' is not a valid seed count (0..=255)"
    );
    assert_eq!(
        complaint("1,256,0 | 1,2,0"),
        "'256' is not a valid seed count (0..=255)"
    );
    assert_eq!(
        complaint("1,-1,0 | 1,2,0"),
        "'-1' is not a valid seed count (0..=255)"
    );
    assert_eq!(
        complaint("1,2,0 | 3,4,5,0"),
        "both sides must list the same number of values (got 3 and 4)"
    );
    assert_eq!(
        complaint("1 | 2"),
        "each side must list at least one pit plus a store"
    );
    assert!(parse("200,0 | 56,0", Player::P0).is_err());
}
