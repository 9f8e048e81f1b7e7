//! The rules of the game, on concrete positions.

use mancala::board::{Board, Player, Rules};

fn rules() -> Rules {
    Rules::default()
}

fn seeds(b: &Board) -> u32 {
    b.cells().iter().map(|&c| c as u32).sum::<u32>()
}

#[test]
fn start_position_has_no_seeds_in_stores() {
    let b = Board::start(6, 4, Player::P0).unwrap();
    assert_eq!(b.store(Player::P0), 0);
    assert_eq!(b.store(Player::P1), 0);
    assert_eq!(seeds(&b), 48);
}

#[test]
fn landing_in_store_grants_extra_turn() {
    // Kalah(6,4): playing pit index 2 sows into pits 3,4,5 and the store.
    let b = Board::start(6, 4, Player::P0).unwrap();
    let r = b.apply(&rules(), 2);
    assert!(r.extra_turn);
    assert_eq!(r.board.turn(), Player::P0); // same player moves again
    assert_eq!(r.board.store(Player::P0), 1);
}

#[test]
fn non_store_move_passes_turn() {
    let b = Board::start(6, 4, Player::P0).unwrap();
    let r = b.apply(&rules(), 0); // 4 seeds -> pits 1,2,3,4
    assert!(!r.extra_turn);
    assert_eq!(r.board.turn(), Player::P1);
}

#[test]
fn skips_opponent_store() {
    // A long sow from P0 must skip P1's store (index 13 on a 6-board).
    // P0 pit 0 is pre-filled so the wrap-around does not land in an empty
    // pit (which would trigger a capture and muddy this test).
    let mut cells = vec![0u8; 14];
    cells[0] = 5; // wrap lands here, making it 6 (no capture)
    cells[5] = 8; // P0 pit 5: sows past its store, around, to pit 0
    let b = Board::new(6, cells, Player::P0).unwrap();
    let r = b.apply(&rules(), 5);
    // P1's store (index 13) must remain empty.
    assert_eq!(r.board.cells()[13], 0);
    // P0's own store (index 6) should have received exactly one seed.
    assert_eq!(r.board.store(Player::P0), 1);
    assert!(!r.captured);
    // Seeds are conserved.
    assert_eq!(seeds(&r.board), 13);
}

#[test]
fn capture_takes_opposite_pit() {
    // Set up: P0 pit 0 has 1 seed, lands in empty pit 1; opposite of pit 1
    // (global 1) is global 2*6 - 1 = 11, which we stock with seeds.
    let mut cells = vec![0u8; 14];
    cells[0] = 1; // play this
    cells[1] = 0; // becomes 1 -> empty before
    cells[11] = 5; // opposite pit, non-empty
    let b = Board::new(6, cells, Player::P0).unwrap();
    let r = b.apply(&rules(), 0);
    assert!(r.captured);
    assert_eq!(r.board.store(Player::P0), 6); // 1 + 5 captured
    assert_eq!(r.board.cells()[1], 0);
    assert_eq!(r.board.cells()[11], 0);
}

#[test]
fn no_capture_when_opposite_empty_under_default_rules() {
    let mut cells = vec![0u8; 14];
    cells[0] = 1;
    cells[11] = 0; // opposite empty
    let b = Board::new(6, cells, Player::P0).unwrap();
    let r = b.apply(&rules(), 0);
    assert!(!r.captured);
    assert_eq!(r.board.cells()[1], 1); // seed stays put
    assert_eq!(r.board.store(Player::P0), 0);
}

#[test]
fn capture_when_opposite_empty_if_rule_disabled() {
    let mut cells = vec![0u8; 14];
    cells[0] = 1;
    cells[11] = 0;
    let b = Board::new(6, cells, Player::P0).unwrap();
    let lenient = Rules {
        capture_requires_nonempty_opposite: false,
    };
    let r = b.apply(&lenient, 0);
    assert!(r.captured);
    assert_eq!(r.board.store(Player::P0), 1); // captured own single seed
}

#[test]
fn terminal_sweeps_remaining_seeds() {
    // P0 side empty -> terminal; P1's seeds sweep to P1 store.
    let mut cells = vec![0u8; 14];
    cells[6] = 10; // P0 store
    cells[7] = 3; // P1 pit
    cells[8] = 2; // P1 pit
    cells[13] = 5; // P1 store
    let b = Board::new(6, cells, Player::P1).unwrap();
    assert!(b.is_terminal());
    assert_eq!(b.final_scores(), (10, 10));
    assert_eq!(b.terminal_margin(Player::P0), 0);
}

#[test]
fn board_errors_are_reported() {
    assert_eq!(
        Board::new(0, vec![0, 0], Player::P0).unwrap_err(),
        "pits_per_side must be at least 1"
    );
    assert_eq!(
        Board::new(16, vec![0; 34], Player::P0).unwrap_err(),
        "pits_per_side 16 exceeds the supported maximum of 15"
    );
    assert_eq!(
        Board::new(2, vec![1, 2, 3], Player::P0).unwrap_err(),
        "expected 6 cells for a board with 2 pits per side, got 3"
    );
    assert_eq!(
        Board::new(1, vec![200, 0, 56, 0], Player::P1).unwrap_err(),
        "total seed count 256 exceeds the supported maximum of 255"
    );
    assert!(Board::new(1, vec![200, 0, 55, 0], Player::P1).is_ok());
    assert_eq!(
        Board::start(0, 4, Player::P0).unwrap_err(),
        "pits_per_side must be at least 1"
    );
    assert_eq!(
        Board::start(20, 4, Player::P0).unwrap_err(),
        "pits_per_side 20 exceeds the supported maximum of 15"
    );
    assert_eq!(
        Board::start(15, 9, Player::P0).unwrap_err(),
        "total seed count 270 exceeds the supported maximum of 255"
    );
}

#[test]
fn indices_follow_the_layout() {
    let b = Board::new(3, vec![1, 2, 3, 4, 5, 6, 7, 8], Player::P1).unwrap();
    assert_eq!(b.pits_per_side(), 3);
    assert_eq!(b.total_cells(), 8);
    assert_eq!(b.store_index(Player::P0), 3);
    assert_eq!(b.store_index(Player::P1), 7);
    assert_eq!(b.pit_global(Player::P0, 2), 2);
    assert_eq!(b.pit_global(Player::P1, 2), 6);
    assert_eq!(b.pit(Player::P1, 0), 5);
    assert_eq!(b.store(Player::P1), 8);
    assert_eq!(b.pit_seeds(Player::P0), 6);
    assert_eq!(b.pit_seeds(Player::P1), 18);
    assert_eq!(b.seeds_in_play(), 24);
    assert_eq!(b.turn(), Player::P1);
    assert_eq!(Player::P1.other(), Player::P0);
    assert_eq!(Player::P0.label(), "P0 (South)");
    assert_eq!(Player::P1.label(), "P1 (North)");
}

#[test]
fn legal_moves_are_the_pits_with_seeds() {
    let b = Board::new(4, vec![0, 2, 0, 1, 9, 3, 0, 0, 0, 9], Player::P0).unwrap();
    assert_eq!(b.legal_moves(Player::P0), vec![1, 3]);
    assert_eq!(b.legal_moves(Player::P1), vec![0]);
    assert!(!b.side_empty(Player::P0));
    assert!(!b.is_terminal());
    assert_eq!(b.sow_landing(1), 3);
    assert_eq!(b.sow_landing(3), 4);
    assert!(b.grants_extra_turn(3));
    assert!(!b.grants_extra_turn(1));
}

#[test]
fn every_move_conserves_seeds_and_advances_the_game() {
    // Play the first legal pit over and over: the seeds stay, and the game ends.
    let mut b = Board::start(5, 7, Player::P1).unwrap();
    let mut plies = 0;
    while !b.is_terminal() {
        let mv = b.legal_moves(b.turn())[0];
        let r = b.apply(&rules(), mv);
        assert_eq!(seeds(&r.board), 70);
        assert!(r.board.seeds_in_play() <= b.seeds_in_play());
        assert_eq!(r.extra_turn, r.board.turn() == b.turn());
        b = r.board;
        plies += 1;
    }
    assert!(plies > 0);
    let (s0, s1) = b.final_scores();
    assert_eq!(s0 + s1, 70);
    assert_eq!(b.terminal_margin(Player::P0), -b.terminal_margin(Player::P1));
}
