//! The endgame table, the tablebase, and what they are built from.

use mancala::board::{Board, Player, Rules};
use mancala::bytes::LoadError;
use mancala::counting::{binom, comps, next_layout, num_layouts, offset, Pascal};
use mancala::endgame::Endgame;
use mancala::hash::{mix, U128Hasher, U128Map};
use mancala::tablebase::Tablebase;
use mancala::tt::{Flag, Probe, Tt};

/// Every layout of `m` pits with at most `cap` seeds, in order.
fn every_layout(cap: u32, m: usize) -> Vec<Vec<u8>> {
    let mut pits = vec![0u8; m];
    let mut all = vec![pits.clone()];
    while next_layout(cap, &mut pits) {
        all.push(pits.clone());
    }
    all
}

/// Board with the given mover/opponent pits and `turn` to move (zero stores).
fn board_for(n: usize, mover: &[u8], opp: &[u8], turn: Player) -> Board {
    let mut cells = vec![0u8; 2 * n + 2];
    let (p0, p1) = match turn {
        Player::P0 => (mover, opp),
        Player::P1 => (opp, mover),
    };
    cells[..n].copy_from_slice(p0);
    cells[n + 1..2 * n + 1].copy_from_slice(p1);
    Board::new(n, cells, turn).unwrap()
}

#[test]
fn g_matches_known_small_value() {
    let mut eg = Endgame::new(Rules::default(), 64);
    let b = Board::start(3, 3, Player::P0).unwrap();
    // Stores are zero at the start, so the margin equals g.
    assert_eq!(eg.g(&b), 2);
}

#[test]
fn g_is_store_independent() {
    let rules = Rules::default();
    // Same pits, different store contents -> identical g.
    let a = Board::new(2, vec![1, 2, 0, 3, 1, 0], Player::P0).unwrap();
    let b = Board::new(2, vec![1, 2, 9, 3, 1, 7], Player::P0).unwrap();
    let mut eg = Endgame::new(rules, 64);
    assert_eq!(eg.g(&a), eg.g(&b));
}

#[test]
fn endgame_memo_grows_with_what_it_solves() {
    let mut eg = Endgame::new(Rules::default(), 9);
    assert_eq!(eg.cutoff(), 9);
    assert!(eg.is_empty());
    let over = Board::new(1, vec![0, 3, 2, 1], Player::P0).unwrap();
    assert_eq!(eg.g(&over), -2);
    assert_eq!(eg.len(), 0);
    let b = Board::new(2, vec![1, 0, 0, 5, 1, 0], Player::P0).unwrap();
    assert_eq!(eg.g(&b), 5);
    assert!(eg.len() > 0);
    assert!(!eg.is_empty());
}

#[test]
fn binomials_are_exact_or_saturated() {
    assert_eq!(binom(5, 2), 10);
    assert_eq!(binom(5, 7), 0);
    assert_eq!(binom(0, 0), 1);
    assert_eq!(binom(26, 12), 9_657_700);
    assert_eq!(binom(67, 33), 14_226_520_737_620_288_370);
    assert_eq!(binom(68, 34), u64::MAX);
    assert_eq!(binom(u64::MAX, 1), u64::MAX);
    assert_eq!(binom(u64::MAX, u64::MAX), 1);
    assert_eq!(comps(3, 0), 0);
    assert_eq!(comps(0, 0), 1);
    assert_eq!(comps(4, 3), 15);
    assert_eq!(offset(0, 3), 0);
    assert_eq!(offset(4, 3), 20);
    assert_eq!(num_layouts(4, 3), 35);
}

#[test]
fn rank_is_a_bijection() {
    // For m parts and cap C, ranks of all layouts must be exactly 0..total.
    let pascal = Pascal::new();
    for (m, cap) in [(2u64, 4u32), (3, 5), (4, 6)] {
        let total = num_layouts(cap as u64, m) as usize;
        let mut seen = vec![false; total];
        for layout in every_layout(cap, m as usize) {
            let r = pascal.rank(&layout) as usize;
            assert!(r < total, "rank {r} out of range {total}");
            assert!(!seen[r], "duplicate rank {r}");
            seen[r] = true;
        }
        assert!(seen.into_iter().all(|s| s), "every index covered");
    }
}

#[test]
fn ranks_go_by_total_and_then_by_order() {
    let pascal = Pascal::new();
    assert_eq!(pascal.rank(&[0, 0, 0]), 0);
    assert_eq!(pascal.rank(&[0, 0, 1]), 1);
    assert_eq!(pascal.rank(&[0, 1, 0]), 2);
    assert_eq!(pascal.rank(&[1, 0, 0]), 3);
    assert_eq!(pascal.rank(&[0, 0, 2]), 4);
    assert_eq!(pascal.rank(&[2, 0, 0]), 9);
}

#[test]
fn layouts_are_enumerated_in_lexicographic_order() {
    let all = every_layout(2, 2);
    assert_eq!(
        all,
        vec![vec![0, 0], vec![0, 1], vec![0, 2], vec![1, 0], vec![1, 1], vec![2, 0]]
    );
    assert_eq!(every_layout(0, 3), vec![vec![0, 0, 0]]);
}

#[test]
fn tablebase_matches_lazy_g() {
    // Built values must equal the lazy endgame `g` for every covered layout,
    // with either player as the mover (exercising mirror canonicalization).
    let rules = Rules::default();
    let tb = Tablebase::build(rules, 2, 6);
    let mut eg = Endgame::new(rules, 6);
    for turn in [Player::P0, Player::P1] {
        for layout in every_layout(6, 4) {
            let board = board_for(2, &layout[..2], &layout[2..], turn);
            assert_eq!(tb.lookup(&board), Some(eg.g(&board)));
        }
    }
}

#[test]
fn lookup_is_mirror_symmetric() {
    // The same (mover, opponent) pits must hit the same entry regardless of
    // which player is the mover.
    let tb = Tablebase::build(Rules::default(), 2, 6);
    for layout in every_layout(6, 4) {
        let as_p0 = board_for(2, &layout[..2], &layout[2..], Player::P0);
        let as_p1 = board_for(2, &layout[..2], &layout[2..], Player::P1);
        assert_eq!(tb.lookup(&as_p0), tb.lookup(&as_p1));
    }
}

#[test]
fn save_and_load_round_trips() {
    let tb = Tablebase::build(Rules::default(), 2, 5);
    let bytes = tb.to_bytes();
    let loaded = Tablebase::from_bytes(&bytes).unwrap();
    assert_eq!(loaded.pits_per_side(), 2);
    assert_eq!(loaded.cap(), 5);
    // Spot-check a couple of layouts.
    let b = Board::new(2, vec![1, 2, 0, 1, 1, 0], Player::P0).unwrap();
    assert_eq!(tb.lookup(&b), loaded.lookup(&b));
    assert_eq!(loaded.to_bytes(), bytes);
}

#[test]
fn tablebase_file_format() {
    let tb = Tablebase::build(Rules::default(), 1, 1);
    let bytes = tb.to_bytes();
    assert_eq!(&bytes[..8], b"KALATB02");
    assert_eq!(&bytes[8..24], &[1, 0, 0, 0, 1, 0, 0, 0, 3, 0, 0, 0, 0, 0, 0, 0]);
    // Layouts (0, 0), (0, 1), (1, 0): the sweep gives 0, -1 and 1.
    assert_eq!(&bytes[24..], &[0, 0, 255, 255, 1, 0]);
    assert_eq!(Tablebase::entry_count(1, 1), 3);
    assert_eq!(Tablebase::entry_count(6, 14), 9_657_700);
}

#[test]
fn tablebase_rejects_what_is_not_one() {
    let bytes = Tablebase::build(Rules::default(), 1, 1).to_bytes();
    assert_eq!(Tablebase::from_bytes(&bytes[..4]).err(), Some(LoadError::UnexpectedEnd));
    assert_eq!(Tablebase::from_bytes(&bytes[..20]).err(), Some(LoadError::UnexpectedEnd));
    assert_eq!(Tablebase::from_bytes(&bytes[..29]).err(), Some(LoadError::UnexpectedEnd));
    let mut wrong = bytes.clone();
    wrong[7] = b'1';
    assert_eq!(Tablebase::from_bytes(&wrong).err(), Some(LoadError::NotATable));
    let mut wrong = bytes.clone();
    wrong[16] = 4;
    assert_eq!(Tablebase::from_bytes(&wrong).err(), Some(LoadError::NotATable));
    // Bytes after the table are ignored, and entries are taken as they are.
    let mut longer = bytes.clone();
    longer[26] = 0x2C;
    longer[27] = 0x01;
    longer.push(7);
    let tb = Tablebase::from_bytes(&longer).unwrap();
    let b = Board::new(1, vec![0, 0, 1, 0], Player::P0).unwrap();
    assert_eq!(tb.lookup(&b), Some(300));
}

#[test]
fn lookup_covers_its_own_boards_only() {
    let tb = Tablebase::build(Rules::default(), 2, 3);
    let heavy = Board::new(2, vec![2, 2, 0, 0, 1, 0], Player::P0).unwrap();
    assert_eq!(tb.lookup(&heavy), None);
    let wide = Board::new(3, vec![1, 0, 0, 0, 1, 0, 0, 0], Player::P0).unwrap();
    assert_eq!(tb.lookup(&wide), None);
}

#[test]
fn map_keeps_the_order_of_first_insertion() {
    let mut map: U128Map<u32> = U128Map::new();
    assert!(map.is_empty());
    for i in 0..1000u32 {
        map.insert((i as u128) << 70 | 3, i);
    }
    map.insert(3, 77);
    assert_eq!(map.len(), 1000);
    assert_eq!(map.get(3), Some(77));
    assert_eq!(map.get(4), None);
    for i in 1..1000usize {
        assert_eq!(map.entry(i), ((i as u128) << 70 | 3, i as u32));
    }
}

#[test]
fn hasher_digests_the_last_key() {
    let mut h = U128Hasher::new();
    assert_eq!(h.finish(), 0);
    h.write_u128(12345);
    h.write(&[1, 2, 3]);
    assert_eq!(h.finish(), mix(12345));
    assert_ne!(mix(1), mix(2));
}

#[test]
fn transposition_table_keeps_every_key() {
    let mut tt = Tt::new(1 << 20);
    for i in 1..60_000u128 {
        let p = Probe {
            value: (i % 30_000) as i16 - 15_000,
            flag: Flag::Lower,
            best: if i % 16 == 15 { None } else { Some((i % 16) as usize) },
        };
        tt.store(i * 977, p);
    }
    tt.store(977, Probe { value: -32_768, flag: Flag::Exact, best: Some(14) });
    assert_eq!(tt.get(977), Some(Probe { value: -32_768, flag: Flag::Exact, best: Some(14) }));
    assert_eq!(tt.get(976), None);
    for i in 2..60_000u128 {
        let e = tt.get(i * 977).unwrap();
        assert_eq!(e.value, (i % 30_000) as i16 - 15_000);
        assert_eq!(e.flag, Flag::Lower);
        assert_eq!(e.best, if i % 16 == 15 { None } else { Some((i % 16) as usize) });
    }
}

#[test]
fn two_keys_of_a_new_table_are_both_found() {
    let mut t = Tt::new(64);
    let p = Probe { value: -7, flag: Flag::Lower, best: Some(3) };
    let q = Probe { value: 300, flag: Flag::Exact, best: None };
    t.store(5, p);
    t.store(1 << 100, q);
    assert_eq!(t.get(5), Some(p));
    assert_eq!(t.get(1 << 100), Some(q));
    assert_eq!(t.get(6), None);
}
