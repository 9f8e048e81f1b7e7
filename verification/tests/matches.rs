//! Engines, opening books and matches.

use std::collections::HashSet;

use mancala::board::{Board, Player, Rules};
use mancala::playtest::{
    opening_book, play_game, play_openings, run_match, tally, Engine, GameResult, MatchConfig,
    MatchResult, Rng,
};
use mancala::solver::{analyze, Limit};
use mancala::tablebase::Tablebase;

fn config(openings: usize, plies: u32, seed: u64) -> MatchConfig {
    MatchConfig {
        pits: 6,
        seeds: 4,
        rules: Rules::default(),
        openings,
        opening_plies: plies,
        seed,
        threads: 1,
    }
}

fn score(r: &MatchResult) -> f64 {
    (r.wins as f64 + 0.5 * r.draws as f64) / r.games() as f64
}

#[test]
fn book_is_diverse_and_deterministic() {
    let r = Rules::default();
    let a = opening_book(6, 4, r, 4, 50, 7).unwrap();
    let b = opening_book(6, 4, r, 4, 50, 7).unwrap();
    assert_eq!(a, b, "same seed -> same book");
    let uniq: HashSet<_> = a.iter().collect();
    assert_eq!(uniq.len(), a.len(), "book has no duplicates");
    assert!(a.iter().all(|p| !p.is_terminal()));
}

#[test]
fn deeper_heuristic_outscores_shallower() {
    // The harness must register that more search = stronger play: a depth-5
    // heuristic should beat a depth-1 one over a small match.
    let cfg = config(30, 4, 1);
    let deep = Engine::Heuristic { limit: Limit::Depth(5) };
    let shallow = Engine::Heuristic { limit: Limit::Depth(1) };
    let res = run_match(deep, shallow, &cfg, None, |_, _| {}).unwrap();
    assert!(
        score(&res) > 0.5,
        "deeper should score >50% (got {:.1}% W{}-L{}-D{})",
        score(&res) * 100.0,
        res.wins,
        res.losses,
        res.draws
    );
}

#[test]
fn random_numbers_are_those_of_splitmix() {
    let mut rng = Rng::new(0);
    assert_eq!(rng.next_u64(), 0xE220_A839_7B1D_CDAF);
    assert_eq!(rng.next_u64(), 0x6E78_9E6A_A1B9_65F4);
    assert_eq!(rng.next_u64(), 0x06C4_5D18_8009_454F);
    let mut a = Rng::new(99);
    let mut b = Rng::new(99);
    assert_eq!(a.below(10) as u64, b.next_u64() % 10);
}

#[test]
fn an_engine_is_fair_to_itself() {
    let e = Engine::Heuristic { limit: Limit::Depth(3) };
    let r = run_match(e, e, &config(8, 3, 5), None, |_, _| {}).unwrap();
    assert_eq!(r.games(), 16);
    assert_eq!(r.wins, r.losses);
}

#[test]
fn engines_with_a_budget_are_fair_to_themselves() {
    for e in [
        Engine::Analyze { budget: 0, depth: 2 },
        Engine::Analyze { budget: 700, depth: 2 },
        Engine::Heuristic { limit: Limit::Nodes(300) },
    ] {
        let r = run_match(e, e, &config(3, 3, 5), None, |_, _| {}).unwrap();
        assert_eq!(r.games(), 6);
        assert_eq!(r.wins, r.losses);
        let again = run_match(e, e, &config(3, 3, 5), None, |_, _| {}).unwrap();
        assert_eq!((r.wins, r.draws), (again.wins, again.draws));
    }
}

#[test]
fn a_match_may_be_played_in_parts() {
    let rules = Rules::default();
    let a = Engine::Heuristic { limit: Limit::Depth(3) };
    let b = Engine::Heuristic { limit: Limit::Depth(2) };
    let book = opening_book(6, 4, rules, 4, 9, 3).unwrap();
    let whole = play_openings(a, b, rules, &book, None, |_, _| {});
    let front = play_openings(a, b, rules, &book[..4], None, |_, _| {});
    let back = play_openings(a, b, rules, &book[4..], None, |_, _| {});
    assert_eq!(whole.wins, front.wins + back.wins);
    assert_eq!(whole.draws, front.draws + back.draws);
    assert_eq!(whole.losses, front.losses + back.losses);
}

#[test]
fn the_transposition_table_only_saves_work() {
    let rules = Rules::default();
    for b in opening_book(4, 3, rules, 3, 4, 11).unwrap() {
        let limit = Limit::Depth(4);
        let with = Engine::Play { limit, quiesce: true, tt: true };
        let without = Engine::Play { limit, quiesce: true, tt: false };
        assert_eq!(
            with.choose_move(&b, rules, None),
            without.choose_move(&b, rules, None)
        );
    }
}

#[test]
fn the_endgame_is_played_perfectly() {
    let rules = Rules::default();
    let tb = Tablebase::build(rules, 3, 9);
    let e = Engine::Play { limit: Limit::Depth(1), quiesce: false, tt: true };
    for pits in [[1, 2, 0, 3, 0, 2], [0, 1, 3, 2, 2, 1], [4, 0, 1, 1, 2, 0]] {
        let mut cells = pits.to_vec();
        cells.insert(3, 5);
        cells.push(4);
        for turn in [Player::P0, Player::P1] {
            let b = Board::new(3, cells.clone(), turn).unwrap();
            let value = analyze(&b, rules, u64::MAX, 1).value;
            for table in [Some(&tb), None] {
                let m = e.choose_move(&b, rules, table).unwrap();
                let r = b.apply(&rules, m);
                let child = analyze(&r.board, rules, u64::MAX, 1).value;
                assert_eq!(if r.extra_turn { child } else { -child }, value);
            }
        }
    }
}

#[test]
fn forcing_moves_lower_the_seeds_in_play() {
    let rules = Rules::default();
    for b in opening_book(5, 4, rules, 6, 20, 2).unwrap() {
        for m in b.legal_moves(b.turn()) {
            let r = b.apply(&rules, m);
            if r.extra_turn || r.captured {
                assert!(r.board.seeds_in_play() < b.seeds_in_play());
            }
        }
    }
}

#[test]
fn engines_choose_legal_moves_until_the_end() {
    let rules = Rules::default();
    let over = Board::new(2, vec![0, 0, 3, 1, 0, 2], Player::P0).unwrap();
    for spec in ["h:2", "p:2", "q:n500", "q:t5", "q:2:nott", "a:1000:3"] {
        let e = Engine::parse(spec).unwrap();
        assert_eq!(e.choose_move(&over, rules, None), None);
        let b = Board::start(3, 3, Player::P0).unwrap();
        let m = e.choose_move(&b, rules, None).unwrap();
        assert!(b.legal_moves(Player::P0).contains(&m));
    }
}

#[test]
fn engine_specs() {
    let e = |s: &str| Engine::parse(s).unwrap();
    assert_eq!(e("h:6"), Engine::Heuristic { limit: Limit::Depth(6) });
    assert_eq!(e("h:d6"), Engine::Heuristic { limit: Limit::Depth(6) });
    assert_eq!(
        e("p:n200000"),
        Engine::Play { limit: Limit::Nodes(200_000), quiesce: false, tt: true }
    );
    assert_eq!(e("q:t50"), Engine::Play { limit: Limit::Time(50), quiesce: true, tt: true });
    assert_eq!(
        e("q:6:nott"),
        Engine::Play { limit: Limit::Depth(6), quiesce: true, tt: false }
    );
    assert_eq!(e("a:5000:4"), Engine::Analyze { budget: 5000, depth: 4 });
}

#[test]
fn bad_engine_specs() {
    let e = |s: &str| Engine::parse(s).unwrap_err();
    assert_eq!(e("h:x"), "bad depth in 'h:x'");
    assert_eq!(e("p:nx"), "bad node budget in 'p:nx'");
    assert_eq!(e("q:t"), "bad time budget (ms) in 'q:t'");
    assert_eq!(e("a:x:1"), "bad budget in 'a:x:1'");
    assert_eq!(e("a:1:x"), "bad depth in 'a:1:x'");
    assert_eq!(
        e("z:1"),
        "bad engine spec 'z:1' (h/p/q:<lim> or a:<budget>:<depth>; <lim> = depth '6', \
         nodes 'n200000', or time 't50'; 'q:<lim>:nott' disables the TT)"
    );
    assert!(Engine::parse("h:6:nott").is_err());
}

#[test]
fn a_game_is_scored_for_the_first_engine() {
    // P0 has one move left, which banks its last seed: 3 against 1.
    let b = Board::new(1, vec![1, 2, 1, 0], Player::P0).unwrap();
    let rules = Rules::default();
    let e = Engine::Heuristic { limit: Limit::Depth(1) };
    assert_eq!(play_game(&b, rules, e, e, true, None), GameResult::Win);
    assert_eq!(play_game(&b, rules, e, e, false, None), GameResult::Loss);
    let b = Board::new(1, vec![1, 0, 1, 0], Player::P0).unwrap();
    assert_eq!(play_game(&b, rules, e, e, true, None), GameResult::Draw);
}

#[test]
fn games_are_counted() {
    let mut r = MatchResult::default();
    assert_eq!(r.games(), 0);
    tally(&mut r, GameResult::Win);
    tally(&mut r, GameResult::Win);
    tally(&mut r, GameResult::Draw);
    tally(&mut r, GameResult::Loss);
    assert_eq!((r.wins, r.draws, r.losses, r.games()), (2, 1, 1, 4));
}

#[test]
fn a_match_without_openings_is_refused() {
    let e = Engine::Heuristic { limit: Limit::Depth(1) };
    assert_eq!(
        run_match(e, e, &config(0, 4, 1), None, |_, _| {}).unwrap_err(),
        "could not generate any non-terminal openings"
    );
    let mut cfg = config(3, 4, 1);
    cfg.pits = 0;
    assert_eq!(
        run_match(e, e, &cfg, None, |_, _| {}).unwrap_err(),
        Board::start(0, 4, Player::P0).unwrap_err()
    );
}
