//! The solver, on positions with known values.

use mancala::board::{Board, Player, Rules};
use mancala::clock::Deadline;
use mancala::solver::{
    analyze, analyze_with_tb, play_search, solve_within, Analysis, Limit, Outcome, Solver,
};
use mancala::tablebase::Tablebase;

fn solve_exact(b: &Board) -> Analysis {
    analyze(b, Rules::default(), u64::MAX, 12)
}

#[test]
fn tiny_terminal_position_is_exact_draw() {
    // 1 pit per side, both empty, equal stores -> draw.
    let cells = vec![0, 5, 0, 5];
    let b = Board::new(1, cells, Player::P0).unwrap();
    let a = solve_exact(&b);
    assert!(a.exact);
    assert_eq!(a.value, 0);
    assert_eq!(a.outcome(), Outcome::Draw);
    assert_eq!(a.best_move, None);
}

#[test]
fn forced_capture_win_is_exact() {
    // Kalah(2,*). P0 plays pit 0 (1 seed): it lands in P0's empty pit 1
    // (global 1), whose opposite pit (global 3) holds 5 seeds -> capture of
    // 6 into P0's store. The turn passes to P1, whose side is then empty, so
    // the game ends with P0 ahead by 5 (6 vs 1).
    let cells = vec![1, 0, 0, 5, 1, 0];
    let b = Board::new(2, cells, Player::P0).unwrap();
    let a = solve_exact(&b);
    assert!(a.exact);
    assert_eq!(a.best_move, Some(0));
    assert_eq!(a.value, 5);
    assert_eq!(a.outcome(), Outcome::Win);
}

#[test]
fn kalah_3_3_solves_exactly_and_deterministically() {
    // A small but non-trivial board (3 pits, 3 seeds = 18 seeds) that the
    // exact solver handles quickly.
    let b = Board::start(3, 3, Player::P0).unwrap();
    let a = solve_exact(&b);
    assert!(a.exact);
    // For (3,3) the opening that lands its last seed in the store (distance
    // to store == seeds == 3) is pit index 0, and that extra-turn opening is
    // the engine's first choice. The exact game value is a first-player win
    // by 2 seeds.
    assert_eq!(a.best_move, Some(0));
    assert_eq!(a.value, 2);
    assert_eq!(a.outcome(), Outcome::Win);
    assert!(!a.pv.is_empty());
}

#[test]
fn kalah_6_2_exact_value_regression() {
    let b = Board::start(6, 2, Player::P0).unwrap();
    let a = analyze(&b, Rules::default(), u64::MAX, 12);
    assert!(a.exact, "Kalah(6,2) should solve exactly");
    assert_eq!(a.value, 6, "Kalah(6,2) is a first-player win by 6 seeds");
    assert_eq!(a.outcome(), Outcome::Win);
    assert_eq!(a.best_move, Some(4));
    assert!(!a.pv.is_empty());
}

#[test]
fn kalah_5_3_exact_value_regression() {
    let b = Board::start(5, 3, Player::P0).unwrap();
    let a = analyze(&b, Rules::default(), u64::MAX, 12);
    assert!(a.exact);
    assert_eq!(a.value, 6, "Kalah(5,3) is a first-player win by 6 seeds");
    assert_eq!(a.best_move, Some(2));
}

#[test]
fn budget_forces_heuristic_fallback() {
    let b = Board::start(6, 4, Player::P0).unwrap();
    let a = analyze(&b, Rules::default(), 100, 6); // tiny budget
    assert!(!a.exact, "tiny budget must trigger heuristic fallback");
    assert_eq!(a.depth, Some(6));
    assert!(a.best_move.is_some());
}

#[test]
fn move_evals_cover_all_legal_moves() {
    let b = Board::start(3, 3, Player::P0).unwrap();
    let a = solve_exact(&b);
    assert_eq!(a.move_evals.len(), 3);
    // The best move sorts first and is reported exactly (not a bound).
    let top = a.move_evals[0];
    assert_eq!(Some(top.pit), a.best_move);
    assert!(!top.bound);
    assert_eq!(top.value, a.value);
    // Exact evaluations are listed before bounded ones.
    let first_bound = a.move_evals.iter().position(|m| m.bound);
    if let Some(idx) = first_bound {
        assert!(a.move_evals[idx..].iter().all(|m| m.bound));
    }
}

#[test]
fn tablebase_changes_nothing_but_the_work() {
    let rules = Rules::default();
    let tb = Tablebase::build(rules, 4, 8);
    let b = Board::start(4, 3, Player::P1).unwrap();
    let plain = analyze(&b, rules, u64::MAX, 12);
    let with = analyze_with_tb(&b, rules, u64::MAX, 12, Some(&tb));
    assert!(with.exact);
    assert_eq!(with.value, plain.value);
    assert_eq!(with.best_move, plain.best_move);
    // The principal variation is exact: every move of it keeps the value.
    for a in [&plain, &with] {
        let mut cur = b;
        for &mv in &a.pv {
            assert!(!cur.is_terminal());
            cur = cur.apply(&rules, mv).board;
            let v = solve_exact(&cur).value;
            let v = if cur.turn() == Player::P1 { v } else { -v };
            assert_eq!(v, a.value);
        }
    }
}

#[test]
fn mirrored_positions_have_the_same_value() {
    let rules = Rules::default();
    let south = Board::new(3, vec![1, 4, 2, 3, 0, 5, 1, 2], Player::P0).unwrap();
    let north = Board::new(3, vec![0, 5, 1, 2, 1, 4, 2, 3], Player::P1).unwrap();
    let a = analyze(&south, rules, u64::MAX, 4);
    let b = analyze(&north, rules, u64::MAX, 4);
    assert_eq!(a.value, b.value);
    assert_eq!(a.best_move, b.best_move);
    assert_eq!(a.pv, b.pv);
}

#[test]
fn the_value_of_each_move_is_that_of_its_child() {
    let rules = Rules::default();
    let b = Board::new(4, vec![2, 0, 3, 1, 0, 1, 2, 0, 4, 0], Player::P0).unwrap();
    let a = solve_exact(&b);
    for e in &a.move_evals {
        let r = b.apply(&rules, e.pit);
        let child = solve_exact(&r.board);
        let v = if r.extra_turn { child.value } else { -child.value };
        assert_eq!(e.extra_turn, r.extra_turn);
        assert_eq!(e.captured, r.captured);
        if e.bound {
            assert!(v <= e.value && e.value <= a.value);
        } else {
            assert_eq!(v, e.value);
        }
    }
}

#[test]
fn solver_stays_right_while_its_table_warms_up() {
    let rules = Rules::default();
    let tb = Tablebase::build(rules, 3, 6);
    let mut solver = Solver::new(rules, &tb);
    let mut b = Board::start(3, 3, Player::P0).unwrap();
    while !b.is_terminal() {
        let (value, best) = solver.solve(&b);
        let fresh = analyze_with_tb(&b, rules, u64::MAX, 12, Some(&tb));
        assert_eq!(value, fresh.value);
        b = b.apply(&rules, best.unwrap()).board;
    }
    assert_eq!(solver.solve(&b), (b.terminal_margin(b.turn()), None));
}

#[test]
fn play_search_obeys_its_limit() {
    let rules = Rules::default();
    let b = Board::start(6, 4, Player::P0).unwrap();
    let a = play_search(&b, rules, None, Limit::Depth(4), true, true, true);
    assert_eq!(a.depth, Some(4));
    assert!(!a.exact);
    assert_eq!(a.move_evals.len(), 6);
    let a = play_search(&b, rules, None, Limit::Depth(0), false, false, true);
    assert_eq!(a.depth, Some(1));
    let a = play_search(&b, rules, None, Limit::Nodes(20_000), true, true, true);
    assert!(a.nodes <= 20_000);
    assert!(a.depth.unwrap() > 1);
    let a = play_search(&b, rules, None, Limit::Nodes(0), true, true, true);
    assert!(a.best_move.is_some());
    let a = play_search(&b, rules, None, Limit::Time(5), true, true, false);
    assert!(a.best_move.is_some());
    // Without the transposition table the values are the same.
    let with = play_search(&b, rules, None, Limit::Depth(5), false, true, true);
    let without = play_search(&b, rules, None, Limit::Depth(5), false, true, false);
    assert_eq!(with.value, without.value);
    assert_eq!(with.best_move, without.best_move);
}

#[test]
fn a_depth_one_search_is_the_best_estimate() {
    // One ply, no endgame table, no quiescence: hundredths of a banked seed plus
    // the difference of the seeds in the pits.
    let b = Board::new(2, vec![9, 1, 20, 9, 9, 10], Player::P0).unwrap();
    let a = play_search(&b, Rules::default(), None, Limit::Depth(1), false, false, true);
    // Pit 1 banks its seed: lead 11, pits 9 against 18. Pit 0 sows almost twice
    // around, banking two seeds: lead 12, pits 4 against 22.
    assert_eq!(a.best_move, Some(0));
    assert_eq!(a.value, 1200 - 18);
    assert_eq!(a.move_evals[1].pit, 1);
}

#[test]
fn within_a_tablebase_the_line_goes_on_to_the_end() {
    let rules = Rules::default();
    let tb = Tablebase::build(rules, 4, 8);
    let b = Board::new(4, vec![1, 0, 2, 1, 9, 0, 2, 1, 1, 7], Player::P0).unwrap();
    let a = analyze_with_tb(&b, rules, u64::MAX, 12, Some(&tb));
    let mut cur = b;
    for &mv in &a.pv {
        cur = cur.apply(&rules, mv).board;
    }
    assert!(cur.is_terminal());
    assert_eq!(cur.terminal_margin(Player::P0), a.value);
}

#[test]
fn what_an_exact_analysis_took_is_enough() {
    let rules = Rules::default();
    for (pits, seeds) in [(3, 3), (4, 2), (2, 5)] {
        let b = Board::start(pits, seeds, Player::P1).unwrap();
        let a = solve_within(&b, rules, 40_000_000, None).unwrap();
        for budget in [a.nodes, a.nodes + 1, 2 * a.nodes] {
            let again = solve_within(&b, rules, budget, None).unwrap();
            assert_eq!((again.nodes, again.best_move), (a.nodes, a.best_move));
            assert_eq!((again.value, &again.pv), (a.value, &a.pv));
        }
        assert!(solve_within(&b, rules, a.nodes - 1, None).is_none());
    }
}

#[test]
fn an_exact_attempt_may_run_out_of_budget() {
    let b = Board::start(3, 3, Player::P0).unwrap();
    let rules = Rules::default();
    assert!(solve_within(&b, rules, 10, None).is_none());
    let a = solve_within(&b, rules, 40_000_000, None).unwrap();
    assert!(a.exact);
    assert_eq!(a.value, 2);
    // What it took is enough.
    assert_eq!(solve_within(&b, rules, a.nodes, None).unwrap().value, 2);
}

#[test]
fn no_time_at_all_is_used_up_at_once() {
    assert!(Deadline::after_millis(0).passed());
    assert!(!Deadline::after_millis(u64::MAX).passed());
    let d = Deadline::after_millis(50);
    assert!(d.exceeded_by(50));
    assert!(!d.exceeded_by(49));
}

#[test]
fn a_finished_position_takes_no_nodes() {
    let b = Board::new(1, vec![0, 5, 0, 5], Player::P0).unwrap();
    let rules = Rules::default();
    assert_eq!(analyze(&b, rules, 100, 3).nodes, 0);
    for limit in [Limit::Depth(1), Limit::Nodes(1000), Limit::Time(5)] {
        let a = play_search(&b, rules, None, limit, false, false, true);
        assert_eq!(a.best_move, None);
        assert_eq!((a.value, a.nodes, a.depth), (0, 0, Some(1)));
    }
    let b = Board::new(1, vec![0, 5, 2, 5], Player::P1).unwrap();
    let a = play_search(&b, rules, None, Limit::Nodes(1000), true, true, true);
    assert_eq!(a.value, 200);
}

#[test]
fn variations_are_no_longer_than_the_depth() {
    let tb = Tablebase::build(Rules::default(), 4, 8);
    for d in 1..6 {
        let b = Board::start(4, 3, Player::P0).unwrap();
        for table in [None, Some(&tb)] {
            let a = play_search(&b, Rules::default(), table, Limit::Depth(d), true, true, true);
            assert!(!a.pv.is_empty() && a.pv.len() <= d as usize);
            assert_eq!(a.pv[0], a.best_move.unwrap());
        }
    }
}

#[test]
fn a_node_budget_buys_depth() {
    // At most twelve nodes for the first ply of the standard opening, 156 for the next.
    let b = Board::start(6, 4, Player::P0).unwrap();
    let rules = Rules::default();
    let a = play_search(&b, rules, None, Limit::Nodes(168), false, false, true);
    assert!(a.depth.unwrap() >= 2);
    assert_eq!(a.move_evals.len(), 6);
    let deep = play_search(&b, rules, None, Limit::Nodes(20_000), false, false, true);
    assert!(deep.depth.unwrap() >= 3);
}

#[test]
fn a_scant_budget_is_used_up() {
    // The line of first tries has 141 moves to look at from the standard opening.
    let rules = Rules::default();
    let b = Board::start(6, 4, Player::P0).unwrap();
    for budget in [0, 1, 100, 140] {
        assert!(solve_within(&b, rules, budget, None).is_none());
        assert_eq!(analyze(&b, rules, budget, 2).depth, Some(2));
    }
    // And from smaller ones 48 and 39.
    for (pits, seeds, least) in [(6, 2, 48), (3, 3, 39)] {
        let b = Board::start(pits, seeds, Player::P1).unwrap();
        assert!(solve_within(&b, rules, least - 1, None).is_none());
        let a = solve_within(&b, rules, 40_000_000, None).unwrap();
        assert!(a.nodes >= least);
    }
}

#[test]
fn a_search_to_a_depth_visits_what_it_must() {
    // Six moves at the root, and the replies to the one that is tried first.
    let b = Board::start(6, 4, Player::P0).unwrap();
    let a = play_search(&b, Rules::default(), None, Limit::Depth(1), false, false, true);
    assert_eq!(a.nodes, 6);
    let a = play_search(&b, Rules::default(), None, Limit::Depth(2), false, false, true);
    assert!(a.nodes >= 11 && a.nodes <= 156);
}

#[test]
fn margin_is_known_only_when_exact() {
    let b = Board::start(6, 4, Player::P0).unwrap();
    let a = analyze(&b, Rules::default(), 10, 3);
    assert_eq!(a.margin_seeds(), None);
    let b = Board::new(1, vec![0, 9, 3, 0], Player::P1).unwrap();
    let a = solve_exact(&b);
    assert_eq!(a.margin_seeds(), Some(-6));
    assert_eq!(a.outcome(), Outcome::Loss);
}
