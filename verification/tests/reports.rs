//! What the front ends say and decide.

use mancala::board::{Board, Player, Rules};
use mancala::cli::{cache_name, parse_turn, plan_tablebase, table_size, TablePlan};
use mancala::report::{render_analysis, render_board, render_pv};
use mancala::solver::{analyze, Analysis, MoveEval};
use mancala::tablebase::Tablebase;
use mancala::web::{analysis_json, analyze_json, apply_json, json_error, start_json};

fn eval(pit: usize, value: i32, bound: bool, extra_turn: bool, captured: bool) -> MoveEval {
    MoveEval { pit, value, bound, extra_turn, captured }
}

fn sample() -> Analysis {
    Analysis {
        exact: true,
        side_to_move: Player::P0,
        value: 6,
        best_move: Some(1),
        move_evals: vec![
            eval(1, 6, false, true, false),
            eval(2, 2, true, false, false),
            eval(0, -6, true, true, true),
        ],
        pv: vec![1, 2, 1],
        nodes: 531960,
        depth: None,
    }
}

#[test]
fn boards_are_drawn_with_both_rows() {
    let b = Board::start(4, 3, Player::P0).unwrap();
    assert_eq!(
        render_board(&b),
        "        N (P1)\n         \
         3   3   3   3\n   \
         0 ---------------  0   (P1 store | P0 store)\n         \
         3   3   3   3\n        \
         S (P0)"
    );
    let b = Board::new(2, vec![1, 20, 3, 40, 100, 60], Player::P0).unwrap();
    assert_eq!(
        render_board(&b),
        "        N (P1)\n       100  40\n  60 -------  3   (P1 store | P0 store)\n         \
         1  20\n        S (P0)"
    );
}

#[test]
fn exact_analyses_are_reported() {
    let b = Board::start(4, 3, Player::P0).unwrap();
    assert_eq!(
        render_analysis(&b, &Rules::default(), &sample()),
        "Analysis mode: EXACT (solved to game end)\n\
         Nodes searched: 531960\n\n\
         Result for P0 (South): WIN (perfect play ends + 6 seeds)\n\
         Best move: pit 1\n\n\
         Move evaluations (best first):\n  \
         * pit 1: +6 seeds  [extra turn]\n    \
         pit 2: ≤ +2 seeds\n    \
         pit 0: ≤ -6 seeds  [extra turn, capture]\n  \
         (≤ marks moves proven no better than the best; exact value not computed)\n\n\
         Principal variation:\n  \
         P0:1↻  →  P0:2  →  P1:1\n"
    );
}

#[test]
fn estimates_are_reported_as_such() {
    let b = Board::start(4, 3, Player::P1).unwrap();
    let mut a = sample();
    a.exact = false;
    a.depth = Some(11);
    a.value = -1;
    a.move_evals = vec![eval(3, -1, false, false, true)];
    a.best_move = Some(3);
    a.pv = vec![];
    assert_eq!(
        render_analysis(&b, &Rules::default(), &a),
        "Analysis mode: HEURISTIC (depth 11 plies — not provably optimal)\n\
         Nodes searched: 531960\n\n\
         Best guess for P1 (North): LOSS (heuristic score -1)\n\
         Best move: pit 3\n\n\
         Move evaluations (best first):\n  \
         * pit 3: -1 score  [capture]\n"
    );
    a.exact = true;
    a.depth = None;
    assert!(render_analysis(&b, &Rules::default(), &a)
        .contains("Result for P1 (North): LOSS (perfect play ends - 1 seed)\n"));
}

#[test]
fn finished_games_are_reported() {
    let b = Board::new(3, vec![0, 0, 0, 9, 1, 2, 3, 3], Player::P0).unwrap();
    let a = analyze(&b, Rules::default(), u64::MAX, 12);
    assert_eq!(
        render_analysis(&b, &Rules::default(), &a),
        "Analysis mode: EXACT (solved to game end)\n\
         Nodes searched: 0\n\n\
         Position is TERMINAL — no moves available.\n\
         Final score: P0 9 — P1 9\n\
         Result for P0 (South): DRAW\n"
    );
}

#[test]
fn variations_are_replayed_under_the_rules_of_the_game() {
    // A lone seed steps into an empty pit that faces an empty one.
    let b = Board::new(2, vec![1, 0, 0, 0, 3, 0], Player::P0).unwrap();
    let strict = Rules { capture_requires_nonempty_opposite: true };
    let free = Rules { capture_requires_nonempty_opposite: false };
    assert_eq!(render_pv(&b, &strict, &vec![0, 1]), "P0:0  →  P1:1");
    assert_eq!(render_pv(&b, &free, &vec![0, 1]), "P0:0×");
    // A pit that is not there ends the line.
    assert_eq!(render_pv(&b, &strict, &vec![7]), "");
}

#[test]
fn turns_are_named_in_any_case() {
    for s in ["0", "p0", "P0", "south", "SoUtH", "S"] {
        assert_eq!(parse_turn(s), Ok(Player::P0));
    }
    for s in ["1", "p1", "P1", "NORTH", "n"] {
        assert_eq!(parse_turn(s), Ok(Player::P1));
    }
    assert_eq!(
        parse_turn("East-Ä2Z"),
        Err("invalid --turn 'east-Ä2z' (use 0/p0/south or 1/p1/north)".to_string())
    );
}

#[test]
fn automatic_tablebases_are_for_middling_boards() {
    let b = Board::start(6, 4, Player::P0).unwrap();
    assert_eq!(plan_tablebase(&b, false, None), TablePlan::With(14));
    assert_eq!(plan_tablebase(&b, true, None), TablePlan::Without);
    assert_eq!(plan_tablebase(&b, false, Some(5)), TablePlan::With(5));
    assert_eq!(plan_tablebase(&b, false, Some(25)), TablePlan::TooLarge(25));
    let b = Board::start(7, 4, Player::P0).unwrap();
    assert_eq!(plan_tablebase(&b, false, None), TablePlan::Without);
    let b = Board::start(6, 2, Player::P0).unwrap();
    assert_eq!(plan_tablebase(&b, false, None), TablePlan::Without);
    // 34 seeds in play are just enough.
    let b = Board::new(2, vec![10, 10, 0, 10, 4, 0], Player::P0).unwrap();
    assert_eq!(plan_tablebase(&b, false, None), TablePlan::With(14));
    let b = Board::new(2, vec![10, 10, 1, 10, 3, 0], Player::P0).unwrap();
    assert_eq!(plan_tablebase(&b, false, None), TablePlan::Without);
}

#[test]
fn requested_tables_have_a_largest_size() {
    assert_eq!(table_size(2, 2), Ok(15));
    assert_eq!(table_size(6, 14), Ok(9_657_700));
    assert_eq!(table_size(6, 30), Err(11_058_116_888));
    assert_eq!(table_size(100, 1000), Err(u64::MAX));
}

#[test]
fn cached_tables_are_named_by_their_rules() {
    assert_eq!(cache_name(6, 14, &Rules::default()), "kalah_p6_cap14_capnonempty.tb");
    let free = Rules { capture_requires_nonempty_opposite: false };
    assert_eq!(cache_name(4, 9, &free), "kalah_p4_cap9_capany.tb");
}

#[test]
fn web_errors_are_quoted_safely() {
    assert_eq!(json_error("bad \"x\""), "{\"error\":\"bad 'x'\"}");
}

#[test]
fn web_start() {
    assert_eq!(
        start_json(2, 3, 1),
        "{\"notation\":\"3,3,0 | 3,3,0\",\"turn\":1}"
    );
    assert_eq!(start_json(2, 256, 0), "{\"error\":\"seeds out of range\"}");
    assert_eq!(
        start_json(0, 3, 0),
        format!("{{\"error\":\"{}\"}}", Board::start(0, 3, Player::P0).unwrap_err())
    );
}

#[test]
fn web_apply() {
    assert_eq!(
        apply_json("1,0,0 | 5,1,0", 0, 0, 0),
        "{\"notation\":\"0,0,6 | 0,1,0\",\"turn\":1,\"extra_turn\":false,\"captured\":true,\
         \"terminal\":true}"
    );
    assert_eq!(
        apply_json("1,1,0 | 5,1,0", 0, 1, 0),
        "{\"notation\":\"1,0,1 | 5,1,0\",\"turn\":0,\"extra_turn\":true,\"captured\":false,\
         \"terminal\":false}"
    );
    assert_eq!(
        apply_json("0,0,0 | 5,1,0", 1, 0, 0),
        "{\"error\":\"game is already over\"}"
    );
    assert_eq!(apply_json("1,0,0 | 5,1,0", 0, 1, 0), "{\"error\":\"illegal move\"}");
    assert_eq!(apply_json("1,0,0 | 5,1,0", 0, 2, 0), "{\"error\":\"illegal move\"}");
    assert_eq!(
        apply_json("1,0,0", 0, 2, 0),
        "{\"error\":\"expected exactly one '|' separating the two sides, found 0\"}"
    );
    // An empty opposite pit is only captured where the rules allow it.
    assert!(apply_json("1,0,0 | 0,3,0", 0, 0, 0).contains("\"captured\":false"));
    assert!(apply_json("1,0,0 | 0,3,0", 0, 0, 1).contains("\"captured\":true"));
}

#[test]
fn web_analysis() {
    assert_eq!(
        analysis_json(&sample()),
        "{\"exact\":true,\"side\":0,\"value\":6,\"outcome\":\"WIN\",\"best\":1,\"nodes\":531960,\
         \"depth\":-1,\"pv\":[1,2,1],\"evals\":[\
         {\"pit\":1,\"value\":6,\"bound\":false,\"extra\":true,\"capture\":false},\
         {\"pit\":2,\"value\":2,\"bound\":true,\"extra\":false,\"capture\":false},\
         {\"pit\":0,\"value\":-6,\"bound\":true,\"extra\":true,\"capture\":true}]}"
    );
    let tb = Tablebase::build(Rules::default(), 2, 7);
    let s = analyze_json("1,0,0 | 5,1,0", 0, 1000, 4, 0, Some(&tb));
    assert!(s.starts_with("{\"exact\":true,\"side\":0,\"value\":5,\"outcome\":\"WIN\",\"best\":0,"));
    let s = analyze_json("0,0,0 | 5,1,0", 1, 1000, 4, 0, None);
    assert_eq!(
        s,
        "{\"exact\":true,\"side\":1,\"value\":6,\"outcome\":\"WIN\",\"best\":-1,\"nodes\":0,\
         \"depth\":-1,\"pv\":[],\"evals\":[]}"
    );
    assert_eq!(
        analyze_json("x,0 | 1,0", 0, 10, 1, 0, None),
        "{\"error\":\"'x' is not a valid seed count (0..=255)\"}"
    );
}
