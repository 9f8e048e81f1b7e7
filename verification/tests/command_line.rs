//! The options of the command line.

use mancala::board::{Board, Player};
use mancala::cli::{check_table, is_wanted};
use mancala::options::{
    read_options, read_request, requested_board, requested_match, requested_table, Command,
    Options, Request, TableJob, TableRefusal,
};
use mancala::playtest::Engine;
use mancala::solver::Limit;
use mancala::tablebase::Tablebase;
use mancala::Rules;

fn words(s: &str) -> Vec<String> {
    s.split_whitespace().map(|w| w.to_string()).collect()
}

fn options(c: Command, s: &str) -> Options {
    match read_options(c, &words(s)) {
        Ok(o) => o,
        Err(e) => panic!("{e}"),
    }
}

fn complaint(c: Command, s: &str) -> String {
    read_options(c, &words(s)).err().unwrap()
}

#[test]
fn commands_are_named_by_the_first_word() {
    for s in ["", "-h", "--help x", "help"] {
        assert_eq!(read_request(&words(s)), Ok(Request::Help));
    }
    for c in [
        Command::Analyze,
        Command::Start,
        Command::GenTb,
        Command::GenBook,
        Command::Playtest,
    ] {
        assert_eq!(read_request(&words(c.name())), Ok(Request::Run(c)));
    }
    assert_eq!(
        read_request(&words("solve -h")),
        Err("unknown command 'solve'".to_string())
    );
}

#[test]
fn options_have_defaults() {
    let o = options(Command::Start, "");
    assert_eq!(o.turn, Player::P0);
    assert_eq!(o.budget, 20_000_000);
    assert_eq!(o.depth, 11);
    assert!(o.rules.capture_requires_nonempty_opposite);
    assert_eq!((o.pits, o.seeds), (6, 4));
    assert!(o.tb.is_none() && o.book.is_none() && !o.no_tb && o.seeds_cap.is_none());
}

#[test]
fn options_are_read_from_left_to_right() {
    let o = options(
        Command::Start,
        "--turn north --budget 5 --depth +3 --capture-empty --tb x.tb --no-tb --seeds-cap 9 \
         --pits 4 --seeds 3 --book y.bin --pits 5",
    );
    assert_eq!(o.turn, Player::P1);
    assert_eq!((o.budget, o.depth), (5, 3));
    assert!(!o.rules.capture_requires_nonempty_opposite);
    assert_eq!(o.tb.as_deref(), Some("x.tb"));
    assert_eq!(o.book.as_deref(), Some("y.bin"));
    assert!(o.no_tb);
    assert_eq!(o.seeds_cap, Some(9));
    // The last word counts.
    assert_eq!((o.pits, o.seeds), (5, 3));
    let o = options(Command::Analyze, "-b 1,0|1,0");
    assert_eq!(o.board.as_deref(), Some("1,0|1,0"));
    let o = options(Command::GenTb, "-o f");
    assert_eq!(o.out.as_deref(), Some("f"));
}

#[test]
fn bad_options_are_refused() {
    assert_eq!(
        complaint(Command::Start, "--budget -1"),
        "--budget must be a non-negative integer"
    );
    assert_eq!(
        complaint(Command::Start, "--depth 4294967296"),
        "--depth must be a non-negative integer"
    );
    assert_eq!(
        complaint(Command::GenTb, "--seeds-cap x"),
        "--seeds-cap must be a non-negative integer"
    );
    assert_eq!(complaint(Command::Start, "--pits x"), "--pits must be a positive integer");
    assert_eq!(complaint(Command::Start, "--seeds 256"), "--seeds must be 0..=255");
    assert_eq!(complaint(Command::Start, "--no-tb --turn"), "flag '--turn' requires a value");
    assert_eq!(
        complaint(Command::Start, "--turn x"),
        "invalid --turn 'x' (use 0/p0/south or 1/p1/north)"
    );
    assert_eq!(
        complaint(Command::Analyze, "--pits 3"),
        "unknown flag '--pits' for 'analyze'"
    );
    assert_eq!(
        complaint(Command::Start, "--board x"),
        "unknown flag '--board' for 'start'"
    );
    assert_eq!(complaint(Command::GenTb, "--tb x"), "unknown flag '--tb' for 'gen-tb'");
    assert_eq!(complaint(Command::Start, "--what"), "unknown flag '--what' for 'start'");
    assert_eq!(complaint(Command::Playtest, "--a h:x"), "bad depth in 'h:x'");
    // The first complaint counts.
    assert_eq!(
        complaint(Command::Start, "--seeds 256 --what"),
        "--seeds must be 0..=255"
    );
}

#[test]
fn positions_come_from_notation_or_the_opening() {
    let o = options(Command::Analyze, "--turn 1 --board 1,2,0|3,4,5");
    let b = requested_board(Command::Analyze, &o).unwrap();
    assert_eq!(b.cells(), &[1, 2, 0, 3, 4, 5]);
    assert_eq!(b.turn(), Player::P1);
    let o = options(Command::Analyze, "");
    assert_eq!(
        requested_board(Command::Analyze, &o),
        Err("analyze requires --board \"<notation>\"".to_string())
    );
    let o = options(Command::Start, "--pits 3 --seeds 2");
    assert_eq!(
        requested_board(Command::Start, &o),
        Board::start(3, 2, Player::P0)
    );
    let o = options(Command::Start, "--pits 0");
    assert_eq!(
        requested_board(Command::Start, &o),
        Board::start(0, 4, Player::P0)
    );
}

#[test]
fn tables_are_built_within_reason() {
    let job = |s: &str| requested_table(&options(Command::GenTb, s));
    assert_eq!(job(""), Err(TableRefusal::NoFile));
    assert_eq!(job("--pits 0 -o f"), Err(TableRefusal::NoPits));
    assert_eq!(
        job("--pits 2 --seeds-cap 2 -o f"),
        Ok(TableJob { pits: 2, cap: 2, entries: 15 })
    );
    // C(12 + 12, 12).
    assert_eq!(job("-o f"), Ok(TableJob { pits: 6, cap: 12, entries: 2_704_156 }));
    assert_eq!(
        job("--seeds-cap 30 -o f"),
        Err(TableRefusal::TooLarge(11_058_116_888))
    );
    assert_eq!(job("--pits 16 --seeds-cap 0 -o f"), Err(TableRefusal::NoSuchBoard));
    assert_eq!(job("--pits 1 --seeds-cap 256 -o f"), Err(TableRefusal::NoSuchBoard));
    assert_eq!(job("--pits 5000000000 -o f"), Err(TableRefusal::NoSuchBoard));
}

#[test]
fn matches_need_two_engines() {
    let o = options(
        Command::Playtest,
        "--a h:8 --b q:t5 --games 7 --threads 3 --seed 9 --plies 2 --pits 4 --seeds 3",
    );
    let (a, b, cfg) = requested_match(&o).unwrap();
    assert_eq!(a, Engine::Heuristic { limit: Limit::Depth(8) });
    assert_eq!(b, Engine::Play { limit: Limit::Time(5), quiesce: true, tt: true });
    assert_eq!((cfg.openings, cfg.threads, cfg.seed), (4, 3, 9));
    assert_eq!((cfg.pits, cfg.seeds, cfg.opening_plies), (4, 3, 2));
    assert_eq!(
        requested_match(&options(Command::Playtest, "--b h:1")).err().unwrap(),
        "playtest requires --a <engine>"
    );
    assert_eq!(
        requested_match(&options(Command::Playtest, "--a h:1")).err().unwrap(),
        "playtest requires --b <engine>"
    );
}

#[test]
fn tables_have_to_fit_the_board() {
    let tb = Tablebase::build(Rules::default(), 2, 3);
    assert_eq!(check_table(&tb, 2), Ok(()));
    assert_eq!(
        check_table(&tb, 6),
        Err("tablebase is for 2-pit boards, but this board has 6 pits per side".to_string())
    );
    assert!(is_wanted(&tb, 2, 3));
    assert!(!is_wanted(&tb, 2, 4));
    assert!(!is_wanted(&tb, 3, 3));
}
