//! The options of the command line.

use vstd::prelude::*;

use crate::board;
use crate::board::{Board, Player, Rules};
use crate::cli;
use crate::counting;
use crate::notation;
use crate::playtest;
use crate::playtest::{Engine, MatchConfig};
use crate::text;

verus! {

// ---------------------------------------------------------------------------
// Commands and flags
// ---------------------------------------------------------------------------

/// A subcommand that takes options.
#[derive(Clone, Copy, Debug, PartialEq, Eq, Structural)]
pub enum Command {
    Analyze,
    Start,
    GenTb,
    GenBook,
    Playtest,
}

impl Command {
    /// The name of the command.
    pub open spec fn name_text(self) -> Seq<char> {
        match self {
            Command::Analyze => "analyze"@,
            Command::Start => "start"@,
            Command::GenTb => "gen-tb"@,
            Command::GenBook => "gen-book"@,
            Command::Playtest => "playtest"@,
        }
    }

    /// The name of the command.
    pub fn name(self) -> (t: &'static str)
        ensures
            t@ == self.name_text(),
            self is Analyze ==> t@ == "analyze"@,
            self is Start ==> t@ == "start"@,
            self is GenTb ==> t@ == "gen-tb"@,
            self is GenBook ==> t@ == "gen-book"@,
            self is Playtest ==> t@ == "playtest"@,
    {
        match self {
            Command::Analyze => "analyze",
            Command::Start => "start",
            Command::GenTb => "gen-tb",
            Command::GenBook => "gen-book",
            Command::Playtest => "playtest",
        }
    }
}

/// What the command line asks for.
#[derive(Clone, Copy, Debug, PartialEq, Eq, Structural)]
pub enum Request {
    Help,
    Run(Command),
}

/// What the first word asks for, or the complaint about it.
pub open spec fn request_of(words: Seq<Seq<char>>) -> Result<Request, Seq<char>> {
    if words.len() == 0 || words[0] == "-h"@ || words[0] == "--help"@ || words[0] == "help"@ {
        Ok(Request::Help)
    } else if words[0] == "analyze"@ {
        Ok(Request::Run(Command::Analyze))
    } else if words[0] == "start"@ {
        Ok(Request::Run(Command::Start))
    } else if words[0] == "gen-tb"@ {
        Ok(Request::Run(Command::GenTb))
    } else if words[0] == "gen-book"@ {
        Ok(Request::Run(Command::GenBook))
    } else if words[0] == "playtest"@ {
        Ok(Request::Run(Command::Playtest))
    } else {
        Err("unknown command '"@ + words[0] + "'"@)
    }
}

/// The words of the command line.
pub open spec fn words(args: Seq<String>) -> Seq<Seq<char>> {
    Seq::new(args.len(), |i: int| args[i]@)
}

/// What the first word of the command line asks for.
pub fn read_request(args: &[String]) -> (res: Result<Request, String>)
    ensures
        match res {
            Ok(r) => request_of(words(args@)) == Ok::<Request, Seq<char>>(r),
            Err(e) => request_of(words(args@)) == Err::<Request, Seq<char>>(e@),
        },
        res matches Ok(Request::Run(c)) ==> args@.len() > 0 && args@[0]@ == match c {
            Command::Analyze => "analyze"@,
            Command::Start => "start"@,
            Command::GenTb => "gen-tb"@,
            Command::GenBook => "gen-book"@,
            Command::Playtest => "playtest"@,
        },
        res == Ok::<Request, String>(Request::Help) <==> args@.len() == 0 || args@[0]@ == "-h"@
            || args@[0]@ == "--help"@ || args@[0]@ == "help"@,
        res matches Err(e) ==> {
            let word = args@[0]@;
            &&& e@ == "unknown command '"@ + word + "'"@
            &&& word != "analyze"@ && word != "start"@ && word != "gen-tb"@
            &&& word != "gen-book"@ && word != "playtest"@
        },
{
    if args.len() == 0 {
        return Ok(Request::Help);
    }
    let first = args[0].as_str();
    assert(words(args@)[0] == first@);
    if text::same(first, "-h") || text::same(first, "--help") || text::same(first, "help") {
        Ok(Request::Help)
    } else if text::same(first, "analyze") {
        Ok(Request::Run(Command::Analyze))
    } else if text::same(first, "start") {
        Ok(Request::Run(Command::Start))
    } else if text::same(first, "gen-tb") {
        Ok(Request::Run(Command::GenTb))
    } else if text::same(first, "gen-book") {
        Ok(Request::Run(Command::GenBook))
    } else if text::same(first, "playtest") {
        Ok(Request::Run(Command::Playtest))
    } else {
        let mut e = String::from_str("unknown command '");
        e.append(first);
        e.append("'");
        Err(e)
    }
}

/// A flag.
#[derive(Clone, Copy, Debug, PartialEq, Eq, Structural)]
pub enum Flag {
    /// Side to move.
    Turn,
    /// Node budget of an exact search.
    Budget,
    /// Depth of the fallback search.
    Depth,
    /// Allow captures when the opposite pit is empty.
    CaptureEmpty,
    /// A tablebase file.
    Tb,
    /// An opening book file.
    Book,
    /// No automatic tablebase.
    NoTb,
    /// Seed cap of a tablebase.
    SeedsCap,
    /// A position in notation.
    Board,
    /// Pits per side.
    Pits,
    /// Seeds per pit.
    Seeds,
    /// The file to write.
    Out,
    /// Moves from the opening.
    Plies,
    /// The first engine of a match.
    A,
    /// The second engine of a match.
    B,
    /// The games of a match.
    Games,
    /// The threads of a match.
    Threads,
    /// The seed of the opening book of a match.
    Seed,
}

/// The flag that a word names.
pub open spec fn flag_of(word: Seq<char>) -> Option<Flag> {
    if word == "--turn"@ {
        Some(Flag::Turn)
    } else if word == "--budget"@ {
        Some(Flag::Budget)
    } else if word == "--depth"@ {
        Some(Flag::Depth)
    } else if word == "--capture-empty"@ {
        Some(Flag::CaptureEmpty)
    } else if word == "--tb"@ {
        Some(Flag::Tb)
    } else if word == "--book"@ {
        Some(Flag::Book)
    } else if word == "--no-tb"@ {
        Some(Flag::NoTb)
    } else if word == "--seeds-cap"@ {
        Some(Flag::SeedsCap)
    } else if word == "--board"@ || word == "-b"@ {
        Some(Flag::Board)
    } else if word == "--pits"@ {
        Some(Flag::Pits)
    } else if word == "--seeds"@ {
        Some(Flag::Seeds)
    } else if word == "--out"@ || word == "-o"@ {
        Some(Flag::Out)
    } else if word == "--plies"@ {
        Some(Flag::Plies)
    } else if word == "--a"@ {
        Some(Flag::A)
    } else if word == "--b"@ {
        Some(Flag::B)
    } else if word == "--games"@ {
        Some(Flag::Games)
    } else if word == "--threads"@ {
        Some(Flag::Threads)
    } else if word == "--seed"@ {
        Some(Flag::Seed)
    } else {
        None
    }
}

/// The flag that a word names.
fn read_flag(word: &str) -> (f: Option<Flag>)
    ensures
        f == flag_of(word@),
{
    if text::same(word, "--turn") {
        Some(Flag::Turn)
    } else if text::same(word, "--budget") {
        Some(Flag::Budget)
    } else if text::same(word, "--depth") {
        Some(Flag::Depth)
    } else if text::same(word, "--capture-empty") {
        Some(Flag::CaptureEmpty)
    } else if text::same(word, "--tb") {
        Some(Flag::Tb)
    } else if text::same(word, "--book") {
        Some(Flag::Book)
    } else if text::same(word, "--no-tb") {
        Some(Flag::NoTb)
    } else if text::same(word, "--seeds-cap") {
        Some(Flag::SeedsCap)
    } else if text::same(word, "--board") || text::same(word, "-b") {
        Some(Flag::Board)
    } else if text::same(word, "--pits") {
        Some(Flag::Pits)
    } else if text::same(word, "--seeds") {
        Some(Flag::Seeds)
    } else if text::same(word, "--out") || text::same(word, "-o") {
        Some(Flag::Out)
    } else if text::same(word, "--plies") {
        Some(Flag::Plies)
    } else if text::same(word, "--a") {
        Some(Flag::A)
    } else if text::same(word, "--b") {
        Some(Flag::B)
    } else if text::same(word, "--games") {
        Some(Flag::Games)
    } else if text::same(word, "--threads") {
        Some(Flag::Threads)
    } else if text::same(word, "--seed") {
        Some(Flag::Seed)
    } else {
        None
    }
}

/// The command takes the flag.
pub open spec fn takes(c: Command, f: Flag) -> bool {
    match f {
        Flag::CaptureEmpty => true,
        Flag::Turn | Flag::Budget | Flag::Depth | Flag::Book | Flag::NoTb => c == Command::Analyze
            || c == Command::Start,
        Flag::Tb => c != Command::GenTb,
        Flag::SeedsCap => c == Command::Analyze || c == Command::Start || c == Command::GenTb,
        Flag::Board => c == Command::Analyze,
        Flag::Pits => c != Command::Analyze,
        Flag::Seeds => c == Command::Start || c == Command::GenBook || c == Command::Playtest,
        Flag::Out => c == Command::GenTb || c == Command::GenBook,
        Flag::Plies => c == Command::GenBook || c == Command::Playtest,
        Flag::A | Flag::B | Flag::Games | Flag::Threads | Flag::Seed => c == Command::Playtest,
    }
}

/// Whether the command takes the flag.
fn is_taken(c: Command, f: Flag) -> (t: bool)
    ensures
        t == takes(c, f),
{
    match f {
        Flag::CaptureEmpty => true,
        Flag::Turn | Flag::Budget | Flag::Depth | Flag::Book | Flag::NoTb => c == Command::Analyze
            || c == Command::Start,
        Flag::Tb => c != Command::GenTb,
        Flag::SeedsCap => c == Command::Analyze || c == Command::Start || c == Command::GenTb,
        Flag::Board => c == Command::Analyze,
        Flag::Pits => c != Command::Analyze,
        Flag::Seeds => c == Command::Start || c == Command::GenBook || c == Command::Playtest,
        Flag::Out => c == Command::GenTb || c == Command::GenBook,
        Flag::Plies => c == Command::GenBook || c == Command::Playtest,
        Flag::A | Flag::B | Flag::Games | Flag::Threads | Flag::Seed => c == Command::Playtest,
    }
}

// ---------------------------------------------------------------------------
// Options
// ---------------------------------------------------------------------------

/// The exact-search node budget, unless another is asked for.
pub const DEFAULT_BUDGET: u64 = 20_000_000;

/// The depth of the fallback search, unless another is asked for.
pub const DEFAULT_FALLBACK_DEPTH: u32 = 11;

/// The seed cap of a tablebase that is built on request, unless another is asked for.
pub const DEFAULT_TABLE_CAP: u32 = 12;

/// The options of a command.
pub struct Options {
    pub turn: Player,
    pub budget: u64,
    pub depth: u32,
    pub rules: Rules,
    /// A tablebase file.
    pub tb: Option<String>,
    /// An opening book file.
    pub book: Option<String>,
    /// Disable the automatic tablebase.
    pub no_tb: bool,
    pub seeds_cap: Option<u32>,
    /// A position in notation.
    pub board: Option<String>,
    pub pits: usize,
    pub seeds: u8,
    /// The file to write.
    pub out: Option<String>,
    pub plies: Option<u32>,
    pub a: Option<Engine>,
    pub b: Option<Engine>,
    pub games: usize,
    pub threads: usize,
    pub seed: u64,
}

/// The options of a command, with their texts as sequences.
#[verifier::ext_equal]
pub struct Choices {
    pub turn: Player,
    pub budget: u64,
    pub depth: u32,
    pub rules: Rules,
    pub tb: Option<Seq<char>>,
    pub book: Option<Seq<char>>,
    pub no_tb: bool,
    pub seeds_cap: Option<u32>,
    pub board: Option<Seq<char>>,
    pub pits: usize,
    pub seeds: u8,
    pub out: Option<Seq<char>>,
    pub plies: Option<u32>,
    pub a: Option<Engine>,
    pub b: Option<Engine>,
    pub games: usize,
    pub threads: usize,
    pub seed: u64,
}

/// The text of an option that may be absent.
pub open spec fn option_text(t: Option<String>) -> Option<Seq<char>> {
    match t {
        Some(s) => Some(s@),
        None => None,
    }
}

/// What holds where nothing else is asked for.
pub open spec fn defaults() -> Choices {
    Choices {
        turn: Player::P0,
        budget: DEFAULT_BUDGET,
        depth: DEFAULT_FALLBACK_DEPTH,
        rules: Rules { capture_requires_nonempty_opposite: true },
        tb: None,
        book: None,
        no_tb: false,
        seeds_cap: None,
        board: None,
        pits: 6,
        seeds: 4,
        out: None,
        plies: None,
        a: None,
        b: None,
        games: 1000,
        threads: 1,
        seed: 1,
    }
}

impl View for Options {
    type V = Choices;

    open spec fn view(&self) -> Choices {
        Choices {
            turn: self.turn,
            budget: self.budget,
            depth: self.depth,
            rules: self.rules,
            tb: option_text(self.tb),
            book: option_text(self.book),
            no_tb: self.no_tb,
            seeds_cap: self.seeds_cap,
            board: option_text(self.board),
            pits: self.pits,
            seeds: self.seeds,
            out: option_text(self.out),
            plies: self.plies,
            a: self.a,
            b: self.b,
            games: self.games,
            threads: self.threads,
            seed: self.seed,
        }
    }
}

impl Default for Options {
    fn default() -> (o: Options)
        ensures
            o@ == defaults(),
            o.turn is P0 && o.rules.capture_requires_nonempty_opposite,
            o.budget == 20_000_000 && o.depth == 11,
            o.pits == 6 && o.seeds == 4,
            o.tb is None && o.book is None && !o.no_tb && o.seeds_cap is None,
            o.board is None && o.out is None && o.plies is None && o.a is None && o.b is None,
            o.games == 1000 && o.threads == 1 && o.seed == 1,
    {
        Options {
            turn: Player::P0,
            budget: DEFAULT_BUDGET,
            depth: DEFAULT_FALLBACK_DEPTH,
            rules: Rules { capture_requires_nonempty_opposite: true },
            tb: None,
            book: None,
            no_tb: false,
            seeds_cap: None,
            board: None,
            pits: 6,
            seeds: 4,
            out: None,
            plies: None,
            a: None,
            b: None,
            games: 1000,
            threads: 1,
            seed: 1,
        }
    }
}

/// The flag stands alone: no value follows it.
pub open spec fn is_switch(f: Flag) -> bool {
    f == Flag::CaptureEmpty || f == Flag::NoTb
}

/// The options after a flag that stands alone.
pub open spec fn switched(o: Choices, f: Flag) -> Choices {
    match f {
        Flag::CaptureEmpty => Choices {
            rules: Rules { capture_requires_nonempty_opposite: false },
            ..o
        },
        Flag::NoTb => Choices { no_tb: true, ..o },
        _ => o,
    }
}

/// The largest number that may follow a flag.
pub open spec fn largest(f: Flag) -> int {
    match f {
        Flag::Budget | Flag::Seed => u64::MAX as int,
        Flag::Depth | Flag::SeedsCap | Flag::Plies => u32::MAX as int,
        Flag::Seeds => 255,
        _ => usize::MAX as int,
    }
}

/// What the number that follows a flag has to be.
pub open spec fn wanted(f: Flag) -> Seq<char> {
    match f {
        Flag::Pits | Flag::Games | Flag::Threads => "a positive integer"@,
        Flag::Seeds => "0..=255"@,
        _ => "a non-negative integer"@,
    }
}

/// The complaint about a number.
pub open spec fn bad_number(word: Seq<char>, f: Flag) -> Seq<char> {
    word + " must be "@ + wanted(f)
}

/// The options after a flag, `word`, and the number that follows it.
pub open spec fn numbered(o: Choices, f: Flag, n: int) -> Choices {
    match f {
        Flag::Budget => Choices { budget: n as u64, ..o },
        Flag::Depth => Choices { depth: n as u32, ..o },
        Flag::SeedsCap => Choices { seeds_cap: Some(n as u32), ..o },
        Flag::Pits => Choices { pits: n as usize, ..o },
        Flag::Seeds => Choices { seeds: n as u8, ..o },
        Flag::Plies => Choices { plies: Some(n as u32), ..o },
        Flag::Games => Choices { games: n as usize, ..o },
        Flag::Threads => Choices { threads: n as usize, ..o },
        Flag::Seed => Choices { seed: n as u64, ..o },
        _ => o,
    }
}

/// The options after a flag, written `word`, and the value that follows it, or the
/// complaint about the value.
pub open spec fn valued(o: Choices, f: Flag, word: Seq<char>, v: Seq<char>) -> Result<
    Choices,
    Seq<char>,
> {
    match f {
        Flag::Turn => match cli::turn_of(v) {
            Ok(p) => Ok(Choices { turn: p, ..o }),
            Err(e) => Err(e),
        },
        Flag::Tb => Ok(Choices { tb: Some(v), ..o }),
        Flag::Book => Ok(Choices { book: Some(v), ..o }),
        Flag::Board => Ok(Choices { board: Some(v), ..o }),
        Flag::Out => Ok(Choices { out: Some(v), ..o }),
        Flag::A => match playtest::engine_of(v) {
            Ok(e) => Ok(Choices { a: Some(e), ..o }),
            Err(e) => Err(e),
        },
        Flag::B => match playtest::engine_of(v) {
            Ok(e) => Ok(Choices { b: Some(e), ..o }),
            Err(e) => Err(e),
        },
        _ => match text::number(v, largest(f)) {
            Some(n) => Ok(numbered(o, f, n)),
            None => Err(bad_number(word, f)),
        },
    }
}

/// The complaint about a word that is no flag of the command.
pub open spec fn unknown_flag(c: Command, word: Seq<char>) -> Seq<char> {
    "unknown flag '"@ + word + "' for '"@ + c.name_text() + "'"@
}

/// The complaint about a flag without its value.
pub open spec fn no_value(word: Seq<char>) -> Seq<char> {
    "flag '"@ + word + "' requires a value"@
}

/// The options after the words from number `i` on, read from left to right, or the
/// complaint about the first that cannot be understood.
pub open spec fn chosen(c: Command, words: Seq<Seq<char>>, i: int, o: Choices) -> Result<
    Choices,
    Seq<char>,
>
    decreases words.len() - i,
{
    if i >= words.len() {
        Ok(o)
    } else {
        match flag_of(words[i]) {
            Some(f) if takes(c, f) => if is_switch(f) {
                chosen(c, words, i + 1, switched(o, f))
            } else if i + 1 >= words.len() {
                Err(no_value(words[i]))
            } else {
                match valued(o, f, words[i], words[i + 1]) {
                    Ok(p) => chosen(c, words, i + 2, p),
                    Err(e) => Err(e),
                }
            },
            _ => Err(unknown_flag(c, words[i])),
        }
    }
}

fn complain_unknown(c: Command, word: &str) -> (e: String)
    ensures
        e@ == unknown_flag(c, word@),
{
    let mut e = String::from_str("unknown flag '");
    e.append(word);
    e.append("' for '");
    e.append(c.name());
    e.append("'");
    e
}

fn complain_no_value(word: &str) -> (e: String)
    ensures
        e@ == no_value(word@),
{
    let mut e = String::from_str("flag '");
    e.append(word);
    e.append("' requires a value");
    e
}

fn complain_number(word: &str, f: Flag) -> (e: String)
    ensures
        e@ == bad_number(word@, f),
{
    let mut e = String::from_str(word);
    e.append(" must be ");
    match f {
        Flag::Pits | Flag::Games | Flag::Threads => e.append("a positive integer"),
        Flag::Seeds => e.append("0..=255"),
        _ => e.append("a non-negative integer"),
    }
    e
}

/// The largest number that may follow a flag.
fn limit_of(f: Flag) -> (n: u64)
    ensures
        n == largest(f),
{
    match f {
        Flag::Budget | Flag::Seed => u64::MAX,
        Flag::Depth | Flag::SeedsCap | Flag::Plies => u32::MAX as u64,
        Flag::Seeds => 255,
        _ => usize::MAX as u64,
    }
}

impl Options {
    /// Take note of a flag that stands alone.
    fn switch(&mut self, f: Flag)
        ensures
            final(self)@ == switched(old(self)@, f),
    {
        match f {
            Flag::CaptureEmpty => {
                self.rules = Rules { capture_requires_nonempty_opposite: false };
            },
            Flag::NoTb => {
                self.no_tb = true;
            },
            _ => {},
        }
    }

    /// Take note of a flag and the number that follows it.
    fn set_number(&mut self, f: Flag, n: u64)
        requires
            n <= largest(f),
        ensures
            final(self)@ == numbered(old(self)@, f, n as int),
    {
        match f {
            Flag::Budget => {
                self.budget = n;
            },
            Flag::Depth => {
                self.depth = n as u32;
            },
            Flag::SeedsCap => {
                self.seeds_cap = Some(n as u32);
            },
            Flag::Pits => {
                self.pits = n as usize;
            },
            Flag::Seeds => {
                self.seeds = n as u8;
            },
            Flag::Plies => {
                self.plies = Some(n as u32);
            },
            Flag::Games => {
                self.games = n as usize;
            },
            Flag::Threads => {
                self.threads = n as usize;
            },
            Flag::Seed => {
                self.seed = n;
            },
            _ => {},
        }
    }

    /// Take note of a flag, written `word`, and the value that follows it.
    fn set(&mut self, f: Flag, word: &str, v: &str) -> (res: Result<(), String>)
        ensures
            match res {
                Ok(_) => valued(old(self)@, f, word@, v@) == Ok::<Choices, Seq<char>>(
                    final(self)@,
                ),
                Err(e) => valued(old(self)@, f, word@, v@) == Err::<Choices, Seq<char>>(e@),
            },
    {
        match f {
            Flag::Turn => match cli::parse_turn(v) {
                Ok(p) => {
                    self.turn = p;
                    Ok(())
                },
                Err(e) => Err(e),
            },
            Flag::Tb => {
                self.tb = Some(String::from_str(v));
                Ok(())
            },
            Flag::Book => {
                self.book = Some(String::from_str(v));
                Ok(())
            },
            Flag::Board => {
                self.board = Some(String::from_str(v));
                Ok(())
            },
            Flag::Out => {
                self.out = Some(String::from_str(v));
                Ok(())
            },
            Flag::A => match Engine::parse(v) {
                Ok(e) => {
                    self.a = Some(e);
                    Ok(())
                },
                Err(e) => Err(e),
            },
            Flag::B => match Engine::parse(v) {
                Ok(e) => {
                    self.b = Some(e);
                    Ok(())
                },
                Err(e) => Err(e),
            },
            _ => match text::parse_number(v, limit_of(f)) {
                Some(n) => {
                    self.set_number(f, n);
                    Ok(())
                },
                None => Err(complain_number(word, f)),
            },
        }
    }
}

/// The options of a command, from the words that follow its name.
pub fn read_options(c: Command, args: &[String]) -> (res: Result<Options, String>)
    ensures
        match res {
            Ok(o) => chosen(c, words(args@), 0, defaults()) == Ok::<Choices, Seq<char>>(o@),
            Err(e) => chosen(c, words(args@), 0, defaults()) == Err::<Choices, Seq<char>>(e@),
        },
{
    let ghost all = words(args@);
    let mut o = Options::default();
    let mut i: usize = 0;
    while i < args.len()
        invariant
            all == words(args@),
            i <= args@.len(),
            chosen(c, all, 0, defaults()) == chosen(c, all, i as int, o@),
        decreases args@.len() - i,
    {
        let word = args[i].as_str();
        assert(all[i as int] == word@);
        match read_flag(word) {
            Some(f) => {
                if !is_taken(c, f) {
                    return Err(complain_unknown(c, word));
                }
                if f == Flag::CaptureEmpty || f == Flag::NoTb {
                    o.switch(f);
                    i = i + 1;
                } else {
                    if args.len() - i < 2 {
                        return Err(complain_no_value(word));
                    }
                    let v = args[i + 1].as_str();
                    assert(all[i + 1] == v@);
                    match o.set(f, word, v) {
                        Ok(_) => {},
                        Err(e) => {
                            return Err(e);
                        },
                    }
                    i = i + 2;
                }
            },
            None => {
                return Err(complain_unknown(c, word));
            },
        }
    }
    Ok(o)
}

// ---------------------------------------------------------------------------
// What the options ask for
// ---------------------------------------------------------------------------

/// The cells of the position to analyze, or the complaint about it.
pub open spec fn wanted_cells(c: Command, o: Choices) -> Result<Seq<int>, Seq<char>> {
    if c == Command::Analyze {
        match o.board {
            None => Err("analyze requires --board \"<notation>\""@),
            Some(b) => notation::parsed(b),
        }
    } else {
        let cells = board::opening_cells(o.pits as int, o.seeds as int);
        match board::board_error(o.pits as int, cells) {
            Some(e) => Err(e),
            None => Ok(cells),
        }
    }
}

/// The position to analyze: the one that is given in notation for `analyze`, and the
/// opening for everything else.
pub fn requested_board(c: Command, o: &Options) -> (res: Result<Board, String>)
    ensures
        match res {
            Ok(b) => {
                &&& wanted_cells(c, o@) matches Ok(cells) && b.counts() == cells
                &&& b.mover() == o.turn
                &&& b.wf()
            },
            Err(e) => wanted_cells(c, o@) == Err::<Seq<int>, Seq<char>>(e@),
        },
{
    if c == Command::Analyze {
        match &o.board {
            None => Err(String::from_str("analyze requires --board \"<notation>\"")),
            Some(b) => notation::parse(b.as_str(), o.turn),
        }
    } else {
        Board::start(o.pits, o.seeds, o.turn)
    }
}

/// A tablebase to build.
#[derive(Clone, Copy, Debug, PartialEq, Eq, Structural)]
pub struct TableJob {
    pub pits: usize,
    pub cap: u32,
    /// The number of its entries.
    pub entries: u64,
}

/// Why a tablebase is not built.
#[derive(Clone, Copy, Debug, PartialEq, Eq, Structural)]
pub enum TableRefusal {
    /// There is no file to write it to.
    NoFile,
    /// The board has no pits.
    NoPits,
    /// It would have this many entries (the largest `u64` if there are more).
    TooLarge(u64),
    /// No board has so many pits or seeds.
    NoSuchBoard,
}

/// The seed cap of the tablebase to build.
pub open spec fn wanted_cap(o: Choices) -> u32 {
    match o.seeds_cap {
        Some(c) => c,
        None => DEFAULT_TABLE_CAP,
    }
}

/// The tablebase to build has more bytes than are allowed.
pub open spec fn oversize(o: Choices) -> bool {
    2 * counting::layouts(wanted_cap(o) as int, 2 * o.pits) > cli::MAX_TABLE_BYTES
}

/// The tablebase to build, or why there is none.
pub fn requested_table(o: &Options) -> (res: Result<TableJob, TableRefusal>)
    ensures
        match res {
            Ok(job) => {
                &&& o@.out is Some
                &&& job.pits == o.pits
                &&& job.cap == wanted_cap(o@)
                &&& 1 <= job.pits <= board::MAX_PITS
                &&& job.cap <= board::MAX_SEEDS
                &&& !oversize(o@)
                &&& job.entries == counting::layouts(job.cap as int, 2 * job.pits)
                &&& counting::layouts(job.cap as int, 2 * job.pits) <= usize::MAX
            },
            Err(TableRefusal::NoFile) => o@.out is None,
            Err(TableRefusal::NoPits) => o@.out is Some && o.pits == 0,
            Err(TableRefusal::TooLarge(entries)) => o@.out is Some && 1 <= o.pits <= u32::MAX
                && oversize(o@) && entries == counting::saturated(
                counting::layouts(wanted_cap(o@) as int, 2 * o.pits),
            ),
            Err(TableRefusal::NoSuchBoard) => o@.out is Some && (o.pits > u32::MAX || (!oversize(o@)
                && (o.pits > board::MAX_PITS || wanted_cap(o@) > board::MAX_SEEDS))),
        },
        res matches Ok(job) ==> ({
            &&& job.cap == match o.seeds_cap {
                Some(c) => c,
                None => 12,
            }
            &&& 1 <= job.pits <= 15
            &&& job.cap <= 255
            &&& 2 * job.entries <= 4_294_967_296
        }),
{
    if o.out.is_none() {
        return Err(TableRefusal::NoFile);
    }
    if o.pits == 0 {
        return Err(TableRefusal::NoPits);
    }
    if o.pits as u64 > u32::MAX as u64 {
        return Err(TableRefusal::NoSuchBoard);
    }
    let cap: u32 = match o.seeds_cap {
        Some(c) => c,
        None => DEFAULT_TABLE_CAP,
    };
    match cli::table_size(o.pits, cap) {
        Err(entries) => Err(TableRefusal::TooLarge(entries)),
        Ok(entries) => if o.pits > board::MAX_PITS || cap > board::MAX_SEEDS {
            Err(TableRefusal::NoSuchBoard)
        } else {
            Ok(TableJob { pits: o.pits, cap, entries })
        },
    }
}

/// The complaint about a match with a missing engine.
pub open spec fn missing_engine(o: Choices) -> Option<Seq<char>> {
    if o.a is None {
        Some("playtest requires --a <engine>"@)
    } else if o.b is None {
        Some("playtest requires --b <engine>"@)
    } else {
        None
    }
}

/// The match to play. Every opening is played twice, so there are half as many openings
/// as games.
pub fn requested_match(o: &Options) -> (res: Result<(Engine, Engine, MatchConfig), String>)
    ensures
        match res {
            Ok((a, b, cfg)) => {
                &&& o.a == Some(a)
                &&& o.b == Some(b)
                &&& cfg == (MatchConfig {
                    pits: o.pits,
                    seeds: o.seeds,
                    rules: o.rules,
                    openings: (o.games / 2 + o.games % 2) as usize,
                    opening_plies: match o.plies {
                        Some(p) => p,
                        None => 4,
                    },
                    seed: o.seed,
                    threads: o.threads,
                })
            },
            Err(e) => missing_engine(o@) == Some(e@),
        },
{
    match (o.a, o.b) {
        (Some(a), Some(b)) => {
            let cfg = MatchConfig {
                pits: o.pits,
                seeds: o.seeds,
                rules: o.rules,
                openings: o.games / 2 + o.games % 2,
                opening_plies: match o.plies {
                    Some(p) => p,
                    None => 4,
                },
                seed: o.seed,
                threads: o.threads,
            };
            Ok((a, b, cfg))
        },
        (None, _) => Err(String::from_str("playtest requires --a <engine>")),
        (_, None) => Err(String::from_str("playtest requires --b <engine>")),
    }
}

// ---------------------------------------------------------------------------
// Laws of options
// ---------------------------------------------------------------------------

/// Each flag is written in one way, but for two that are also written with a letter; and each
/// of these words is a flag.
pub proof fn lemma_flag_words(word: Seq<char>)
    ensures
        flag_of(word) matches Some(f) ==> match f {
            Flag::Turn => word == "--turn"@,
            Flag::Budget => word == "--budget"@,
            Flag::Depth => word == "--depth"@,
            Flag::CaptureEmpty => word == "--capture-empty"@,
            Flag::Tb => word == "--tb"@,
            Flag::Book => word == "--book"@,
            Flag::NoTb => word == "--no-tb"@,
            Flag::SeedsCap => word == "--seeds-cap"@,
            Flag::Board => word == "--board"@ || word == "-b"@,
            Flag::Pits => word == "--pits"@,
            Flag::Seeds => word == "--seeds"@,
            Flag::Out => word == "--out"@ || word == "-o"@,
            Flag::Plies => word == "--plies"@,
            Flag::A => word == "--a"@,
            Flag::B => word == "--b"@,
            Flag::Games => word == "--games"@,
            Flag::Threads => word == "--threads"@,
            Flag::Seed => word == "--seed"@,
        },
        flag_of(word) is None <==> {
            &&& word != "--turn"@ && word != "--budget"@ && word != "--depth"@
            &&& word != "--capture-empty"@ && word != "--tb"@ && word != "--book"@
            &&& word != "--no-tb"@ && word != "--seeds-cap"@ && word != "--board"@
            &&& word != "-b"@ && word != "--pits"@ && word != "--seeds"@
            &&& word != "--out"@ && word != "-o"@ && word != "--plies"@
            &&& word != "--a"@ && word != "--b"@ && word != "--games"@
            &&& word != "--threads"@ && word != "--seed"@
        },
{
}

/// The flags of each command. Analyzing an opening takes what analyzing a position takes,
/// but for the size of the board in place of the position.
pub proof fn lemma_flags_taken(f: Flag)
    ensures
        takes(Command::Analyze, f) <==> f is Turn || f is Budget || f is Depth || f is CaptureEmpty
            || f is Tb || f is Book || f is NoTb || f is SeedsCap || f is Board,
        takes(Command::Start, f) <==> (takes(Command::Analyze, f) && !(f is Board)) || f is Pits
            || f is Seeds,
        takes(Command::GenTb, f) <==> f is CaptureEmpty || f is Pits || f is SeedsCap || f is Out,
        takes(Command::GenBook, f) <==> f is CaptureEmpty || f is Pits || f is Seeds || f is Plies
            || f is Tb || f is Out,
        takes(Command::Playtest, f) <==> f is CaptureEmpty || f is Pits || f is Seeds || f is Plies
            || f is Tb || f is A || f is B || f is Games || f is Threads || f is Seed,
{
}

/// A flag with a number sets its own option to that number and leaves the others as they
/// are, as long as the number fits.
pub proof fn lemma_numbers(o: Choices, word: Seq<char>, n: int)
    requires
        n >= 0,
    ensures
        ({
            let v = text::decimal(n);
            &&& n <= u64::MAX ==> valued(o, Flag::Budget, word, v) == Ok::<Choices, Seq<char>>(
                Choices { budget: n as u64, ..o },
            )
            &&& n <= u64::MAX ==> valued(o, Flag::Seed, word, v) == Ok::<Choices, Seq<char>>(
                Choices { seed: n as u64, ..o },
            )
            &&& n <= u32::MAX ==> valued(o, Flag::Depth, word, v) == Ok::<Choices, Seq<char>>(
                Choices { depth: n as u32, ..o },
            )
            &&& n <= u32::MAX ==> valued(o, Flag::SeedsCap, word, v) == Ok::<Choices, Seq<char>>(
                Choices { seeds_cap: Some(n as u32), ..o },
            )
            &&& n <= u32::MAX ==> valued(o, Flag::Plies, word, v) == Ok::<Choices, Seq<char>>(
                Choices { plies: Some(n as u32), ..o },
            )
            &&& n <= 255 ==> valued(o, Flag::Seeds, word, v) == Ok::<Choices, Seq<char>>(
                Choices { seeds: n as u8, ..o },
            )
            &&& n <= usize::MAX ==> valued(o, Flag::Pits, word, v) == Ok::<Choices, Seq<char>>(
                Choices { pits: n as usize, ..o },
            )
            &&& n <= usize::MAX ==> valued(o, Flag::Games, word, v) == Ok::<Choices, Seq<char>>(
                Choices { games: n as usize, ..o },
            )
            &&& n <= usize::MAX ==> valued(o, Flag::Threads, word, v) == Ok::<Choices, Seq<char>>(
                Choices { threads: n as usize, ..o },
            )
        }),
{
    let v = text::decimal(n);
    text::lemma_number(n, u64::MAX as int, v);
    text::lemma_number(n, u32::MAX as int, v);
    text::lemma_number(n, 255, v);
    text::lemma_number(n, usize::MAX as int, v);
}

/// What is said of a value that is no number, or too large: of a budget, a depth, a seed cap,
/// moves from the opening and a seed, that it must be a non-negative integer, of seeds that
/// they must be at most 255, and of pits, games and threads that they must be positive.
pub proof fn lemma_bad_numbers(o: Choices, word: Seq<char>, v: Seq<char>)
    ensures
        text::number(v, u64::MAX as int) is None ==> {
            let e = Err::<Choices, Seq<char>>(word + " must be "@ + "a non-negative integer"@);
            valued(o, Flag::Budget, word, v) == e && valued(o, Flag::Seed, word, v) == e
        },
        text::number(v, u32::MAX as int) is None ==> {
            let e = Err::<Choices, Seq<char>>(word + " must be "@ + "a non-negative integer"@);
            valued(o, Flag::Depth, word, v) == e && valued(o, Flag::SeedsCap, word, v) == e
                && valued(o, Flag::Plies, word, v) == e
        },
        text::number(v, 255) is None ==> valued(o, Flag::Seeds, word, v) == Err::<
            Choices,
            Seq<char>,
        >(word + " must be "@ + "0..=255"@),
        text::number(v, usize::MAX as int) is None ==> {
            let e = Err::<Choices, Seq<char>>(word + " must be "@ + "a positive integer"@);
            valued(o, Flag::Pits, word, v) == e && valued(o, Flag::Games, word, v) == e && valued(
                o,
                Flag::Threads,
                word,
                v,
            ) == e
        },
{
}

/// A flag with a text sets its own option to what the text says and leaves the others as they
/// are.
pub proof fn lemma_texts(o: Choices, word: Seq<char>, v: Seq<char>)
    ensures
        valued(o, Flag::Tb, word, v) == Ok::<Choices, Seq<char>>(Choices { tb: Some(v), ..o }),
        valued(o, Flag::Book, word, v) == Ok::<Choices, Seq<char>>(Choices { book: Some(v), ..o }),
        valued(o, Flag::Board, word, v) == Ok::<Choices, Seq<char>>(Choices { board: Some(v), ..o }),
        valued(o, Flag::Out, word, v) == Ok::<Choices, Seq<char>>(Choices { out: Some(v), ..o }),
        cli::turn_of(v) matches Ok(p) ==> valued(o, Flag::Turn, word, v) == Ok::<
            Choices,
            Seq<char>,
        >(Choices { turn: p, ..o }),
        cli::turn_of(v) matches Err(e) ==> valued(o, Flag::Turn, word, v) == Err::<
            Choices,
            Seq<char>,
        >(e),
        playtest::engine_of(v) matches Ok(e) ==> valued(o, Flag::A, word, v) == Ok::<
            Choices,
            Seq<char>,
        >(Choices { a: Some(e), ..o }) && valued(o, Flag::B, word, v) == Ok::<Choices, Seq<char>>(
            Choices { b: Some(e), ..o },
        ),
        playtest::engine_of(v) matches Err(e) ==> valued(o, Flag::A, word, v) == Err::<
            Choices,
            Seq<char>,
        >(e) && valued(o, Flag::B, word, v) == Err::<Choices, Seq<char>>(e),
{
}

/// Words are read from left to right, each flag with its value: a flag that the command does
/// not take, or one without its value, is complained about, and what a flag sets holds for
/// the words after it.
pub proof fn lemma_next_word(c: Command, all: Seq<Seq<char>>, i: int, o: Choices)
    requires
        0 <= i < all.len(),
    ensures
        match flag_of(all[i]) {
            None => chosen(c, all, i, o) == Err::<Choices, Seq<char>>(
                "unknown flag '"@ + all[i] + "' for '"@ + c.name_text() + "'"@,
            ),
            Some(f) => {
                &&& !takes(c, f) ==> chosen(c, all, i, o) == Err::<Choices, Seq<char>>(
                    "unknown flag '"@ + all[i] + "' for '"@ + c.name_text() + "'"@,
                )
                &&& takes(c, f) && f is CaptureEmpty ==> chosen(c, all, i, o) == chosen(
                    c,
                    all,
                    i + 1,
                    Choices {
                        rules: Rules { capture_requires_nonempty_opposite: false },
                        ..o
                    },
                )
                &&& takes(c, f) && f is NoTb ==> chosen(c, all, i, o) == chosen(
                    c,
                    all,
                    i + 1,
                    Choices { no_tb: true, ..o },
                )
                &&& takes(c, f) && !(f is CaptureEmpty) && !(f is NoTb) && i + 1 == all.len()
                    ==> chosen(c, all, i, o) == Err::<Choices, Seq<char>>(
                    "flag '"@ + all[i] + "' requires a value"@,
                )
                &&& takes(c, f) && !(f is CaptureEmpty) && !(f is NoTb) && i + 1 < all.len()
                    ==> match valued(o, f, all[i], all[i + 1]) {
                    Ok(p) => chosen(c, all, i, o) == chosen(c, all, i + 2, p),
                    Err(e) => chosen(c, all, i, o) == Err::<Choices, Seq<char>>(e),
                }
            },
        },
        chosen(c, all, all.len() as int, o) == Ok::<Choices, Seq<char>>(o),
{
}

/// The position to analyze: for `analyze` the one that was given, which has to be there, and
/// for every other command the opening of the size that was asked for.
pub proof fn lemma_wanted_cells(c: Command, o: Choices)
    ensures
        c is Analyze && o.board is None ==> wanted_cells(c, o) == Err::<Seq<int>, Seq<char>>(
            "analyze requires --board \"<notation>\""@,
        ),
        c is Analyze && o.board is Some ==> wanted_cells(c, o) == notation::parsed(o.board->0),
        !(c is Analyze) && 1 <= o.pits <= 15 && 2 * o.pits * o.seeds <= 255 ==> wanted_cells(c, o)
            == Ok::<Seq<int>, Seq<char>>(board::opening_cells(o.pits as int, o.seeds as int)),
        !(c is Analyze) && !(1 <= o.pits <= 15 && 2 * o.pits * o.seeds <= 255) ==> wanted_cells(c, o)
            is Err,
{
    let cells = board::opening_cells(o.pits as int, o.seeds as int);
    board::lemma_board_error(o.pits as int, cells);
    if o.pits >= 1 {
        board::lemma_opening(o.pits as int, o.seeds as int);
    }
}

} // verus!
