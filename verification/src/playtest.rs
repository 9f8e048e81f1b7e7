//! Self-play strength testing.
//!
//! Strength in the *non-exact* regime can't be read off a single position; it only
//! shows up over many games. This module pits two engine configurations against each
//! other over a **diverse opening book** (each opening played from both sides so
//! colour/first-move bias cancels) and counts wins, draws and losses.
//!
//! Players are configurations of this engine, so games run in-process. Each player is a
//! move-chooser; diversity (and thus distinct games) comes entirely from the randomised
//! opening book, which keeps results reproducible for a given seed.

use vstd::prelude::*;

use crate::analysis;
use crate::board;
use crate::board::{Board, Player, Rules, Seat};
use crate::model;
use crate::run::Course;
use crate::searcher;
use crate::solver;
use crate::solver::Limit;
use crate::tablebase::Tablebase;
use crate::text;
use crate::value;
use crate::value::Setting;

verus! {

// ---------------------------------------------------------------------------
// Engines
// ---------------------------------------------------------------------------

/// A move-selecting engine configuration. The `Limit` is the thinking budget: a fixed
/// depth, a node count or a time (both iteratively deepening), so two engines can be
/// compared on equal *work* rather than equal depth.
#[derive(Clone, Copy, Debug, PartialEq, Eq, Structural)]
pub enum Engine {
    /// Plain heuristic search (no endgame tables, no quiescence): the baseline.
    Heuristic { limit: Limit },
    /// Tablebase/endgame-aware play (perfect endgame); `quiesce` extends forcing moves
    /// at the horizon; `tt` enables the transposition table (toggle for measuring its
    /// contribution).
    Play { limit: Limit, quiesce: bool, tt: bool },
    /// Try an exact solve within `budget` nodes; else a depth-`depth` heuristic.
    Analyze { budget: u64, depth: u32 },
}

/// No legal move is worth more than pit `m`, and none that is worth as much is tried
/// before it.
pub open spec fn first_choice(c: Setting, s: Seq<int>, depth: Option<int>, m: int) -> bool {
    &&& analysis::is_best(c, s, m, depth)
    &&& c.modest() ==> forall|j: int|
        model::legal(s, j) && #[trigger] value::move_value(c, s, j, depth) == value::move_value(
            c,
            s,
            m,
            depth,
        ) ==> searcher::move_score(s, m, None, 0) <= searcher::move_score(s, j, None, 0)
}

/// Pit `m` is what a play search with this limit may choose: at a fixed depth the first
/// choice. With a node limit it is a legal move; if the limit is sure to allow an
/// iteration, it is a best one at some depth, which is at least that of every iteration
/// that the limit is sure to allow. With a time limit it is a legal move.
pub open spec fn search_choice(
    c: Setting,
    rules: Rules,
    s: Seq<int>,
    limit: Limit,
    m: int,
) -> bool {
    match limit {
        Limit::Depth(d) => first_choice(
            c,
            s,
            Some(
                if d >= 1 {
                    d as int
                } else {
                    1
                },
            ),
            m,
        ),
        Limit::Nodes(n) => model::legal(s, m) && (solver::affords(c, s, n, 1) ==> exists|d: int|
            1 <= d <= solver::MAX_ITERATION && #[trigger] analysis::is_best(c, s, m, Some(d))
                && forall|k: int|
                1 <= k <= solver::MAX_ITERATION && #[trigger] solver::affords(c, s, n, k) ==> k
                    <= d),
        Limit::Time(_) => model::legal(s, m),
    }
}

/// The pit of an analysis by a search that starts afresh.
pub open spec fn run_pick(co: Course, at: Seat, depth: Option<int>) -> int {
    match solver::fresh_run(co, at, depth).1 {
        Some((_, i)) => i,
        None => -1,
    }
}

/// The pit of a play search with this limit, if it does not watch the clock.
pub open spec fn search_pick(
    rules: Rules,
    tb: Option<&Tablebase>,
    at: Seat,
    limit: Limit,
    use_endgame: bool,
    quiesce: bool,
    use_tt: bool,
) -> int {
    match limit {
        Limit::Depth(d) => run_pick(
            solver::play_course(
                rules,
                tb,
                model::pits(at.pos),
                u64::MAX,
                use_endgame,
                quiesce,
                use_tt,
            ),
            at,
            Some(
                if d >= 1 {
                    d as int
                } else {
                    1
                },
            ),
        ),
        Limit::Nodes(n) => {
            let (_, i) = solver::node_run(rules, tb, at, n, use_endgame, quiesce, use_tt).best;
            i
        },
        Limit::Time(_) => -1,
    }
}

impl Engine {
    /// The engine watches the clock.
    pub open spec fn timed(self) -> bool {
        match self {
            Engine::Heuristic { limit } => limit is Time,
            Engine::Play { limit, quiesce, tt } => limit is Time,
            Engine::Analyze { budget, depth } => false,
        }
    }

    /// The pit that an engine chooses which does not watch the clock: that of the run of
    /// its search.
    pub open spec fn pick(self, rules: Rules, tb: Option<&Tablebase>, at: Seat) -> int {
        let n = model::pits(at.pos);
        match self {
            Engine::Heuristic { limit } => search_pick(rules, tb, at, limit, false, false, true),
            Engine::Play { limit, quiesce, tt } => search_pick(
                rules,
                tb,
                at,
                limit,
                true,
                quiesce,
                tt,
            ),
            Engine::Analyze { budget, depth } => if solver::affordable(rules, tb, at, budget) {
                run_pick(solver::exact_course(rules, tb, n, budget), at, None)
            } else {
                run_pick(solver::fallback_course(rules), at, Some(depth as int))
            },
        }
    }

    /// Pit `m` is what the engine may choose from `at`. Without a clock it is one pit; what
    /// is said of its value holds of every engine.
    pub open spec fn may_choose(
        self,
        rules: Rules,
        tb: Option<&Tablebase>,
        at: Seat,
        m: int,
    ) -> bool {
        let s = at.pos;
        let n = model::pits(s);
        &&& !self.timed() ==> m == self.pick(rules, tb, at)
        &&& match self {
            Engine::Heuristic { limit } => search_choice(
                solver::play_setting(rules, tb, n, false, false),
                rules,
                s,
                limit,
                m,
            ),
            Engine::Play { limit, quiesce, tt } => search_choice(
                solver::play_setting(rules, tb, n, true, quiesce),
                rules,
                s,
                limit,
                m,
            ),
            Engine::Analyze { budget, depth } => if solver::affordable(rules, tb, at, budget) {
                first_choice(solver::exact_setting(rules, tb, n, budget), s, None, m)
            } else {
                first_choice(
                    searcher::setting(rules, None, 0, false),
                    s,
                    Some(depth as int),
                    m,
                )
            },
        }
    }

    /// The engine can choose from `at`: a fallback search, should it come to that, looks
    /// ahead.
    pub open spec fn can_choose(
        self,
        rules: Rules,
        tb: Option<&Tablebase>,
        at: Seat,
    ) -> bool {
        self matches Engine::Analyze { budget, depth } ==> depth >= 1 || model::over(at.pos)
            || solver::ample(rules, tb, at.pos, budget) || solver::affordable(
            rules,
            tb,
            at,
            budget,
        )
    }

    /// The engine can choose in every position.
    pub open spec fn ready(self) -> bool {
        self matches Engine::Analyze { budget, depth } ==> depth >= 1 || budget == u64::MAX
    }

    /// Choose a move for the side to move, or `None` at a terminal position.
    pub fn choose_move(&self, b: &Board, rules: Rules, tb: Option<&Tablebase>) -> (m: Option<usize>)
        requires
            self.can_choose(rules, tb, b.seat()),
        ensures
            m is None <==> model::over(b.pos()),
            m matches Some(m) ==> model::legal(b.pos(), m as int) && self.may_choose(
                rules,
                tb,
                b.seat(),
                m as int,
            ),
    {
        proof {
            use_type_invariant(b);
            b.lemma_seen();
        }
        if b.is_terminal() {
            return None;
        }
        let ghost s = b.pos();
        match *self {
            Engine::Heuristic { limit } => {
                let a = solver::play_search(b, rules, tb, limit, false, false, true);
                proof {
                    lemma_search_choice(
                        solver::play_setting(rules, tb, b.pits(), false, false),
                        solver::play_table(tb, b.pits(), false),
                        rules,
                        s,
                        limit,
                        a,
                    );
                }
                a.best_move
            },
            Engine::Play { limit, quiesce, tt } => {
                let a = solver::play_search(b, rules, tb, limit, true, quiesce, tt);
                proof {
                    lemma_search_choice(
                        solver::play_setting(rules, tb, b.pits(), true, quiesce),
                        solver::play_table(tb, b.pits(), true),
                        rules,
                        s,
                        limit,
                        a,
                    );
                }
                a.best_move
            },
            Engine::Analyze { budget, depth } => {
                let a = solver::analyze_with_tb(b, rules, budget, depth, tb);
                proof {
                    if a.exact {
                        lemma_first_choice(
                            solver::exact_setting(rules, tb, b.pits(), budget),
                            solver::matching(tb, b.pits()),
                            s,
                            None,
                            a,
                        );
                    } else {
                        lemma_first_choice(
                            searcher::setting(rules, None, 0, false),
                            None,
                            s,
                            Some(depth as int),
                            a,
                        );
                    }
                }
                a.best_move
            },
        }
    }
}

/// The best move of a finished analysis is the first choice.
proof fn lemma_first_choice(
    c: Setting,
    tb: Option<&Tablebase>,
    s: Seq<int>,
    depth: Option<int>,
    a: analysis::Analysis,
)
    requires
        model::valid(s),
        !model::over(s),
        solver::settles(c, tb, s, depth, a),
    ensures
        a.best_move matches Some(m) && first_choice(c, s, depth, m as int),
{
    analysis::lemma_complete(c, s, depth, a);
}

/// The best move of a play search is what it may choose.
proof fn lemma_search_choice(
    c: Setting,
    tb: Option<&Tablebase>,
    rules: Rules,
    s: Seq<int>,
    limit: Limit,
    a: analysis::Analysis,
)
    requires
        model::valid(s),
        !model::over(s),
        match limit {
            Limit::Depth(d) => solver::settles(
                c,
                tb,
                s,
                Some(
                    if d >= 1 {
                        d as int
                    } else {
                        1
                    },
                ),
                a,
            ),
            Limit::Nodes(n) => solver::iterated(c, tb, s, a) && solver::deep_enough(c, s, n, a),
            Limit::Time(_) => solver::iterated(c, tb, s, a),
        },
    ensures
        a.best_move matches Some(m) && model::legal(s, m as int) && search_choice(
            c,
            rules,
            s,
            limit,
            m as int,
        ),
{
    match limit {
        Limit::Depth(d) => {
            lemma_first_choice(
                c,
                tb,
                s,
                Some(
                    if d >= 1 {
                        d as int
                    } else {
                        1
                    },
                ),
                a,
            );
        },
        _ => {
            let d = a.depth->0 as int;
            reveal(analysis::ranking);
            assert(analysis::eval_ok(c, s, Some(d), a.move_evals@[0]));
            if analysis::complete(s, a) {
                analysis::lemma_complete(c, s, Some(d), a);
            }
        },
    }
}

// ---------------------------------------------------------------------------
// Engine specs
// ---------------------------------------------------------------------------

/// A complaint about an engine spec.
pub open spec fn complaint(what: Seq<char>, spec_text: Seq<char>) -> Seq<char> {
    what + " in '"@ + spec_text + "'"@
}

/// The limit that a token names, or the complaint about it: `n<nodes>` is a node
/// budget, `t<ms>` a time budget, `d<n>` or bare `<n>` a depth.
pub open spec fn limit_of(tok: Seq<char>, spec_text: Seq<char>) -> Result<Limit, Seq<char>> {
    if tok.len() > 0 && tok.first() == 'n' {
        match text::number(tok.drop_first(), u64::MAX as int) {
            Some(n) => Ok(Limit::Nodes(n as u64)),
            None => Err(complaint("bad node budget"@, spec_text)),
        }
    } else if tok.len() > 0 && tok.first() == 't' {
        match text::number(tok.drop_first(), u64::MAX as int) {
            Some(n) => Ok(Limit::Time(n as u64)),
            None => Err(complaint("bad time budget (ms)"@, spec_text)),
        }
    } else {
        let d = if tok.len() > 0 && tok.first() == 'd' {
            tok.drop_first()
        } else {
            tok
        };
        match text::number(d, u32::MAX as int) {
            Some(n) => Ok(Limit::Depth(n as u32)),
            None => Err(complaint("bad depth"@, spec_text)),
        }
    }
}

/// The complaint about a text that is no engine spec at all.
pub open spec fn bad_engine(spec_text: Seq<char>) -> Seq<char> {
    "bad engine spec '"@ + spec_text
        + "' (h/p/q:<lim> or a:<budget>:<depth>; <lim> = depth '6', nodes 'n200000', or time 't50'; 'q:<lim>:nott' disables the TT)"@
}

/// The engine that a spec names, or the complaint about it.
pub open spec fn engine_of(spec_text: Seq<char>) -> Result<Engine, Seq<char>> {
    let parts = text::split(spec_text, ':');
    if parts.len() == 2 && (parts[0] == "h"@ || parts[0] == "p"@ || parts[0] == "q"@) {
        match limit_of(parts[1], spec_text) {
            Ok(limit) => if parts[0] == "h"@ {
                Ok(Engine::Heuristic { limit })
            } else {
                Ok(Engine::Play { limit, quiesce: parts[0] == "q"@, tt: true })
            },
            Err(e) => Err(e),
        }
    } else if parts.len() == 3 && parts[0] == "q"@ && parts[2] == "nott"@ {
        match limit_of(parts[1], spec_text) {
            Ok(limit) => Ok(Engine::Play { limit, quiesce: true, tt: false }),
            Err(e) => Err(e),
        }
    } else if parts.len() == 3 && parts[0] == "a"@ {
        match (text::number(parts[1], u64::MAX as int), text::number(parts[2], u32::MAX as int)) {
            (None, _) => Err(complaint("bad budget"@, spec_text)),
            (_, None) => Err(complaint("bad depth"@, spec_text)),
            (Some(b), Some(d)) => Ok(Engine::Analyze { budget: b as u64, depth: d as u32 }),
        }
    } else {
        Err(bad_engine(spec_text))
    }
}

/// A complaint about an engine spec.
fn complain(what: &str, spec_text: &str) -> (e: String)
    ensures
        e@ == complaint(what@, spec_text@),
{
    let mut e = String::from_str(what);
    e.append(" in '");
    e.append(spec_text);
    e.append("'");
    e
}

/// Parse a limit token.
fn parse_limit(tok: &str, spec_text: &str) -> (res: Result<Limit, String>)
    ensures
        match res {
            Ok(limit) => limit_of(tok@, spec_text@) == Ok::<Limit, Seq<char>>(limit),
            Err(e) => limit_of(tok@, spec_text@) == Err::<Limit, Seq<char>>(e@),
        },
{
    let len: usize = tok.unicode_len();
    let first: Option<char> = if len > 0 {
        Some(tok.get_char(0))
    } else {
        None
    };
    if let Some(c) = first {
        let rest = tok.substring_char(1, len);
        assert(rest@ =~= tok@.drop_first());
        if c == 'n' {
            return match text::parse_number(rest, u64::MAX) {
                Some(n) => Ok(Limit::Nodes(n)),
                None => Err(complain("bad node budget", spec_text)),
            };
        }
        if c == 't' {
            return match text::parse_number(rest, u64::MAX) {
                Some(n) => Ok(Limit::Time(n)),
                None => Err(complain("bad time budget (ms)", spec_text)),
            };
        }
        if c == 'd' {
            return match text::parse_number(rest, u32::MAX as u64) {
                Some(n) => Ok(Limit::Depth(n as u32)),
                None => Err(complain("bad depth", spec_text)),
            };
        }
    }
    match text::parse_number(tok, u32::MAX as u64) {
        Some(n) => Ok(Limit::Depth(n as u32)),
        None => Err(complain("bad depth", spec_text)),
    }
}

impl Engine {
    /// Parse a compact spec. The limit token is `<n>` or `d<n>` for a fixed depth,
    /// `n<nodes>` for a node budget, or `t<ms>` for a time budget:
    ///   `h:<lim>` heuristic · `p:<lim>` play · `q:<lim>` play+quiescence ·
    ///   `q:<lim>:nott` the same without the transposition table ·
    ///   `a:<budget>:<depth>` exact-then-heuristic.
    pub fn parse(spec_text: &str) -> (res: Result<Engine, String>)
        ensures
            match res {
                Ok(engine) => engine_of(spec_text@) == Ok::<Engine, Seq<char>>(engine),
                Err(e) => engine_of(spec_text@) == Err::<Engine, Seq<char>>(e@),
            },
    {
        let parts = text::split_on(spec_text, ':');
        let ghost all = text::views(parts@);
        assert(all.len() == parts@.len());
        proof {
            reveal_strlit("h");
            reveal_strlit("p");
            reveal_strlit("q");
            reveal_strlit("a");
            assert("h"@[0] == 'h' && "p"@[0] == 'p' && "q"@[0] == 'q' && "a"@[0] == 'a');
        }
        if parts.len() == 2 {
            assert(all[0] == parts@[0]@ && all[1] == parts@[1]@);
            let heuristic = text::same(parts[0], "h");
            let quiesce = text::same(parts[0], "q");
            if heuristic || quiesce || text::same(parts[0], "p") {
                return match parse_limit(parts[1], spec_text) {
                    Ok(limit) => if heuristic {
                        Ok(Engine::Heuristic { limit })
                    } else {
                        Ok(Engine::Play { limit, quiesce, tt: true })
                    },
                    Err(e) => Err(e),
                };
            }
        } else if parts.len() == 3 {
            assert(all[0] == parts@[0]@ && all[1] == parts@[1]@ && all[2] == parts@[2]@);
            if text::same(parts[0], "q") && text::same(parts[2], "nott") {
                return match parse_limit(parts[1], spec_text) {
                    Ok(limit) => Ok(Engine::Play { limit, quiesce: true, tt: false }),
                    Err(e) => Err(e),
                };
            }
            if text::same(parts[0], "a") {
                let budget: u64 = match text::parse_number(parts[1], u64::MAX) {
                    Some(n) => n,
                    None => {
                        return Err(complain("bad budget", spec_text));
                    },
                };
                return match text::parse_number(parts[2], u32::MAX as u64) {
                    Some(n) => Ok(Engine::Analyze { budget, depth: n as u32 }),
                    None => Err(complain("bad depth", spec_text)),
                };
            }
        }
        let mut e = String::from_str("bad engine spec '");
        e.append(spec_text);
        e.append(
            "' (h/p/q:<lim> or a:<budget>:<depth>; <lim> = depth '6', nodes 'n200000', or time 't50'; 'q:<lim>:nott' disables the TT)",
        );
        Err(e)
    }
}

// ---------------------------------------------------------------------------
// Openings
// ---------------------------------------------------------------------------

/// The state of the generator after one more step.
pub open spec fn stepped(state: u64) -> u64 {
    state.wrapping_add(0x9E37_79B9_7F4A_7C15)
}

/// What the generator puts out in a state.
pub open spec fn scrambled(state: u64) -> u64 {
    let a = (state ^ (state >> 30)).wrapping_mul(0xBF58_476D_1CE4_E5B9);
    let b = (a ^ (a >> 27)).wrapping_mul(0x94D0_49BB_1331_11EB);
    b ^ (b >> 31)
}

/// A tiny SplitMix64 generator: deterministic, and good enough to shuffle out a varied
/// opening book.
pub struct Rng(u64);

impl Rng {
    /// The state of the generator.
    pub closed spec fn state(&self) -> u64 {
        self.0
    }

    /// A generator in a given state.
    pub fn new(seed: u64) -> (r: Rng)
        ensures
            r.state() == seed,
    {
        Rng(seed)
    }

    /// The next number.
    pub fn next_u64(&mut self) -> (v: u64)
        ensures
            final(self).state() == stepped(old(self).state()),
            v == scrambled(stepped(old(self).state())),
            ({
                let z = old(self).state().wrapping_add(0x9E37_79B9_7F4A_7C15);
                let a = (z ^ (z >> 30)).wrapping_mul(0xBF58_476D_1CE4_E5B9);
                let b = (a ^ (a >> 27)).wrapping_mul(0x94D0_49BB_1331_11EB);
                final(self).state() == z && v == b ^ (b >> 31)
            }),
    {
        self.0 = self.0.wrapping_add(0x9E37_79B9_7F4A_7C15);
        let z: u64 = self.0;
        let a: u64 = (z ^ (z >> 30)).wrapping_mul(0xBF58_476D_1CE4_E5B9);
        let b: u64 = (a ^ (a >> 27)).wrapping_mul(0x94D0_49BB_1331_11EB);
        b ^ (b >> 31)
    }

    /// The next number, reduced to less than `n`.
    pub fn below(&mut self, n: usize) -> (v: usize)
        requires
            n > 0,
        ensures
            final(self).state() == stepped(old(self).state()),
            v == scrambled(stepped(old(self).state())) as int % n as int,
            v < n,
    {
        (self.next_u64() % n as u64) as usize
    }
}

/// Where a random walk of at most `plies` moves ends, and the state that the generator
/// is then in.
pub open spec fn walk(rules: Rules, at: Seat, plies: nat, state: u64) -> (Seat, u64)
    decreases plies,
{
    if plies == 0 || model::over(at.pos) {
        (at, state)
    } else {
        let pits = model::legal_pits(at.pos);
        let mv = pits[scrambled(stepped(state)) as int % pits.len() as int];
        walk(rules, at.moved(rules, mv), (plies - 1) as nat, stepped(state))
    }
}

/// The openings that up to `tries` random walks find: those that are not over and were
/// not found before, until there are `count`.
pub open spec fn openings(
    rules: Rules,
    start: Seat,
    plies: nat,
    count: nat,
    tries: nat,
    state: u64,
    found: Seq<Seat>,
) -> Seq<Seat>
    decreases tries,
{
    if tries == 0 || found.len() >= count {
        found
    } else {
        let (end, next) = walk(rules, start, plies, state);
        openings(
            rules,
            start,
            plies,
            count,
            (tries - 1) as nat,
            next,
            if model::over(end.pos) || found.contains(end) {
                found
            } else {
                found.push(end)
            },
        )
    }
}

/// How often a walk is tried for a book of `count` openings.
pub open spec fn max_tries(count: usize) -> nat {
    if count * 64 > usize::MAX {
        usize::MAX as nat
    } else if count * 64 < 4096 {
        4096
    } else {
        (count * 64) as nat
    }
}

/// The seats of boards.
pub open spec fn seats(boards: Seq<Board>) -> Seq<Seat> {
    Seq::new(boards.len(), |j: int| boards[j].seat())
}

/// The opening book, or the complaint if there is none.
pub open spec fn book_of(
    pits: usize,
    seeds: u8,
    rules: Rules,
    plies: u32,
    count: usize,
    seed: u64,
) -> Result<Seq<Seat>, Seq<char>> {
    let cells = board::opening_cells(pits as int, seeds as int);
    let start = Seat { mover: Player::P0, pos: cells };
    let found = openings(
        rules,
        start,
        plies as nat,
        count as nat,
        max_tries(count),
        seed ^ 0xA5A5_5A5A_1234_5678,
        Seq::empty(),
    );
    match board::board_error(pits as int, cells) {
        Some(e) if count > 0 => Err(e),
        _ => if count == 0 || found.len() == 0 {
            Err("could not generate any non-terminal openings"@)
        } else {
            Ok(found)
        },
    }
}

proof fn lemma_legal_pits(s: Seq<int>, k: int)
    requires
        0 <= k <= model::pits(s),
    ensures
        forall|j: int|
            0 <= j < model::legal_below(s, k).len() ==> model::legal(
                s,
                #[trigger] model::legal_below(s, k)[j],
            ),
        forall|i: int|
            0 <= i < k && #[trigger] model::legal(s, i) ==> model::legal_below(s, k).len() > 0,
    decreases k,
{
    if k > 0 {
        lemma_legal_pits(s, k - 1);
        let front = model::legal_below(s, k - 1);
        let all = model::legal_below(s, k);
        assert forall|j: int| 0 <= j < all.len() implies model::legal(s, #[trigger] all[j]) by {
            if j < front.len() {
                assert(all[j] == front[j]);
            }
        }
    }
}

/// Play `plies` random legal moves from `start`.
fn random_walk(start: &Board, rules: &Rules, plies: u32, rng: &mut Rng) -> (b: Board)
    ensures
        b.wf(),
        b.pits() == start.pits(),
        (b.seat(), final(rng).state()) == walk(
            *rules,
            start.seat(),
            plies as nat,
            old(rng).state(),
        ),
{
    let ghost whole = walk(*rules, start.seat(), plies as nat, rng.state());
    let mut b: Board = *start;
    let mut left: u32 = plies;
    proof {
        use_type_invariant(start);
    }
    while left > 0 && !b.is_terminal()
        invariant
            b.wf(),
            b.pits() == start.pits(),
            walk(*rules, b.seat(), left as nat, rng.state()) == whole,
        decreases left,
    {
        proof {
            b.lemma_seen();
            model::lemma_has_move(b.pos());
            let i = choose|i: int| model::legal(b.pos(), i);
            lemma_legal_pits(b.pos(), model::pits(b.pos()));
            assert(model::legal(b.pos(), i));
        }
        let moves = b.legal_moves(b.turn());
        let ghost pits = model::legal_pits(b.pos());
        assert(moves@.len() == pits.len());
        let j = rng.below(moves.len());
        let mv: usize = moves[j];
        assert(pits[j as int] == mv);
        assert(model::legal(b.pos(), mv as int));
        b = b.apply(rules, mv).board;
        left = left - 1;
    }
    b
}

/// Whether two boards are the same.
fn same_board(a: &Board, b: &Board) -> (same: bool)
    ensures
        same == (a.seat() == b.seat()),
        same == (a == b),
{
    proof {
        use_type_invariant(a);
        use_type_invariant(b);
        a.lemma_seen();
        b.lemma_seen();
        if a.seat() == b.seat() {
            Board::lemma_same(*a, *b);
        }
    }
    if a.turn() != b.turn() || a.pits_per_side() != b.pits_per_side() {
        return false;
    }
    let x: &[u8] = a.cells();
    let y: &[u8] = b.cells();
    let len: usize = a.total_cells();
    let mut i: usize = 0;
    while i < len
        invariant
            len == x@.len(),
            len == y@.len(),
            i <= len,
            board::ints(x@) == a.counts(),
            board::ints(y@) == b.counts(),
            a.seat() == b.seat() ==> *a == *b,
            forall|r: int| 0 <= r < i ==> #[trigger] x@[r] == y@[r],
        decreases len - i,
    {
        if x[i] != y[i] {
            proof {
                assert(board::ints(x@)[i as int] != board::ints(y@)[i as int]);
                assert(a.counts() != b.counts());
            }
            return false;
        }
        i = i + 1;
    }
    proof {
        assert(board::ints(x@) =~= board::ints(y@));
        assert(a.counts() == b.counts());
        Board::lemma_same(*a, *b);
    }
    true
}

/// Whether a board is among others.
fn is_among(boards: &Vec<Board>, b: &Board) -> (among: bool)
    ensures
        among == seats(boards@).contains(b.seat()),
{
    let mut i: usize = 0;
    while i < boards.len()
        invariant
            i <= boards@.len(),
            forall|j: int| 0 <= j < i ==> (#[trigger] boards@[j]).seat() != b.seat(),
        decreases boards@.len() - i,
    {
        if same_board(&boards[i], b) {
            assert(seats(boards@)[i as int] == b.seat());
            return true;
        }
        i = i + 1;
    }
    assert(!seats(boards@).contains(b.seat())) by {
        if seats(boards@).contains(b.seat()) {
            let j = choose|j: int|
                0 <= j < seats(boards@).len() && seats(boards@)[j] == b.seat();
            assert(boards@[j].seat() == b.seat());
        }
    }
    false
}

/// Build `count` distinct, non-terminal opening positions by playing `plies` random
/// legal moves from the standard start. Deterministic for a given seed. There are fewer
/// if that many cannot be found in a reasonable number of tries.
pub fn opening_book(
    pits: usize,
    seeds: u8,
    rules: Rules,
    plies: u32,
    count: usize,
    seed: u64,
) -> (res: Result<Vec<Board>, String>)
    ensures
        match res {
            Ok(book) => book_of(pits, seeds, rules, plies, count, seed) == Ok::<
                Seq<Seat>,
                Seq<char>,
            >(seats(book@)) && book@.len() <= count,
            Err(e) => book_of(pits, seeds, rules, plies, count, seed) == Err::<
                Seq<Seat>,
                Seq<char>,
            >(e@),
        },
        res matches Ok(book) ==> forall|j: int|
            0 <= j < book@.len() ==> !model::over((#[trigger] book@[j]).pos()) && book@[j].pits()
                == pits,
        res matches Ok(book) ==> forall|i: int, j: int|
            0 <= i < j < book@.len() ==> #[trigger] book@[i] != #[trigger] book@[j],
{
    if count == 0 {
        return Err(String::from_str("could not generate any non-terminal openings"));
    }
    let start = match Board::start(pits, seeds, Player::P0) {
        Ok(b) => b,
        Err(e) => {
            return Err(e);
        },
    };
    let ghost at = start.seat();
    let mut rng = Rng::new(seed ^ 0xA5A5_5A5A_1234_5678);
    let mut book: Vec<Board> = Vec::new();
    let mut left: usize = match count.checked_mul(64) {
        Some(n) => if n < 4096 {
            4096
        } else {
            n
        },
        None => usize::MAX,
    };
    let ghost whole = openings(
        rules,
        at,
        plies as nat,
        count as nat,
        left as nat,
        rng.state(),
        Seq::empty(),
    );
    assert(seats(book@) =~= Seq::<Seat>::empty());
    while book.len() < count && left > 0
        invariant
            book@.len() <= count,
            at == start.seat(),
            start.pits() == pits,
            openings(
                rules,
                at,
                plies as nat,
                count as nat,
                left as nat,
                rng.state(),
                seats(book@),
            ) == whole,
            forall|j: int|
                0 <= j < book@.len() ==> !model::over((#[trigger] book@[j]).pos())
                    && book@[j].pits() == pits,
            forall|i: int, j: int|
                0 <= i < j < book@.len() ==> #[trigger] book@[i] != #[trigger] book@[j],
        decreases left,
    {
        left = left - 1;
        let b = random_walk(&start, &rules, plies, &mut rng);
        if !b.is_terminal() && !is_among(&book, &b) {
            let ghost before = book@;
            book.push(b);
            proof {
                assert(seats(book@) =~= seats(before).push(b.seat()));
                assert forall|i: int, j: int| 0 <= i < j < book@.len() implies #[trigger] book@[i]
                    != #[trigger] book@[j] by {
                    if j == before.len() {
                        assert(seats(before)[i] == before[i].seat());
                        assert(seats(before).contains(before[i].seat()));
                    }
                }
            }
        }
    }
    if book.len() == 0 {
        return Err(String::from_str("could not generate any non-terminal openings"));
    }
    Ok(book)
}

// ---------------------------------------------------------------------------
// Games
// ---------------------------------------------------------------------------

/// The longest game that is played.
pub const MAX_PLIES: u32 = 100_000;

/// How a game ended for engine A.
#[derive(Clone, Copy, Debug, PartialEq, Eq, Structural)]
pub enum GameResult {
    Win,
    Draw,
    Loss,
}

/// Engine A is to move.
pub open spec fn a_moves(mover: Player, a_is_p0: bool) -> bool {
    (mover == Player::P0) == a_is_p0
}

/// A line in which each move is one that the engine to move may choose, and none is made
/// after the game is over.
pub open spec fn played_by(
    rules: Rules,
    tb: Option<&Tablebase>,
    a: Engine,
    b: Engine,
    a_is_p0: bool,
    at: Seat,
    line: Seq<usize>,
) -> bool
    decreases line.len(),
{
    line.len() == 0 || {
        let front = line.drop_last();
        let before = board::seat_after(rules, at, front);
        let mv = line.last() as int;
        &&& played_by(rules, tb, a, b, a_is_p0, at, front)
        &&& !model::over(before.pos)
        &&& model::legal(before.pos, mv)
        &&& (if a_moves(before.mover, a_is_p0) {
            a
        } else {
            b
        }).may_choose(rules, tb, before, mv)
    }
}

/// How the game ends for engine A when it stops here.
pub open spec fn result_of(end: Seat, a_is_p0: bool) -> GameResult {
    let margin = if a_moves(end.mover, a_is_p0) {
        value::final_margin(end.pos)
    } else {
        -value::final_margin(end.pos)
    };
    if margin > 0 {
        GameResult::Win
    } else if margin < 0 {
        GameResult::Loss
    } else {
        GameResult::Draw
    }
}

/// A line that the two engines may play to the end of the game, or for as long as a
/// game may be.
pub open spec fn whole_game(
    rules: Rules,
    tb: Option<&Tablebase>,
    a: Engine,
    b: Engine,
    a_is_p0: bool,
    at: Seat,
    line: Seq<usize>,
) -> bool {
    &&& played_by(rules, tb, a, b, a_is_p0, at, line)
    &&& line.len() <= MAX_PLIES
    &&& model::over(board::seat_after(rules, at, line).pos) || line.len() == MAX_PLIES
}

/// A game of the two engines from `at` may end so: some line that they may play leads
/// to the end of the game, or is as long as a game may be.
pub open spec fn may_end(
    rules: Rules,
    tb: Option<&Tablebase>,
    a: Engine,
    b: Engine,
    a_is_p0: bool,
    at: Seat,
    g: GameResult,
) -> bool {
    exists|line: Seq<usize>| #[trigger]
        whole_game(rules, tb, a, b, a_is_p0, at, line) && g == result_of(
            board::seat_after(rules, at, line),
            a_is_p0,
        )
}

/// Play one game from `open` with engine `a` controlling P0 iff `a_is_p0`. Tells how it
/// ended for A.
pub fn play_game(
    open: &Board,
    rules: Rules,
    a: Engine,
    b: Engine,
    a_is_p0: bool,
    tb: Option<&Tablebase>,
) -> (g: GameResult)
    requires
        a.ready(),
        b.ready(),
    ensures
        may_end(rules, tb, a, b, a_is_p0, open.seat(), g),
{
    let ghost at = open.seat();
    let ghost mut line = Seq::<usize>::empty();
    let mut cur: Board = *open;
    let mut plies: u32 = 0;
    proof {
        use_type_invariant(open);
    }
    while !cur.is_terminal() && plies < MAX_PLIES
        invariant
            a.ready(),
            b.ready(),
            cur.wf(),
            plies <= MAX_PLIES,
            line.len() == plies,
            played_by(rules, tb, a, b, a_is_p0, at, line),
            cur.seat() == board::seat_after(rules, at, line),
        decreases MAX_PLIES - plies,
    {
        let p0_moves = match cur.turn() {
            Player::P0 => true,
            Player::P1 => false,
        };
        let engine = if p0_moves == a_is_p0 {
            a
        } else {
            b
        };
        let mv: usize = match engine.choose_move(&cur, rules, tb) {
            Some(m) => m,
            None => 0,
        };
        proof {
            let next = line.push(mv);
            assert(next.drop_last() =~= line);
            line = next;
        }
        cur = cur.apply(&rules, mv).board;
        plies = plies + 1;
    }
    let mine = if a_is_p0 {
        Player::P0
    } else {
        Player::P1
    };
    proof {
        cur.lemma_seen();
        model::lemma_flip(cur.pos());
        assert(whole_game(rules, tb, a, b, a_is_p0, at, line));
    }
    let margin = cur.terminal_margin(mine);
    if margin > 0 {
        GameResult::Win
    } else if margin < 0 {
        GameResult::Loss
    } else {
        GameResult::Draw
    }
}

// ---------------------------------------------------------------------------
// Matches
// ---------------------------------------------------------------------------

/// Aggregate result of a match from engine A's perspective.
#[derive(Clone, Copy, Debug, PartialEq, Eq, Structural)]
pub struct MatchResult {
    pub wins: u32,
    pub draws: u32,
    pub losses: u32,
}

impl Default for MatchResult {
    fn default() -> (r: Self)
        ensures
            r == (MatchResult { wins: 0, draws: 0, losses: 0 }),
    {
        MatchResult { wins: 0, draws: 0, losses: 0 }
    }
}

/// How many games ended so.
pub open spec fn count_of(games: Seq<GameResult>, g: GameResult) -> nat
    decreases games.len(),
{
    if games.len() == 0 {
        0
    } else {
        count_of(games.drop_last(), g) + if games.last() == g {
            1nat
        } else {
            0
        }
    }
}

impl MatchResult {
    /// The result counts the games.
    pub open spec fn counts(self, games: Seq<GameResult>) -> bool {
        &&& self.wins == count_of(games, GameResult::Win)
        &&& self.draws == count_of(games, GameResult::Draw)
        &&& self.losses == count_of(games, GameResult::Loss)
    }

    /// The number of games.
    pub fn games(&self) -> (n: u32)
        requires
            self.wins + self.draws + self.losses <= u32::MAX,
        ensures
            n == self.wins + self.draws + self.losses,
    {
        self.wins + self.draws + self.losses
    }
}

proof fn lemma_counts(r: MatchResult, games: Seq<GameResult>)
    requires
        r.counts(games),
    ensures
        r.wins + r.draws + r.losses == games.len(),
{
    lemma_count_total(games);
}

proof fn lemma_count_push(games: Seq<GameResult>, g: GameResult)
    ensures
        forall|x: GameResult| #[trigger]
            count_of(games.push(g), x) == count_of(games, x) + if g == x {
                1nat
            } else {
                0
            },
{
    assert(games.push(g).drop_last() =~= games);
}

proof fn lemma_count_total(games: Seq<GameResult>)
    ensures
        count_of(games, GameResult::Win) + count_of(games, GameResult::Draw) + count_of(
            games,
            GameResult::Loss,
        ) == games.len(),
    decreases games.len(),
{
    if games.len() > 0 {
        lemma_count_total(games.drop_last());
    }
}

/// Count one more game.
pub fn tally(r: &mut MatchResult, g: GameResult)
    requires
        match g {
            GameResult::Win => old(r).wins < u32::MAX,
            GameResult::Draw => old(r).draws < u32::MAX,
            GameResult::Loss => old(r).losses < u32::MAX,
        },
    ensures
        *final(r) == match g {
            GameResult::Win => MatchResult { wins: (old(r).wins + 1) as u32, ..*old(r) },
            GameResult::Draw => MatchResult { draws: (old(r).draws + 1) as u32, ..*old(r) },
            GameResult::Loss => MatchResult { losses: (old(r).losses + 1) as u32, ..*old(r) },
        },
{
    match g {
        GameResult::Win => {
            r.wins = r.wins + 1;
        },
        GameResult::Draw => {
            r.draws = r.draws + 1;
        },
        GameResult::Loss => {
            r.losses = r.losses + 1;
        },
    }
}

/// Settings for a match.
#[derive(Clone, Copy, Debug)]
pub struct MatchConfig {
    pub pits: usize,
    pub seeds: u8,
    pub rules: Rules,
    pub openings: usize,
    pub opening_plies: u32,
    pub seed: u64,
    /// How many games a front end may play at the same time.
    pub threads: usize,
}

impl MatchConfig {
    /// The openings of the match, or the complaint if there are none.
    pub open spec fn book(self) -> Result<Seq<Seat>, Seq<char>> {
        book_of(
            self.pits,
            self.seeds,
            self.rules,
            self.opening_plies,
            self.openings,
            self.seed,
        )
    }
}

/// These may be the games of the match: each opening is played twice, first with engine
/// A as P0 and then as P1.
pub open spec fn may_be_games(
    a: Engine,
    b: Engine,
    rules: Rules,
    tb: Option<&Tablebase>,
    book: Seq<Seat>,
    games: Seq<GameResult>,
) -> bool {
    forall|i: int|
        0 <= i < games.len() ==> may_end(
            rules,
            tb,
            a,
            b,
            i % 2 == 0,
            book[i / 2],
            #[trigger] games[i],
        )
}

/// Play every opening of `book` twice, once with each engine moving from each side, and
/// count the results from A's perspective. `progress(done, total)` is called as games
/// complete, with each number of them, and with nothing else.
pub fn play_openings(
    a: Engine,
    b: Engine,
    rules: Rules,
    book: &[Board],
    tb: Option<&Tablebase>,
    mut progress: impl FnMut(usize, usize),
) -> (r: MatchResult)
    requires
        forall|done: usize, total: usize|
            1 <= done <= total && total == 2 * book@.len() ==> #[trigger] progress.requires(
                (done, total),
            ),
        a.ready(),
        b.ready(),
        2 * book@.len() <= u32::MAX,
    ensures
        forall|done: usize, total: usize|
            1 <= done <= total && total == 2 * book@.len() ==> #[trigger] progress.ensures(
                (done, total),
                (),
            ),
        exists|games: Seq<GameResult>|
            games.len() == 2 * book@.len() && #[trigger] may_be_games(
                a,
                b,
                rules,
                tb,
                seats(book@),
                games,
            ) && r.counts(games),
        r.wins + r.draws + r.losses == 2 * book@.len(),
{
    let mut r = MatchResult { wins: 0, draws: 0, losses: 0 };
    let ghost mut games = Seq::<GameResult>::empty();
    let ghost all = seats(book@);
    let ghost told = progress;
    let mut i: usize = 0;
    while i < book.len()
        invariant
            progress == told,
            a.ready(),
            b.ready(),
            2 * book@.len() <= u32::MAX,
            forall|done: usize, total: usize|
                1 <= done <= total && total == 2 * book@.len() ==> #[trigger] progress.requires(
                    (done, total),
                ),
            forall|done: usize, total: usize|
                1 <= done <= 2 * i && total == 2 * book@.len() ==> #[trigger] progress.ensures(
                    (done, total),
                    (),
                ),
            all == seats(book@),
            i <= book@.len(),
            games.len() == 2 * i,
            may_be_games(a, b, rules, tb, all, games),
            r.counts(games),
        decreases book@.len() - i,
    {
        proof {
            lemma_counts(r, games);
        }
        let first = play_game(&book[i], rules, a, b, true, tb);
        tally(&mut r, first);
        progress(2 * i + 1, 2 * book.len());
        let ghost once = games.push(first);
        proof {
            lemma_count_push(games, first);
            assert(all[i as int] == book@[i as int].seat());
            assert((2 * i) / 2 == i as int);
            assert forall|k: int| 0 <= k < once.len() implies may_end(
                rules,
                tb,
                a,
                b,
                k % 2 == 0,
                all[k / 2],
                #[trigger] once[k],
            ) by {
                if k < games.len() {
                    assert(once[k] == games[k]);
                }
            }
            lemma_counts(r, once);
        }
        let second = play_game(&book[i], rules, a, b, false, tb);
        tally(&mut r, second);
        progress(2 * i + 2, 2 * book.len());
        proof {
            let twice = once.push(second);
            lemma_count_push(once, second);
            assert((2 * i + 1) / 2 == i as int);
            assert forall|k: int| 0 <= k < twice.len() implies may_end(
                rules,
                tb,
                a,
                b,
                k % 2 == 0,
                all[k / 2],
                #[trigger] twice[k],
            ) by {
                if k < once.len() {
                    assert(twice[k] == once[k]);
                }
            }
            games = twice;
        }
        i = i + 1;
    }
    proof {
        lemma_counts(r, games);
    }
    r
}

/// Run a match between engines `a` and `b`: every opening is played twice (once with
/// each engine moving from each side). `progress(done, total)` is called as games
/// complete, with each number of them, and with nothing else. Returns the aggregate from A's perspective.
pub fn run_match(
    a: Engine,
    b: Engine,
    cfg: &MatchConfig,
    tb: Option<&Tablebase>,
    progress: impl FnMut(usize, usize),
) -> (res: Result<MatchResult, String>)
    requires
        cfg.book() matches Ok(book) ==> forall|done: usize, total: usize|
            1 <= done <= total && total == 2 * book.len() ==> #[trigger] progress.requires(
                (done, total),
            ),
        a.ready(),
        b.ready(),
        2 * cfg.openings <= u32::MAX,
    ensures
        match res {
            Ok(r) => {
                &&& cfg.book() matches Ok(book) && r.wins + r.draws + r.losses == 2 * book.len()
                    && exists|games: Seq<GameResult>|
                    games.len() == 2 * book.len() && #[trigger] may_be_games(
                        a,
                        b,
                        cfg.rules,
                        tb,
                        book,
                        games,
                    ) && r.counts(games)
                &&& forall|done: usize, total: usize|
                    1 <= done <= total && total == 2 * cfg.book()->Ok_0.len() ==> #[trigger]
                    progress.ensures((done, total), ())
            },
            Err(e) => cfg.book() == Err::<Seq<Seat>, Seq<char>>(e@),
        },
{
    match opening_book(
        cfg.pits,
        cfg.seeds,
        cfg.rules,
        cfg.opening_plies,
        cfg.openings,
        cfg.seed,
    ) {
        Ok(book) => Ok(play_openings(a, b, cfg.rules, book.as_slice(), tb, progress)),
        Err(e) => Err(e),
    }
}

// ---------------------------------------------------------------------------
// Laws
// ---------------------------------------------------------------------------

impl Engine {
    /// An engine that does not watch the clock is a deterministic move-chooser: equal
    /// positions give equal moves.
    pub proof fn lemma_one_choice(
        self,
        rules: Rules,
        tb: Option<&Tablebase>,
        at: Seat,
        m: int,
        k: int,
    )
        requires
            !self.timed(),
            self.may_choose(rules, tb, at, m),
            self.may_choose(rules, tb, at, k),
        ensures
            m == k,
    {
    }

    /// The transposition table only saves work: at a fixed depth the engine may choose
    /// the same moves with it and without, by a correct tablebase or none.
    pub proof fn lemma_table_saves_work(
        limit: Limit,
        quiesce: bool,
        rules: Rules,
        tb: Option<&Tablebase>,
        at: Seat,
        m: int,
        k: int,
    )
        requires
            limit is Depth,
            playable(at),
            solver::matching(tb, model::pits(at.pos)) matches Some(t) ==> t.correct(rules),
            (Engine::Play { limit, quiesce, tt: true }).may_choose(rules, tb, at, m),
            (Engine::Play { limit, quiesce, tt: false }).may_choose(rules, tb, at, k),
        ensures
            m == k,
    {
        let d = limit->Depth_0;
        let depth = if d >= 1 {
            d as int
        } else {
            1
        };
        let table = solver::matching(tb, model::pits(at.pos));
        searcher::lemma_setting_modest(
            rules,
            table,
            if table is None {
                solver::PLAY_ENDGAME_CUTOFF as int
            } else {
                0
            },
            quiesce,
        );
        lemma_first_is_one(
            solver::play_setting(rules, tb, model::pits(at.pos), true, quiesce),
            at.pos,
            Some(depth),
            m,
            k,
        );
    }
}

/// The play search plays the endgame perfectly: at a fixed depth, once the seeds in
/// play are within the cap of a correct tablebase for the board (or, without a
/// tablebase, within the cutoff of the lazy endgame table), it chooses a move that is
/// best under perfect play.
pub proof fn lemma_perfect_endgame(
    limit: Limit,
    quiesce: bool,
    tt: bool,
    rules: Rules,
    tb: Option<&Tablebase>,
    at: Seat,
    m: int,
)
    requires
        limit is Depth,
        model::valid(at.pos),
        !model::over(at.pos),
        match solver::matching(tb, model::pits(at.pos)) {
            Some(t) => t.correct(rules) && model::in_play(at.pos) <= t.limit(),
            None => model::in_play(at.pos) <= solver::PLAY_ENDGAME_CUTOFF,
        },
        (Engine::Play { limit, quiesce, tt }).may_choose(rules, tb, at, m),
    ensures
        model::legal(at.pos, m),
        value::move_margin(rules, at.pos, m) == value::game_value(rules, at.pos),
{
    let s = at.pos;
    let n = model::pits(s);
    let c = solver::play_setting(rules, tb, n, true, quiesce);
    let table = solver::matching(tb, n);
    let d = limit->Depth_0;
    let depth = Some(
        if d >= 1 {
            d as int
        } else {
            1
        },
    );
    searcher::lemma_setting_truthful_if(
        rules,
        table,
        solver::PLAY_ENDGAME_CUTOFF as int,
        quiesce,
    );
    searcher::lemma_setting_truthful_if(rules, table, 0, quiesce);
    value::lemma_truth_is_modest(c);
    assert forall|j: int| model::legal(s, j) implies #[trigger] value::move_value(c, s, j, depth)
        == value::move_margin(rules, s, j) * value::STORE_WEIGHT by {
        let after = model::after(rules, s, j);
        model::lemma_after(rules, s, j);
        match table {
            Some(t) => {
                t.lemma_knows(after);
            },
            None => {
                searcher::lemma_lazy_claim(rules, solver::PLAY_ENDGAME_CUTOFF as int, after);
            },
        }
        value::lemma_known_move(c, s, j, depth);
    }
    value::lemma_game_value_is_best(rules, s);
    let best = choose|j: int|
        model::legal(s, j) && #[trigger] value::move_margin(rules, s, j) == value::game_value(
            rules,
            s,
        );
    assert(value::move_value(c, s, best, depth) <= value::move_value(c, s, m, depth));
    assert(value::move_margin(rules, s, m) <= value::game_value(rules, s));
}

/// There is one first choice.
proof fn lemma_first_is_one(c: Setting, s: Seq<int>, depth: Option<int>, m: int, k: int)
    requires
        model::valid(s),
        model::pits(s) <= board::MAX_PITS,
        c.modest(),
        first_choice(c, s, depth, m),
        first_choice(c, s, depth, k),
    ensures
        m == k,
{
    assert(value::move_value(c, s, m, depth) == value::move_value(c, s, k, depth));
    assert(searcher::move_score(s, m, None, 0) == searcher::move_score(s, k, None, 0));
}

/// The openings and what follows them are boards of a supported size.
pub open spec fn playable(at: Seat) -> bool {
    model::valid(at.pos) && model::pits(at.pos) <= board::MAX_PITS
}

/// The beginning of a line that the engines may play is one too.
proof fn lemma_line_begins(
    rules: Rules,
    tb: Option<&Tablebase>,
    a: Engine,
    b: Engine,
    a_is_p0: bool,
    at: Seat,
    line: Seq<usize>,
    k: int,
)
    requires
        0 <= k <= line.len(),
        played_by(rules, tb, a, b, a_is_p0, at, line),
    ensures
        played_by(rules, tb, a, b, a_is_p0, at, line.take(k)),
    decreases line.len(),
{
    if k == line.len() {
        assert(line.take(k) =~= line);
    } else {
        lemma_line_begins(rules, tb, a, b, a_is_p0, at, line.drop_last(), k);
        assert(line.drop_last().take(k) =~= line.take(k));
    }
}

/// Without a clock, engines play one line of a given length.
proof fn lemma_one_line(
    rules: Rules,
    tb: Option<&Tablebase>,
    a: Engine,
    b: Engine,
    a_is_p0: bool,
    at: Seat,
    x: Seq<usize>,
    y: Seq<usize>,
)
    requires
        !a.timed(),
        !b.timed(),
        played_by(rules, tb, a, b, a_is_p0, at, x),
        played_by(rules, tb, a, b, a_is_p0, at, y),
        x.len() == y.len(),
    ensures
        x == y,
    decreases x.len(),
{
    if x.len() > 0 {
        let front = x.drop_last();
        lemma_one_line(rules, tb, a, b, a_is_p0, at, front, y.drop_last());
        let before = board::seat_after(rules, at, front);
        let engine = if a_moves(before.mover, a_is_p0) {
            a
        } else {
            b
        };
        engine.lemma_one_choice(rules, tb, before, x.last() as int, y.last() as int);
        assert(x =~= front.push(x.last()));
        assert(y =~= front.push(y.last()));
    } else {
        assert(x =~= y);
    }
}

/// Without a clock, engines play one game from an opening.
pub proof fn lemma_one_game(
    rules: Rules,
    tb: Option<&Tablebase>,
    a: Engine,
    b: Engine,
    a_is_p0: bool,
    at: Seat,
    x: Seq<usize>,
    y: Seq<usize>,
)
    requires
        !a.timed(),
        !b.timed(),
        whole_game(rules, tb, a, b, a_is_p0, at, x),
        whole_game(rules, tb, a, b, a_is_p0, at, y),
    ensures
        x == y,
{
    let (short, long) = if x.len() <= y.len() {
        (x, y)
    } else {
        (y, x)
    };
    let k = short.len() as int;
    lemma_line_begins(rules, tb, a, b, a_is_p0, at, long, k);
    lemma_one_line(rules, tb, a, b, a_is_p0, at, short, long.take(k));
    if long.len() > k {
        lemma_line_begins(rules, tb, a, b, a_is_p0, at, long, k + 1);
        assert(long.take(k + 1).drop_last() =~= short);
    } else {
        assert(long.take(k) =~= long);
    }
}

/// Games are reproducible: without a clock, two games from one opening end alike.
pub proof fn lemma_one_result(
    rules: Rules,
    tb: Option<&Tablebase>,
    a: Engine,
    b: Engine,
    a_is_p0: bool,
    at: Seat,
    g: GameResult,
    h: GameResult,
)
    requires
        !a.timed(),
        !b.timed(),
        may_end(rules, tb, a, b, a_is_p0, at, g),
        may_end(rules, tb, a, b, a_is_p0, at, h),
    ensures
        g == h,
{
    let x = choose|line: Seq<usize>| #[trigger]
        whole_game(rules, tb, a, b, a_is_p0, at, line) && g == result_of(
            board::seat_after(rules, at, line),
            a_is_p0,
        );
    let y = choose|line: Seq<usize>| #[trigger]
        whole_game(rules, tb, a, b, a_is_p0, at, line) && h == result_of(
            board::seat_after(rules, at, line),
            a_is_p0,
        );
    lemma_one_game(rules, tb, a, b, a_is_p0, at, x, y);
}

/// The same result from the other side.
pub open spec fn reversed(g: GameResult) -> GameResult {
    match g {
        GameResult::Win => GameResult::Loss,
        GameResult::Draw => GameResult::Draw,
        GameResult::Loss => GameResult::Win,
    }
}

proof fn lemma_sides(
    rules: Rules,
    tb: Option<&Tablebase>,
    a: Engine,
    at: Seat,
    line: Seq<usize>,
)
    ensures
        played_by(rules, tb, a, a, true, at, line) == played_by(rules, tb, a, a, false, at, line),
    decreases line.len(),
{
    if line.len() > 0 {
        lemma_sides(rules, tb, a, at, line.drop_last());
    }
}

/// An engine that plays itself twice from one opening, once from each side, wins as
/// much as it loses.
pub proof fn lemma_mirror_games(
    rules: Rules,
    tb: Option<&Tablebase>,
    a: Engine,
    at: Seat,
    g: GameResult,
    h: GameResult,
)
    requires
        !a.timed(),
        may_end(rules, tb, a, a, true, at, g),
        may_end(rules, tb, a, a, false, at, h),
    ensures
        h == reversed(g),
{
    let x = choose|line: Seq<usize>| #[trigger]
        whole_game(rules, tb, a, a, true, at, line) && g == result_of(
            board::seat_after(rules, at, line),
            true,
        );
    let y = choose|line: Seq<usize>| #[trigger]
        whole_game(rules, tb, a, a, false, at, line) && h == result_of(
            board::seat_after(rules, at, line),
            false,
        );
    lemma_sides(rules, tb, a, at, x);
    lemma_sides(rules, tb, a, at, y);
    lemma_one_game(rules, tb, a, a, true, at, x, y);
}

/// The harness is unbiased: a match of an engine without a clock against itself scores
/// exactly half the points.
pub proof fn lemma_unbiased(
    rules: Rules,
    tb: Option<&Tablebase>,
    a: Engine,
    book: Seq<Seat>,
    games: Seq<GameResult>,
    r: MatchResult,
)
    requires
        !a.timed(),
        games.len() == 2 * book.len(),
        may_be_games(a, a, rules, tb, book, games),
        r.counts(games),
    ensures
        r.wins == r.losses,
{
    lemma_unbiased_count(rules, tb, a, book, games, book.len() as int);
    assert(games.take(2 * book.len() as int) =~= games);
}

proof fn lemma_unbiased_count(
    rules: Rules,
    tb: Option<&Tablebase>,
    a: Engine,
    book: Seq<Seat>,
    games: Seq<GameResult>,
    k: int,
)
    requires
        !a.timed(),
        games.len() == 2 * book.len(),
        may_be_games(a, a, rules, tb, book, games),
        0 <= k <= book.len(),
    ensures
        count_of(games.take(2 * k), GameResult::Win) == count_of(
            games.take(2 * k),
            GameResult::Loss,
        ),
    decreases k,
{
    if k > 0 {
        lemma_unbiased_count(rules, tb, a, book, games, k - 1);
        let first = games[2 * k - 2];
        let second = games[2 * k - 1];
        assert((2 * k - 2) / 2 == k - 1 && (2 * k - 2) % 2 == 0);
        assert((2 * k - 1) / 2 == k - 1 && (2 * k - 1) % 2 == 1);
        lemma_mirror_games(rules, tb, a, book[k - 1], first, second);
        let front = games.take(2 * k - 2);
        lemma_count_push(front, first);
        lemma_count_push(front.push(first), second);
        assert(games.take(2 * k) =~= front.push(first).push(second));
    }
}

proof fn lemma_count_join(x: Seq<GameResult>, y: Seq<GameResult>, g: GameResult)
    ensures
        count_of(x + y, g) == count_of(x, g) + count_of(y, g),
    decreases y.len(),
{
    if y.len() == 0 {
        assert(x + y =~= x);
    } else {
        lemma_count_join(x, y.drop_last(), g);
        assert((x + y).drop_last() =~= x + y.drop_last());
    }
}

/// A match may be played in parts: without a clock, the result of the whole book is the
/// sum of the results of its parts, however it is divided.
pub proof fn lemma_parts(
    rules: Rules,
    tb: Option<&Tablebase>,
    a: Engine,
    b: Engine,
    front: Seq<Seat>,
    back: Seq<Seat>,
    games: Seq<GameResult>,
    x: Seq<GameResult>,
    y: Seq<GameResult>,
    r: MatchResult,
    p: MatchResult,
    q: MatchResult,
)
    requires
        !a.timed(),
        !b.timed(),
        games.len() == 2 * (front + back).len(),
        x.len() == 2 * front.len(),
        y.len() == 2 * back.len(),
        may_be_games(a, b, rules, tb, front + back, games),
        may_be_games(a, b, rules, tb, front, x),
        may_be_games(a, b, rules, tb, back, y),
        r.counts(games),
        p.counts(x),
        q.counts(y),
    ensures
        r.wins == p.wins + q.wins,
        r.draws == p.draws + q.draws,
        r.losses == p.losses + q.losses,
{
    let book = front + back;
    assert forall|i: int| 0 <= i < games.len() implies games[i] == (x + y)[i] by {
        let at = book[i / 2];
        if i < x.len() {
            assert(at == front[i / 2]);
            lemma_one_result(rules, tb, a, b, i % 2 == 0, at, games[i], x[i]);
        } else {
            let j = i - x.len();
            assert(j / 2 == i / 2 - front.len());
            assert(j % 2 == i % 2);
            assert(at == back[j / 2]);
            lemma_one_result(rules, tb, a, b, i % 2 == 0, at, games[i], y[j]);
        }
    }
    assert(games =~= x + y);
    lemma_count_join(x, y, GameResult::Win);
    lemma_count_join(x, y, GameResult::Draw);
    lemma_count_join(x, y, GameResult::Loss);
}

// ---------------------------------------------------------------------------
// Laws of play between engines
// ---------------------------------------------------------------------------

proof fn lemma_halves(s: Seq<int>)
    requires
        model::valid(s),
    ensures
        ({
            let h = s.len() as int / 2;
            &&& model::total(s.take(h)) == model::total(model::mine(s)) + model::bank(s)
            &&& model::total(s.skip(h)) == model::total(model::theirs(s)) + model::their_bank(s)
            &&& model::flip(s).take(h) == s.skip(h)
            &&& model::flip(s).skip(h) == s.take(h)
        }),
{
    let h = s.len() as int / 2;
    assert(s.take(h).drop_last() =~= model::mine(s));
    assert(s.skip(h).drop_last() =~= model::theirs(s));
    assert(model::flip(s).take(h) =~= s.skip(h));
    assert(model::flip(s).skip(h) =~= s.take(h));
}

/// Who has won: each player's own pits and store are counted, and engine A has won if the
/// side that it plays has more seeds, has lost if that side has fewer, and has drawn if both
/// have as many. It does not matter whose turn it is.
pub proof fn lemma_result(end: Seat, a_is_p0: bool)
    requires
        model::valid(end.pos),
    ensures
        ({
            let cells = match end.mover {
                Player::P0 => end.pos,
                Player::P1 => model::flip(end.pos),
            };
            let h = cells.len() as int / 2;
            let south = model::total(cells.take(h));
            let north = model::total(cells.skip(h));
            let own = if a_is_p0 {
                south
            } else {
                north
            };
            let other = if a_is_p0 {
                north
            } else {
                south
            };
            &&& result_of(end, a_is_p0) == GameResult::Win <==> own > other
            &&& result_of(end, a_is_p0) == GameResult::Loss <==> own < other
            &&& result_of(end, a_is_p0) == GameResult::Draw <==> own == other
        }),
{
    lemma_halves(end.pos);
}

/// In a game, each move is one that the side to move can play, and is chosen by the engine
/// that plays that side: engine A's if P0 is to move and A plays P0, or if P1 is to move and
/// A plays P1. The game goes on until it is over, or for a hundred thousand moves.
pub proof fn lemma_turns(
    rules: Rules,
    tb: Option<&Tablebase>,
    a: Engine,
    b: Engine,
    a_is_p0: bool,
    at: Seat,
    line: Seq<usize>,
    k: int,
)
    requires
        whole_game(rules, tb, a, b, a_is_p0, at, line),
        0 <= k < line.len(),
    ensures
        ({
            let before = board::seat_after(rules, at, line.take(k));
            let chooser = match before.mover {
                Player::P0 => if a_is_p0 {
                    a
                } else {
                    b
                },
                Player::P1 => if a_is_p0 {
                    b
                } else {
                    a
                },
            };
            &&& !model::over(before.pos)
            &&& model::legal(before.pos, line[k] as int)
            &&& chooser.may_choose(rules, tb, before, line[k] as int)
        }),
        line.len() <= 100_000,
        line.len() < 100_000 ==> model::over(board::seat_after(rules, at, line).pos),
{
    lemma_turn(rules, tb, a, b, a_is_p0, at, line, k);
}

proof fn lemma_turn(
    rules: Rules,
    tb: Option<&Tablebase>,
    a: Engine,
    b: Engine,
    a_is_p0: bool,
    at: Seat,
    line: Seq<usize>,
    k: int,
)
    requires
        played_by(rules, tb, a, b, a_is_p0, at, line),
        0 <= k < line.len(),
    ensures
        ({
            let before = board::seat_after(rules, at, line.take(k));
            &&& !model::over(before.pos)
            &&& model::legal(before.pos, line[k] as int)
            &&& (if (before.mover == Player::P0) == a_is_p0 {
                a
            } else {
                b
            }).may_choose(rules, tb, before, line[k] as int)
        }),
    decreases line.len(),
{
    let front = line.drop_last();
    if k < front.len() {
        lemma_turn(rules, tb, a, b, a_is_p0, at, front, k);
        assert(front.take(k) =~= line.take(k));
    } else {
        assert(line.take(k) =~= front);
    }
}

/// A match plays each opening twice: first with engine A as P0, then with engine A as P1.
/// The result counts, for engine A, each game once.
pub proof fn lemma_match(
    a: Engine,
    b: Engine,
    rules: Rules,
    tb: Option<&Tablebase>,
    book: Seq<Seat>,
    games: Seq<GameResult>,
    g: GameResult,
    r: MatchResult,
    more: MatchResult,
    j: int,
)
    requires
        games.len() == 2 * book.len(),
        may_be_games(a, b, rules, tb, book, games),
        0 <= j < book.len(),
        r.counts(games),
        more.counts(games.push(g)),
    ensures
        may_end(rules, tb, a, b, true, book[j], games[2 * j]),
        may_end(rules, tb, a, b, false, book[j], games[2 * j + 1]),
        r.wins + r.draws + r.losses == 2 * book.len(),
        g is Win ==> more.wins == r.wins + 1 && more.draws == r.draws && more.losses == r.losses,
        g is Draw ==> more.wins == r.wins && more.draws == r.draws + 1 && more.losses == r.losses,
        g is Loss ==> more.wins == r.wins && more.draws == r.draws && more.losses == r.losses + 1,
{
    assert((2 * j) / 2 == j && (2 * j + 1) / 2 == j);
    assert((2 * j) % 2 == 0 && (2 * j + 1) % 2 == 1);
    assert(may_end(rules, tb, a, b, (2 * j) % 2 == 0, book[(2 * j) / 2], games[2 * j]));
    assert(may_end(rules, tb, a, b, (2 * j + 1) % 2 == 0, book[(2 * j + 1) / 2], games[2 * j + 1]));
    lemma_counts(r, games);
    lemma_count_push(games, g);
}

/// What each engine goes by at a fixed depth: the plain one looks ahead without any table or
/// quiescence; the playing one consults a tablebase of the board's size, or else an endgame
/// table of up to 12 seeds in play; and the analyzing one, where its budget is enough, plays
/// for the value of perfect play. A depth of 0 counts as 1.
pub proof fn lemma_engines(
    d: u32,
    quiesce: bool,
    tt: bool,
    budget: u64,
    depth: u32,
    rules: Rules,
    tb: Option<&Tablebase>,
    at: Seat,
    m: int,
)
    requires
        model::valid(at.pos),
        !model::over(at.pos),
    ensures
        ({
            let s = at.pos;
            let usable = if tb matches Some(t) && t.pits() == s.len() / 2 - 1 {
                tb
            } else {
                None
            };
            let ply = Some(
                if d == 0 {
                    1
                } else {
                    d as int
                },
            );
            let plain = Engine::Heuristic { limit: Limit::Depth(d) };
            let play = Engine::Play { limit: Limit::Depth(d), quiesce, tt };
            let solve = Engine::Analyze { budget, depth };
            &&& plain.may_choose(rules, tb, at, m) ==> analysis::is_best(
                searcher::setting(rules, None, 0, false),
                s,
                m,
                ply,
            )
            &&& play.may_choose(rules, tb, at, m) ==> analysis::is_best(
                searcher::setting(
                    rules,
                    usable,
                    if usable is None {
                        12
                    } else {
                        0
                    },
                    quiesce,
                ),
                s,
                m,
                ply,
            )
            &&& solve.may_choose(rules, tb, at, m) && solver::affordable(rules, tb, at, budget) && (
            usable matches Some(t) ==> t.correct(rules)) ==> model::legal(s, m)
                && value::move_margin(rules, s, m) == value::game_value(rules, s)
            &&& solve.may_choose(rules, tb, at, m) && !solver::affordable(rules, tb, at, budget)
                ==> analysis::is_best(
                searcher::setting(rules, None, 0, false),
                s,
                m,
                Some(depth as int),
            )
        }),
{
    let s = at.pos;
    let n = model::pits(s);
    let solve = Engine::Analyze { budget, depth };
    let usable = solver::matching(tb, n);
    if solve.may_choose(rules, tb, at, m) && solver::affordable(rules, tb, at, budget) && (
    usable matches Some(t) ==> t.correct(rules)) {
        let c = solver::exact_setting(rules, tb, n, budget);
        searcher::lemma_setting_truthful_if(
            rules,
            usable,
            solver::exact_cutoff(usable, n, budget),
            false,
        );
        value::lemma_truth_is_modest(c);
        value::lemma_search_is_perfect(c, s);
        value::lemma_game_value_is_best(rules, s);
        let j = choose|j: int|
            model::legal(s, j) && #[trigger] value::move_margin(rules, s, j) == value::game_value(
                rules,
                s,
            );
        assert(value::move_value(c, s, j, None) <= value::move_value(c, s, m, None));
        assert(value::move_margin(rules, s, m) <= value::game_value(rules, s));
    }
}

// ---------------------------------------------------------------------------
// Laws of engine specs and openings
// ---------------------------------------------------------------------------

/// A limit: `n` and a number of nodes, `t` and a number of milliseconds, or a depth, with a
/// `d` before it or without.
pub proof fn lemma_limit(n: int, spec_text: Seq<char>)
    requires
        n >= 0,
    ensures
        n <= u64::MAX ==> limit_of(seq!['n'] + text::decimal(n), spec_text) == Ok::<
            Limit,
            Seq<char>,
        >(Limit::Nodes(n as u64)),
        n <= u64::MAX ==> limit_of(seq!['t'] + text::decimal(n), spec_text) == Ok::<
            Limit,
            Seq<char>,
        >(Limit::Time(n as u64)),
        n <= u32::MAX ==> limit_of(seq!['d'] + text::decimal(n), spec_text) == Ok::<
            Limit,
            Seq<char>,
        >(Limit::Depth(n as u32)),
        n <= u32::MAX ==> limit_of(text::decimal(n), spec_text) == Ok::<Limit, Seq<char>>(
            Limit::Depth(n as u32),
        ),
        n > u64::MAX ==> limit_of(seq!['n'] + text::decimal(n), spec_text) == Err::<
            Limit,
            Seq<char>,
        >("bad node budget"@ + " in '"@ + spec_text + "'"@),
        n > u64::MAX ==> limit_of(seq!['t'] + text::decimal(n), spec_text) == Err::<
            Limit,
            Seq<char>,
        >("bad time budget (ms)"@ + " in '"@ + spec_text + "'"@),
        n > u32::MAX ==> limit_of(text::decimal(n), spec_text) == Err::<Limit, Seq<char>>(
            "bad depth"@ + " in '"@ + spec_text + "'"@,
        ),
{
    let d = text::decimal(n);
    text::lemma_decimal(n);
    text::lemma_number(n, u64::MAX as int, d);
    text::lemma_number(n, u32::MAX as int, d);
    assert(text::is_digit(d[0]));
    assert((seq!['n'] + d).drop_first() =~= d);
    assert((seq!['t'] + d).drop_first() =~= d);
    assert((seq!['d'] + d).drop_first() =~= d);
}

proof fn lemma_two_parts(x: Seq<char>, y: Seq<char>)
    requires
        !x.contains(':'),
        !y.contains(':'),
    ensures
        text::split(x.push(':') + y, ':') == seq![x, y],
{
    text::lemma_split_join(x, y, ':');
    text::lemma_split_whole(x, ':');
    text::lemma_split_whole(y, ':');
    assert(text::split(x.push(':') + y, ':') =~= seq![x, y]);
}

proof fn lemma_letters()
    ensures
        "h"@ == seq!['h'],
        "p"@ == seq!['p'],
        "q"@ == seq!['q'],
        "a"@ == seq!['a'],
        "nott"@ == seq!['n', 'o', 't', 't'],
{
    reveal_strlit("h");
    reveal_strlit("p");
    reveal_strlit("q");
    reveal_strlit("a");
    reveal_strlit("nott");
    assert("h"@ =~= seq!['h']);
    assert("p"@ =~= seq!['p']);
    assert("q"@ =~= seq!['q']);
    assert("a"@ =~= seq!['a']);
    assert("nott"@ =~= seq!['n', 'o', 't', 't']);
}

proof fn lemma_letter(c: char, lim: Seq<char>)
    requires
        c != ':',
        !lim.contains(':'),
    ensures
        text::split(seq![c, ':'] + lim, ':') == seq![seq![c], lim],
{
    assert(seq![c, ':'] + lim =~= seq![c].push(':') + lim);
    lemma_two_parts(seq![c], lim);
}

/// The plain engine: `h` and a limit.
pub proof fn lemma_engine_plain(lim: Seq<char>)
    requires
        !lim.contains(':'),
    ensures
        ({
            let h = seq!['h', ':'] + lim;
            match limit_of(lim, h) {
                Ok(limit) => engine_of(h) == Ok::<Engine, Seq<char>>(Engine::Heuristic { limit }),
                Err(e) => engine_of(h) == Err::<Engine, Seq<char>>(e),
            }
        }),
{
    lemma_letters();
    lemma_letter('h', lim);
}

/// The playing engine: `p` and a limit, or `q` and a limit for one that extends forcing moves
/// at the horizon.
pub proof fn lemma_engine_play(lim: Seq<char>)
    requires
        !lim.contains(':'),
    ensures
        ({
            let p = seq!['p', ':'] + lim;
            let q = seq!['q', ':'] + lim;
            &&& match limit_of(lim, p) {
                Ok(limit) => engine_of(p) == Ok::<Engine, Seq<char>>(
                    Engine::Play { limit, quiesce: false, tt: true },
                ),
                Err(e) => engine_of(p) == Err::<Engine, Seq<char>>(e),
            }
            &&& match limit_of(lim, q) {
                Ok(limit) => engine_of(q) == Ok::<Engine, Seq<char>>(
                    Engine::Play { limit, quiesce: true, tt: true },
                ),
                Err(e) => engine_of(q) == Err::<Engine, Seq<char>>(e),
            }
        }),
{
    lemma_letters();
    lemma_letter('p', lim);
    lemma_letter('q', lim);
    assert(seq!['p'][0] != seq!['h'][0]);
    assert(seq!['q'][0] != seq!['h'][0]);
    assert(seq!['p'][0] != seq!['q'][0]);
}

/// `q`, a limit and `nott`: the playing engine that extends forcing moves and does without
/// the transposition table.
pub proof fn lemma_engine_nott(lim: Seq<char>)
    requires
        !lim.contains(':'),
    ensures
        ({
            let x = seq!['q', ':'] + lim + seq![':', 'n', 'o', 't', 't'];
            match limit_of(lim, x) {
                Ok(limit) => engine_of(x) == Ok::<Engine, Seq<char>>(
                    Engine::Play { limit, quiesce: true, tt: false },
                ),
                Err(e) => engine_of(x) == Err::<Engine, Seq<char>>(e),
            }
        }),
{
    lemma_letters();
    lemma_letter('q', lim);
    let q = seq!['q', ':'] + lim;
    let nott = seq!['n', 'o', 't', 't'];
    let x = q + seq![':', 'n', 'o', 't', 't'];
    assert(x =~= q.push(':') + nott);
    text::lemma_split_join(q, nott, ':');
    text::lemma_split_whole(nott, ':');
    assert(text::split(x, ':') =~= seq![seq!['q'], lim, nott]);
}

/// The analyzing engine: `a`, a budget of nodes and the depth to fall back to.
pub proof fn lemma_engine_analyze(budget: int, depth: int)
    requires
        0 <= budget <= u64::MAX,
        0 <= depth <= u32::MAX,
    ensures
        engine_of(seq!['a', ':'] + text::decimal(budget) + seq![':'] + text::decimal(depth)) == Ok::<
            Engine,
            Seq<char>,
        >(Engine::Analyze { budget: budget as u64, depth: depth as u32 }),
{
    lemma_letters();
    let b = text::decimal(budget);
    let d = text::decimal(depth);
    let x = seq!['a', ':'] + b + seq![':'] + d;
    text::lemma_decimal(budget);
    text::lemma_decimal(depth);
    text::lemma_number(budget, u64::MAX as int, b);
    text::lemma_number(depth, u32::MAX as int, d);
    assert(!b.contains(':')) by {
        if b.contains(':') {
            let j = choose|j: int| 0 <= j < b.len() && b[j] == ':';
            assert(text::is_digit(b[j]));
        }
    }
    assert(!d.contains(':')) by {
        if d.contains(':') {
            let j = choose|j: int| 0 <= j < d.len() && d[j] == ':';
            assert(text::is_digit(d[j]));
        }
    }
    let front = seq!['a'].push(':') + b;
    assert(x =~= front.push(':') + d);
    lemma_two_parts(seq!['a'], b);
    text::lemma_split_join(front, d, ':');
    text::lemma_split_whole(d, ':');
    assert(text::split(x, ':') =~= seq![seq!['a'], b, d]);
    assert(seq!['a'][0] != seq!['q'][0]);
}

/// A text of one part, or of more than three, names no engine.
pub proof fn lemma_no_engine(spec_text: Seq<char>)
    requires
        text::split(spec_text, ':').len() != 2,
        text::split(spec_text, ':').len() != 3,
    ensures
        engine_of(spec_text) == Err::<Engine, Seq<char>>(
            "bad engine spec '"@ + spec_text
                + "' (h/p/q:<lim> or a:<budget>:<depth>; <lim> = depth '6', nodes 'n200000', or time 't50'; 'q:<lim>:nott' disables the TT)"@,
        ),
{
}

/// Every move of the line is one that the side to move can play, and none is made after the
/// game is over.
pub open spec fn plays_legally(rules: Rules, at: Seat, line: Seq<usize>) -> bool {
    forall|k: int| 0 <= k < line.len() ==> plays_at(rules, at, line, #[trigger] line[k] as int, k)
}

/// Move `k` of the line is `m`, and can be played.
pub open spec fn plays_at(rules: Rules, at: Seat, line: Seq<usize>, m: int, k: int) -> bool {
    let before = board::seat_after(rules, at, line.take(k));
    &&& !model::over(before.pos)
    &&& model::legal(before.pos, m)
}

proof fn lemma_plays_first(rules: Rules, at: Seat, m: usize, rest: Seq<usize>)
    requires
        !model::over(at.pos),
        model::legal(at.pos, m as int),
        plays_legally(rules, at.moved(rules, m as int), rest),
    ensures
        plays_legally(rules, at, seq![m] + rest),
        board::seat_after(rules, at, seq![m] + rest) == board::seat_after(
            rules,
            at.moved(rules, m as int),
            rest,
        ),
{
    let line = seq![m] + rest;
    lemma_seat_first(rules, at, m, rest);
    assert forall|k: int| 0 <= k < line.len() implies plays_at(
        rules,
        at,
        line,
        #[trigger] line[k] as int,
        k,
    ) by {
        if k == 0 {
            assert(line.take(0) =~= Seq::<usize>::empty());
        } else {
            assert(line.take(k) =~= seq![m] + rest.take(k - 1));
            lemma_seat_first(rules, at, m, rest.take(k - 1));
            assert(line[k] == rest[k - 1]);
            assert(plays_at(rules, at.moved(rules, m as int), rest, rest[k - 1] as int, k - 1));
        }
    }
}

proof fn lemma_walk_step(at: Seat, state: u64) -> (mv: int)
    requires
        model::valid(at.pos),
        !model::over(at.pos),
    ensures
        ({
            let pits = model::legal_pits(at.pos);
            mv == pits[scrambled(stepped(state)) as int % pits.len() as int]
        }),
        model::legal(at.pos, mv),
{
    let pits = model::legal_pits(at.pos);
    let v = scrambled(stepped(state)) as int;
    let len = pits.len() as int;
    lemma_legal_pits(at.pos, model::pits(at.pos));
    model::lemma_has_move(at.pos);
    let i = choose|i: int| model::legal(at.pos, i);
    assert(model::legal(at.pos, i));
    assert(len > 0);
    let x = v % len;
    assert(0 <= x < len) by (nonlinear_arith)
        requires
            x == v % len,
            len > 0,
    ;
    assert(model::legal(at.pos, model::legal_below(at.pos, model::pits(at.pos))[x]));
    pits[x]
}

/// A random walk plays legal moves, as many as it was asked for unless the game is over
/// before.
pub proof fn lemma_walk(rules: Rules, at: Seat, plies: nat, state: u64) -> (line: Seq<usize>)
    requires
        model::valid(at.pos),
        at.pos.len() <= 32,
    ensures
        walk(rules, at, plies, state).0 == board::seat_after(rules, at, line),
        line.len() <= plies,
        line.len() == plies || model::over(walk(rules, at, plies, state).0.pos),
        plays_legally(rules, at, line),
    decreases plies,
{
    if plies == 0 || model::over(at.pos) {
        Seq::empty()
    } else {
        let mv = lemma_walk_step(at, state);
        model::lemma_after(rules, at.pos, mv);
        let next = at.moved(rules, mv);
        let rest = lemma_walk(rules, next, (plies - 1) as nat, stepped(state));
        lemma_plays_first(rules, at, mv as usize, rest);
        seq![mv as usize] + rest
    }
}

proof fn lemma_seat_first(rules: Rules, at: Seat, m: usize, line: Seq<usize>)
    ensures
        board::seat_after(rules, at, seq![m] + line) == board::seat_after(
            rules,
            at.moved(rules, m as int),
            line,
        ),
    decreases line.len(),
{
    let whole = seq![m] + line;
    if line.len() == 0 {
        assert(whole.drop_last() =~= Seq::<usize>::empty());
        assert(board::seat_after(rules, at, whole.drop_last()) == at);
    } else {
        assert(whole.drop_last() =~= seq![m] + line.drop_last());
        lemma_seat_first(rules, at, m, line.drop_last());
    }
}

/// The openings of a book: none is over, no two are the same, there are no more than were
/// asked for, and each one is where some random walk from the start ends. There are fewer
/// only if all the walks, sixty-four for each opening and at least 4096, have been made.
pub proof fn lemma_openings(
    rules: Rules,
    start: Seat,
    plies: nat,
    count: nat,
    tries: nat,
    state: u64,
    found: Seq<Seat>,
)
    requires
        found.no_duplicates(),
        found.len() <= count,
        forall|j: int| 0 <= j < found.len() ==> !model::over((#[trigger] found[j]).pos),
    ensures
        ({
            let all = openings(rules, start, plies, count, tries, state, found);
            &&& all.no_duplicates()
            &&& found.len() <= all.len() <= count
            &&& all.len() <= found.len() + tries
            &&& all.take(found.len() as int) == found
            &&& forall|j: int| 0 <= j < all.len() ==> !model::over((#[trigger] all[j]).pos)
            &&& forall|j: int|
                found.len() <= j < all.len() ==> exists|x: u64|
                    (#[trigger] walk(rules, start, plies, x)).0 == #[trigger] all[j]
        }),
        forall|n: usize| #[trigger]
            max_tries(n) == if n <= 64 {
                4096nat
            } else if n * 64 <= usize::MAX {
                (n * 64) as nat
            } else {
                usize::MAX as nat
            },
    decreases tries,
{
    let all = openings(rules, start, plies, count, tries, state, found);
    if tries == 0 || found.len() >= count {
        assert(all.take(found.len() as int) =~= found);
    } else {
        let (end, next) = walk(rules, start, plies, state);
        let more = if model::over(end.pos) || found.contains(end) {
            found
        } else {
            found.push(end)
        };
        assert(more.no_duplicates()) by {
            assert forall|i: int, j: int| 0 <= i < j < more.len() implies more[i] != more[j] by {
                if j == found.len() {
                    assert(found[i] != end) by {
                        assert(found.contains(found[i]));
                    }
                }
            }
        }
        lemma_openings(rules, start, plies, count, (tries - 1) as nat, next, more);
        assert(all.take(found.len() as int) =~= all.take(more.len() as int).take(
            found.len() as int,
        ));
        assert(more.take(found.len() as int) =~= found);
        assert forall|j: int| found.len() <= j < all.len() implies exists|x: u64|
            (#[trigger] walk(rules, start, plies, x)).0 == #[trigger] all[j] by {
            if j < more.len() {
                assert(all.take(more.len() as int)[j] == all[j]);
                assert(all[j] == end);
                assert(walk(rules, start, plies, state).0 == all[j]);
            }
        }
    }
}

/// The openings of a match: those that random walks from the standard opening find, with P0
/// to move first. There is a complaint if no opening is asked for or found, or if there is
/// no such board.
pub proof fn lemma_book_of(
    pits: usize,
    seeds: u8,
    rules: Rules,
    plies: u32,
    count: usize,
    seed: u64,
)
    ensures
        count == 0 ==> book_of(pits, seeds, rules, plies, count, seed) == Err::<
            Seq<Seat>,
            Seq<char>,
        >("could not generate any non-terminal openings"@),
        count > 0 && !(1 <= pits <= 15 && 2 * pits * seeds <= 255) ==> book_of(
            pits,
            seeds,
            rules,
            plies,
            count,
            seed,
        ) is Err,
        count > 0 && 1 <= pits <= 15 && 2 * pits * seeds <= 255 ==> {
            let found = openings(
                rules,
                Seat {
                    mover: Player::P0,
                    pos: board::opening_cells(pits as int, seeds as int),
                },
                plies as nat,
                count as nat,
                max_tries(count),
                seed ^ 0xA5A5_5A5A_1234_5678,
                Seq::empty(),
            );
            &&& found.len() > 0 ==> book_of(pits, seeds, rules, plies, count, seed) == Ok::<
                Seq<Seat>,
                Seq<char>,
            >(found)
            &&& found.len() == 0 ==> book_of(pits, seeds, rules, plies, count, seed) == Err::<
                Seq<Seat>,
                Seq<char>,
            >("could not generate any non-terminal openings"@)
        },
{
    let cells = board::opening_cells(pits as int, seeds as int);
    board::lemma_board_error(pits as int, cells);
    if pits >= 1 {
        board::lemma_opening(pits as int, seeds as int);
    }
}

proof fn lemma_played_valid(
    rules: Rules,
    tb: Option<&Tablebase>,
    a: Engine,
    b: Engine,
    a_is_p0: bool,
    at: Seat,
    line: Seq<usize>,
)
    requires
        model::valid(at.pos),
        played_by(rules, tb, a, b, a_is_p0, at, line),
    ensures
        model::valid(board::seat_after(rules, at, line).pos),
        model::total(board::seat_after(rules, at, line).pos) == model::total(at.pos),
    decreases line.len(),
{
    if line.len() > 0 {
        let front = line.drop_last();
        lemma_played_valid(rules, tb, a, b, a_is_p0, at, front);
        model::lemma_after(rules, board::seat_after(rules, at, front).pos, line.last() as int);
    }
}

/// What is reported of a game is how it ended: there is a line that the engines played, no
/// seed is lost on the way, and at its end engine A has won if its side has more than half of
/// the seeds, lost if it has less than half, and drawn if it has just half.
pub proof fn lemma_game_end(
    rules: Rules,
    tb: Option<&Tablebase>,
    a: Engine,
    b: Engine,
    a_is_p0: bool,
    at: Seat,
    g: GameResult,
) -> (line: Seq<usize>)
    requires
        model::valid(at.pos),
        may_end(rules, tb, a, b, a_is_p0, at, g),
    ensures
        whole_game(rules, tb, a, b, a_is_p0, at, line),
        ({
            let end = board::seat_after(rules, at, line);
            let cells = match end.mover {
                Player::P0 => end.pos,
                Player::P1 => model::flip(end.pos),
            };
            let h = cells.len() as int / 2;
            let own = if a_is_p0 {
                model::total(cells.take(h))
            } else {
                model::total(cells.skip(h))
            };
            &&& g is Win <==> 2 * own > model::total(at.pos)
            &&& g is Loss <==> 2 * own < model::total(at.pos)
            &&& g is Draw <==> 2 * own == model::total(at.pos)
        }),
{
    let line = choose|line: Seq<usize>| #[trigger]
        whole_game(rules, tb, a, b, a_is_p0, at, line) && g == result_of(
            board::seat_after(rules, at, line),
            a_is_p0,
        );
    let end = board::seat_after(rules, at, line);
    lemma_played_valid(rules, tb, a, b, a_is_p0, at, line);
    lemma_halves(end.pos);
    model::lemma_total_parts(end.pos);
    line
}

} // verus!
