//! Position solver: an exact alpha-beta search with a node budget, falling back
//! to a depth-limited heuristic search when the exact search is too expensive.
//!
//! What the solver promises of an [`Analysis`] is said by [`settles`].

use vstd::prelude::*;

use crate::analysis;
use crate::board::{Board, Player, Rules, Seat};
use crate::clock::Deadline;
use crate::effort;
use crate::keys;
use crate::model;
use crate::root;
use crate::run;
use crate::run::{Course, Mind, Reached};
use crate::searcher;
use crate::searcher::Searcher;
use crate::tablebase::Tablebase;
use crate::value;
use crate::value::Setting;

pub use crate::analysis::{Analysis, MoveEval, Outcome};
pub use crate::run::MAX_ITERATION;

verus! {

/// Seeds-in-play threshold at or below which the exact search consults the
/// store-independent endgame table instead of recursing. Chosen empirically as a
/// balance between endgame-table size and how much of the forward tree it prunes.
pub const ENDGAME_CUTOFF: u32 = 14;

/// Seeds-in-play cutoff for the **play** engine's lazy endgame table when no
/// precomputed tablebase is supplied. Smaller than the solver's cutoff because the
/// table is filled anew for each move during a game.
pub const PLAY_ENDGAME_CUTOFF: u32 = 12;

/// Largest board (pits per side) for which the endgame table is worthwhile. Bigger
/// boards have an explosive endgame space, so they skip it.
pub const ENDGAME_MAX_PITS: usize = 6;

/// Only fill the endgame table when the caller has committed to a substantial exact
/// search; small-budget probing attempts skip it so they stay cheap.
pub const ENDGAME_MIN_BUDGET: u64 = 50_000_000;

/// Slots of the transposition table of a heuristic fallback search.
pub const FALLBACK_SLOTS: usize = 0x40_0000;

/// Slots of the transposition table of a play search.
pub const PLAY_SLOTS: usize = 0x100_0000;

/// The tablebase, if it is for boards of `n` pits per side.
pub open spec fn matching<'a>(tb: Option<&'a Tablebase>, n: int) -> Option<&'a Tablebase> {
    match tb {
        Some(t) => if t.pits() == n {
            tb
        } else {
            None
        },
        None => None,
    }
}

/// Up to how many seeds in play an exact search consults the lazy endgame table: not
/// at all with a tablebase, on a large board or with a small budget.
pub open spec fn exact_cutoff(tb: Option<&Tablebase>, n: int, budget: u64) -> int {
    if tb is None && n <= ENDGAME_MAX_PITS && budget >= ENDGAME_MIN_BUDGET {
        ENDGAME_CUTOFF as int
    } else {
        0
    }
}

/// What an exact search goes by.
pub open spec fn exact_setting(
    rules: Rules,
    tb: Option<&Tablebase>,
    n: int,
    budget: u64,
) -> Setting {
    searcher::setting(rules, matching(tb, n), exact_cutoff(matching(tb, n), n, budget), false)
}

/// The number of slots that the transposition table of an exact search may grow to.
/// On narrow hosts over-allocating would be fatal, so it is less there; beyond it the
/// search just caches less.
pub open spec fn exact_limit() -> usize {
    if usize::BITS >= 64 {
        crate::tt::MAX_SLOTS
    } else {
        PLAY_SLOTS
    }
}

/// The course of an exact search.
pub open spec fn exact_course(
    rules: Rules,
    tb: Option<&Tablebase>,
    n: int,
    budget: u64,
) -> Course {
    Course {
        setting: exact_setting(rules, tb, n, budget),
        budget: budget as int,
        caching: true,
        limit: exact_limit() as int,
    }
}

/// The course of a fallback search.
pub open spec fn fallback_course(rules: Rules) -> Course {
    Course {
        setting: searcher::setting(rules, None, 0, false),
        budget: u64::MAX as int,
        caching: true,
        limit: FALLBACK_SLOTS as int,
    }
}

/// What a search that starts afresh learns from the analysis of a position, and the best
/// value and its move.
pub open spec fn fresh_run(co: Course, at: Seat, depth: Option<int>) -> (
    Option<Mind>,
    Option<(int, int)>,
) {
    run::analysis_run(co, searcher::fresh_mind(co.limit), at, depth)
}

/// An exact search of the position stays within the budget.
pub open spec fn affordable(rules: Rules, tb: Option<&Tablebase>, at: Seat, budget: u64) -> bool {
    fresh_run(exact_course(rules, tb, model::pits(at.pos), budget), at, None).0 is Some
}

/// The line of best play of an analysis ends where the search has learned of no best move.
pub open spec fn line_known(
    co: Course,
    m: Mind,
    s: Seq<int>,
    depth: Option<int>,
    a: Analysis,
) -> bool {
    !model::over(s) ==> (a.best_move matches Some(i) ==> run::line_ends(
        co,
        m.slots,
        model::after(co.setting.rules, s, i as int),
        value::deeper(depth),
        a.pv@.skip(1),
        analysis::line_cap(s),
    ))
}

/// The analysis is that of a search that starts afresh and stays within its budget: it
/// has the nodes and the best move of that search, and its line of best play ends where
/// the search has learned of no best move.
pub open spec fn comes_from(co: Course, at: Seat, depth: Option<int>, a: Analysis) -> bool {
    let (done, best) = fresh_run(co, at, depth);
    &&& root::reports(a, best)
    &&& done matches Some(m) && a.nodes == m.nodes && line_known(co, m, at.pos, depth, a)
}

/// A budget that no exact search of the position can use up.
pub open spec fn ample(rules: Rules, tb: Option<&Tablebase>, s: Seq<int>, budget: u64) -> bool {
    budget == u64::MAX || value::root_visits(
        exact_setting(rules, tb, model::pits(s), budget),
        s,
        None,
    ) <= budget
}

/// A budget that every exact search of the position uses up.
pub open spec fn scant(rules: Rules, tb: Option<&Tablebase>, s: Seq<int>, budget: u64) -> bool {
    budget < u64::MAX && budget < effort::least_nodes(
        exact_setting(rules, tb, model::pits(s), budget),
        s,
        None,
    )
}

/// The analysis took at least the nodes of the line that a search tries first, and at
/// most those of a search of every line. (The count stops at its largest value.)
pub open spec fn worked(c: Setting, s: Seq<int>, depth: Option<int>, a: Analysis) -> bool {
    &&& a.nodes >= effort::least_nodes(c, s, depth) || a.nodes == u64::MAX
    &&& a.nodes <= value::root_visits(c, s, depth)
}

/// Of several best moves, the analysis reports the one that a search tries first:
/// one whose seeds just reach the store, or else the one nearest to it.
pub open spec fn tried_first(c: Setting, s: Seq<int>, depth: Option<int>, a: Analysis) -> bool {
    a.best_move matches Some(m) && (c.modest() ==> forall|j: int|
        model::legal(s, j) && #[trigger] value::move_value(c, s, j, depth) == a.value
            ==> searcher::move_score(s, m as int, None, 0) <= searcher::move_score(s, j, None, 0))
}

/// Everything that a finished analysis of a position promises.
pub open spec fn settles(
    c: Setting,
    tb: Option<&Tablebase>,
    s: Seq<int>,
    depth: Option<int>,
    a: Analysis,
) -> bool {
    if model::over(s) {
        analysis::finished(s, depth, a)
    } else {
        &&& analysis::sound(c, s, depth, a)
        &&& analysis::complete(s, a)
        &&& analysis::principal(c, tb, s, depth, a)
        &&& tried_first(c, s, depth, a)
        &&& worked(c, s, depth, a)
    }
}

/// What one exact search took is enough: every budget of at least as many nodes, with the
/// same endgame cutoff, gives an exact analysis too, with the same nodes and the same best
/// move.
pub proof fn lemma_enough(
    rules: Rules,
    tb: Option<&Tablebase>,
    at: Seat,
    budget: u64,
    a: Analysis,
    other: u64,
)
    requires
        comes_from(exact_course(rules, tb, model::pits(at.pos), budget), at, None, a),
        a.nodes <= other,
        exact_cutoff(matching(tb, model::pits(at.pos)), model::pits(at.pos), budget)
            == exact_cutoff(matching(tb, model::pits(at.pos)), model::pits(at.pos), other),
    ensures
        affordable(rules, tb, at, other),
        fresh_run(exact_course(rules, tb, model::pits(at.pos), other), at, None) == fresh_run(
            exact_course(rules, tb, model::pits(at.pos), budget),
            at,
            None,
        ),
        forall|b: Analysis| #[trigger]
            comes_from(exact_course(rules, tb, model::pits(at.pos), other), at, None, b)
                ==> b.nodes == a.nodes && b.best_move == a.best_move && (a.best_move is Some
                ==> b.value == a.value),
{
    let co = exact_course(rules, tb, model::pits(at.pos), budget);
    let m = searcher::fresh_mind(co.limit);
    run::lemma_analysis_budget(co, m, at, None, other as int);
    assert(co.within(other as int) == exact_course(rules, tb, model::pits(at.pos), other));
}

/// Kalah is player-symmetric: two boards that look the same to their movers have the
/// same value, whoever the mover is.
pub proof fn lemma_mirror(rules: Rules, a: Board, b: Board)
    requires
        a.mover() == Player::P0,
        b.mover() == Player::P1,
        a.seen_by(Player::P0) == b.seen_by(Player::P1),
    ensures
        value::game_value(rules, a.pos()) == value::game_value(rules, b.pos()),
{
}

/// The number of slots that the transposition table of an exact search may grow to.
fn exact_slots() -> (n: usize)
    ensures
        n == exact_limit(),
        crate::tt::MIN_SLOTS <= n <= crate::tt::MAX_SLOTS,
{
    if usize::BITS >= 64 {
        crate::tt::MAX_SLOTS
    } else {
        PLAY_SLOTS
    }
}

/// The tablebase, if it is for the size of `board`.
fn matching_table<'a>(tb: Option<&'a Tablebase>, board: &Board) -> (m: Option<&'a Tablebase>)
    ensures
        m == matching(tb, board.pits()),
{
    match tb {
        Some(t) => if t.pits_per_side() == board.pits_per_side() {
            Some(t)
        } else {
            None
        },
        None => None,
    }
}

/// Analyze `board`: attempt an exact solve within `node_budget`; if that budget is
/// exceeded, fall back to a depth-limited heuristic search of `fallback_depth` plies.
///
/// An exact analysis gives the value of perfect play.
pub fn analyze(board: &Board, rules: Rules, node_budget: u64, fallback_depth: u32) -> (a: Analysis)
    requires
        fallback_depth >= 1 || model::over(board.pos()) || ample(
            rules,
            None,
            board.pos(),
            node_budget,
        ) || affordable(rules, None, board.seat(), node_budget),
    ensures
        a.side_to_move == board.mover(),
        a.exact ==> a.depth is None && settles(
            exact_setting(rules, None, board.pits(), node_budget),
            None,
            board.pos(),
            None,
            a,
        ) && a.value == value::game_value(rules, board.pos()) && a.move_evals@.len() <= a.nodes
            <= node_budget,
        !a.exact ==> a.depth == Some(fallback_depth) && settles(
            searcher::setting(rules, None, 0, false),
            None,
            board.pos(),
            Some(fallback_depth as int),
            a,
        ),
        ample(rules, None, board.pos(), node_budget) || model::over(board.pos()) ==> a.exact,
        scant(rules, None, board.pos(), node_budget) ==> !a.exact,
        a.exact == affordable(rules, None, board.seat(), node_budget),
        a.exact ==> comes_from(
            exact_course(rules, None, board.pits(), node_budget),
            board.seat(),
            None,
            a,
        ),
        !a.exact ==> comes_from(
            fallback_course(rules),
            board.seat(),
            Some(fallback_depth as int),
            a,
        ),
        model::over(board.pos()) ==> a.nodes == 0,
{
    analyze_with_tb(board, rules, node_budget, fallback_depth, None)
}

/// Attempt an exact solve of `board` within `node_budget`, consulting a precomputed
/// offline [`Tablebase`] for the endgame. The tablebase is used only if its board size
/// matches `board`. `None` if the budget is exceeded.
///
/// With a correct tablebase the analysis gives the value of perfect play.
pub fn solve_within(
    board: &Board,
    rules: Rules,
    node_budget: u64,
    tb: Option<&Tablebase>,
) -> (res: Option<Analysis>)
    ensures
        res matches Some(a) ==> {
            &&& a.exact
            &&& a.side_to_move == board.mover()
            &&& a.depth is None
            &&& settles(
                exact_setting(rules, tb, board.pits(), node_budget),
                matching(tb, board.pits()),
                board.pos(),
                None,
                a,
            )
            &&& a.move_evals@.len() <= a.nodes <= node_budget
            &&& model::over(board.pos()) ==> a.nodes == 0
            &&& comes_from(
                exact_course(rules, tb, board.pits(), node_budget),
                board.seat(),
                None,
                a,
            )
            &&& (matching(tb, board.pits()) matches Some(t) ==> t.correct(rules)) ==> a.value
                == value::game_value(rules, board.pos())
        },
        ample(rules, tb, board.pos(), node_budget) || model::over(board.pos()) ==> res is Some,
        scant(rules, tb, board.pos(), node_budget) ==> res is None,
        res is Some == affordable(rules, tb, board.seat(), node_budget),
{
    proof {
        use_type_invariant(board);
        board.lemma_seen();
    }
    let tb = matching_table(tb, board);
    // With a tablebase, the tablebase settles the endgame. Otherwise enable the lazy
    // endgame table only for small boards under a real exact budget (a cutoff of 0
    // disables it: no position that is not over has 0 seeds in play).
    let cutoff: u32 = if tb.is_none() && board.pits_per_side() <= ENDGAME_MAX_PITS && node_budget
        >= ENDGAME_MIN_BUDGET {
        ENDGAME_CUTOFF
    } else {
        0
    };
    let mut exact = Searcher::new(
        rules,
        node_budget,
        cutoff,
        tb,
        exact_slots(),
        false,
        true,
        None,
        Ghost(board.pits()),
    );
    let result = exact.analyze_root(board, None);
    if !exact.is_stopped() {
        proof {
            exact.lemma_table_size();
            lemma_best_is_legal(
                searcher::setting(rules, tb, cutoff as int, false),
                board.pos(),
                None,
                result,
            );
            searcher::lemma_setting_truthful_if(rules, tb, cutoff as int, false);
            if !model::over(board.pos()) && (tb matches Some(t) ==> t.correct(rules)) {
                analysis::lemma_perfect(
                    searcher::setting(rules, tb, cutoff as int, false),
                    board.pos(),
                    result,
                );
            }
        }
        return Some(result);
    }
    None
}

/// Like [`analyze`], but consulting a precomputed offline [`Tablebase`] for the
/// endgame. The tablebase is used only if its board size matches `board`.
///
/// With a correct tablebase an exact analysis gives the value of perfect play.
pub fn analyze_with_tb(
    board: &Board,
    rules: Rules,
    node_budget: u64,
    fallback_depth: u32,
    tb: Option<&Tablebase>,
) -> (a: Analysis)
    requires
        fallback_depth >= 1 || model::over(board.pos()) || ample(
            rules,
            tb,
            board.pos(),
            node_budget,
        ) || affordable(rules, tb, board.seat(), node_budget),
    ensures
        a.side_to_move == board.mover(),
        a.exact ==> a.depth is None && settles(
            exact_setting(rules, tb, board.pits(), node_budget),
            matching(tb, board.pits()),
            board.pos(),
            None,
            a,
        ) && a.move_evals@.len() <= a.nodes <= node_budget,
        a.exact && (matching(tb, board.pits()) matches Some(t) ==> t.correct(rules)) ==> a.value
            == value::game_value(rules, board.pos()),
        !a.exact ==> a.depth == Some(fallback_depth) && settles(
            searcher::setting(rules, None, 0, false),
            None,
            board.pos(),
            Some(fallback_depth as int),
            a,
        ),
        ample(rules, tb, board.pos(), node_budget) || model::over(board.pos()) ==> a.exact,
        scant(rules, tb, board.pos(), node_budget) ==> !a.exact,
        a.exact == affordable(rules, tb, board.seat(), node_budget),
        a.exact ==> comes_from(
            exact_course(rules, tb, board.pits(), node_budget),
            board.seat(),
            None,
            a,
        ),
        !a.exact ==> comes_from(
            fallback_course(rules),
            board.seat(),
            Some(fallback_depth as int),
            a,
        ),
        model::over(board.pos()) ==> a.nodes == 0,
{
    match solve_within(board, rules, node_budget, tb) {
        Some(a) => {
            return a;
        },
        None => {},
    }
    proof {
        use_type_invariant(board);
        board.lemma_seen();
    }
    // The exact search ran out of budget: fall back to a heuristic search.
    let mut limited = Searcher::new(
        rules,
        u64::MAX,
        0,
        None,
        FALLBACK_SLOTS,
        false,
        true,
        None,
        Ghost(board.pits()),
    );
    let result = limited.analyze_root(board, Some(fallback_depth));
    proof {
        lemma_best_is_legal(
            searcher::setting(rules, None, 0, false),
            board.pos(),
            Some(fallback_depth as int),
            result,
        );
    }
    result
}

// ---------------------------------------------------------------------------
// Play
// ---------------------------------------------------------------------------

/// A thinking limit for the play search.
#[derive(Clone, Copy, Debug, PartialEq, Eq, Structural)]
pub enum Limit {
    /// Search exactly this many plies.
    Depth(u32),
    /// Iteratively deepen until this many search nodes have been visited, returning
    /// the deepest fully-completed iteration (an anytime search, so two engines can
    /// be compared on equal *work* rather than equal depth).
    Nodes(u64),
    /// Iteratively deepen for this many milliseconds, returning the deepest
    /// fully-completed iteration.
    Time(u64),
}

/// The tablebase that a play search consults.
pub open spec fn play_table<'a>(
    tb: Option<&'a Tablebase>,
    n: int,
    use_endgame: bool,
) -> Option<&'a Tablebase> {
    if use_endgame {
        matching(tb, n)
    } else {
        None
    }
}

/// What a play search goes by.
pub open spec fn play_setting(
    rules: Rules,
    tb: Option<&Tablebase>,
    n: int,
    use_endgame: bool,
    quiesce: bool,
) -> Setting {
    searcher::setting(
        rules,
        play_table(tb, n, use_endgame),
        if use_endgame && play_table(tb, n, use_endgame) is None {
            PLAY_ENDGAME_CUTOFF as int
        } else {
            0
        },
        quiesce,
    )
}

/// The course of a play search.
pub open spec fn play_course(
    rules: Rules,
    tb: Option<&Tablebase>,
    n: int,
    budget: u64,
    use_endgame: bool,
    quiesce: bool,
    use_tt: bool,
) -> Course {
    Course {
        setting: play_setting(rules, tb, n, use_endgame, quiesce),
        budget: budget as int,
        caching: use_tt,
        limit: PLAY_SLOTS as int,
    }
}

/// How far a play search comes within a node budget. If not one move can be evaluated
/// within it, it looks one ply ahead without it.
pub open spec fn node_run(
    rules: Rules,
    tb: Option<&Tablebase>,
    at: Seat,
    budget: u64,
    use_endgame: bool,
    quiesce: bool,
    use_tt: bool,
) -> Reached {
    let n = model::pits(at.pos);
    let co = play_course(rules, tb, n, budget, use_endgame, quiesce, use_tt);
    match run::deepen_run(co, searcher::fresh_mind(co.limit), at, 1, None) {
        Some(reached) => reached,
        None => {
            let free = play_course(rules, tb, n, u64::MAX, use_endgame, quiesce, use_tt);
            let (done, best) = fresh_run(free, at, Some(1));
            Reached { depth: 1, best: best->0, mind: done }
        },
    }
}

/// What an iteratively deepening search has found: an iteration that covers every
/// move, or a first iteration that was cut short after the moves that it covers.
pub open spec fn iterated(
    c: Setting,
    tb: Option<&Tablebase>,
    s: Seq<int>,
    a: Analysis,
) -> bool {
    a.depth matches Some(d) && 1 <= d <= MAX_ITERATION && !a.exact && a.best_move is Some
        && analysis::sound(c, s, Some(d as int), a) && analysis::principal(
        c,
        tb,
        s,
        Some(d as int),
        a,
    ) && (d > 1 ==> analysis::complete(s, a)) && a.nodes <= value::visits_within(c, s, d as int)
}

/// A budget that the iterations of a deepening search up to depth `k` cannot use up.
pub open spec fn affords(c: Setting, s: Seq<int>, budget: u64, k: int) -> bool {
    budget == u64::MAX || value::visits_within(c, s, k) <= budget
}

/// The analysis comes from the deepest iteration that the budget is sure to allow, or
/// from a deeper one, and covers every move if there is such an iteration.
pub open spec fn deep_enough(c: Setting, s: Seq<int>, budget: u64, a: Analysis) -> bool {
    forall|k: int|
        1 <= k <= MAX_ITERATION && #[trigger] affords(c, s, budget, k) ==> (a.depth matches Some(d)
            && d >= k) && analysis::complete(s, a)
}

/// The analysis is that of the iteration which a deepening search came to.
pub open spec fn reaches(co: Course, s: Seq<int>, a: Analysis, r: Reached) -> bool {
    &&& a.depth matches Some(d) && d == r.depth
    &&& root::reports(a, Some(r.best))
    &&& r.mind matches Some(m) ==> a.nodes == m.nodes && line_known(co, m, s, Some(r.depth), a)
}

/// The analysis, if there is one, is that of the iteration which a deepening search came
/// to.
pub open spec fn reached_by(
    co: Course,
    s: Seq<int>,
    best: Option<Analysis>,
    r: Option<Reached>,
) -> bool {
    match (best, r) {
        (Some(a), Some(r)) => reaches(co, s, a, r),
        (None, None) => true,
        _ => false,
    }
}

/// Iterative deepening: the deepest iteration that finished within the limits (nodes
/// accumulate across iterations, so the budget bounds the whole search). If even the
/// first overruns, it is kept anyway, unless it has not evaluated a single move.
fn deepen(board: &Board, search: &mut Searcher) -> (best: Option<Analysis>)
    requires
        old(search).wf(),
        !old(search).stopped(),
        old(search).visited() == 0,
        board.pits() == old(search).terms().pits,
        !model::over(board.pos()),
    ensures
        ({
            let terms = old(search).terms();
            let c = terms.setting();
            let s = board.pos();
            &&& best matches Some(a) ==> iterated(c, terms.tb, s, a) && a.side_to_move
                == board.mover() && (a.depth == Some(1u32) || a.nodes <= terms.budget)
            &&& !terms.timed && affords(c, s, terms.budget, 1) ==> best is Some
            &&& !terms.timed ==> (best matches Some(a) ==> deep_enough(c, s, terms.budget, a))
            &&& !terms.timed ==> reached_by(
                terms.course(),
                s,
                best,
                run::deepen_run(terms.course(), old(search).mind(), board.seat(), 1, None),
            )
        }),
{
    let ghost terms = search.terms();
    let ghost c = terms.setting();
    let ghost s = board.pos();
    let mut best: Option<Analysis> = None;
    let mut depth: u32 = 1;
    let ghost goal = run::deepen_run(terms.course(), search.mind(), board.seat(), 1, None);
    let ghost mut so_far: Option<Reached> = None;
    proof {
        use_type_invariant(board);
        board.lemma_seen();
    }
    while depth <= MAX_ITERATION
        invariant
            search.wf(),
            !search.stopped(),
            search.terms() == terms,
            terms == old(search).terms(),
            c == terms.setting(),
            s == board.pos(),
            model::valid(s),
            board.pits() == terms.pits,
            !model::over(s),
            1 <= depth <= MAX_ITERATION + 1,
            goal == run::deepen_run(
                terms.course(),
                old(search).mind(),
                board.seat(),
                1,
                None,
            ),
            !terms.timed ==> goal == run::deepen_run(
                terms.course(),
                search.mind(),
                board.seat(),
                depth as int,
                so_far,
            ),
            !terms.timed ==> reached_by(terms.course(), s, best, so_far),
            search.visited() <= value::visits_within(c, s, depth - 1),
            depth == 1 <==> best is None,
            best matches Some(a) ==> iterated(c, terms.tb, s, a) && a.side_to_move
                == board.mover() && a.nodes <= terms.budget && a.depth == Some((depth - 1) as u32)
                && analysis::complete(s, a),
        decreases MAX_ITERATION + 1 - depth,
    {
        proof {
            reveal(run::deepen_run);
        }
        let a = search.analyze_root(board, Some(depth));
        proof {
            assert(search.visited() <= value::visits_within(c, s, depth as int));
            lemma_best_is_legal(c, s, Some(depth as int), a);
            search.lemma_table_size();
        }
        if search.is_stopped() {
            proof {
                assert forall|k: int|
                    depth <= k <= MAX_ITERATION && !terms.timed implies !#[trigger] affords(
                    c,
                    s,
                    terms.budget,
                    k,
                ) by {
                    value::lemma_visits_within(c, s, depth as int, k);
                }
            }
            if best.is_none() && a.best_move.is_some() {
                best = Some(a);
            }
            return best;
        }
        proof {
            if !terms.timed {
                so_far = Some(
                    Reached {
                        depth: depth as int,
                        best: (a.value as int, a.best_move->0 as int),
                        mind: Some(search.mind()),
                    },
                );
            }
        }
        best = Some(a);
        depth = depth + 1;
    }
    proof {
        reveal(run::deepen_run);
    }
    best
}

/// Play search: depth-limited, node-budgeted or timed alpha-beta with the estimate at
/// the horizon. `use_endgame` adds the exact endgame tables (the tablebase if given,
/// else the lazy endgame table) for perfect endgames on any board size; `quiesce` adds
/// a quiescence search through forcing moves; `use_tt` adds the transposition table.
/// With none of them this is the plain heuristic player.
#[verifier::rlimit(30)]
pub fn play_search(
    board: &Board,
    rules: Rules,
    tb: Option<&Tablebase>,
    limit: Limit,
    use_endgame: bool,
    quiesce: bool,
    use_tt: bool,
) -> (a: Analysis)
    ensures
        a.side_to_move == board.mover(),
        !a.exact,
        ({
            let c = play_setting(rules, tb, board.pits(), use_endgame, quiesce);
            let t = play_table(tb, board.pits(), use_endgame);
            let s = board.pos();
            match limit {
                Limit::Depth(d) => {
                    let d = if d >= 1 {
                        d
                    } else {
                        1
                    };
                    a.depth == Some(d) && settles(c, t, s, Some(d as int), a) && comes_from(
                        play_course(rules, tb, board.pits(), u64::MAX, use_endgame, quiesce, use_tt),
                        board.seat(),
                        Some(d as int),
                        a,
                    )
                },
                Limit::Nodes(n) => if model::over(s) {
                    a.depth == Some(1u32) && analysis::finished(s, Some(1), a)
                } else {
                    iterated(c, t, s, a) && (a.depth == Some(1u32) || a.nodes <= n) && deep_enough(
                        c,
                        s,
                        n,
                        a,
                    ) && reaches(
                        play_course(rules, tb, board.pits(), n, use_endgame, quiesce, use_tt),
                        s,
                        a,
                        node_run(rules, tb, board.seat(), n, use_endgame, quiesce, use_tt),
                    )
                },
                Limit::Time(_) => if model::over(s) {
                    a.depth == Some(1u32) && analysis::finished(s, Some(1), a)
                } else {
                    iterated(c, t, s, a)
                },
            }
        }),
        model::over(board.pos()) ==> a.nodes == 0,
{
    proof {
        use_type_invariant(board);
        board.lemma_seen();
    }
    let table = if use_endgame {
        matching_table(tb, board)
    } else {
        None
    };
    let cutoff: u32 = if use_endgame && table.is_none() {
        PLAY_ENDGAME_CUTOFF
    } else {
        0
    };
    let ghost c = searcher::setting(rules, table, cutoff as int, quiesce);
    let budget: u64 = match limit {
        Limit::Nodes(n) => n,
        Limit::Depth(_) => u64::MAX,
        Limit::Time(_) => u64::MAX,
    };
    let deadline = match limit {
        Limit::Time(millis) => Some(Deadline::after_millis(millis)),
        Limit::Nodes(_) => None,
        Limit::Depth(_) => None,
    };
    let mut search = Searcher::new(
        rules,
        budget,
        cutoff,
        table,
        PLAY_SLOTS,
        quiesce,
        use_tt,
        deadline,
        Ghost(board.pits()),
    );
    let depth: u32 = match limit {
        Limit::Depth(d) => {
            let depth: u32 = if d >= 1 {
                d
            } else {
                1
            };
            let a = search.analyze_root(board, Some(depth));
            proof {
                lemma_best_is_legal(c, board.pos(), Some(depth as int), a);
            }
            return a;
        },
        Limit::Nodes(_) => 1,
        Limit::Time(_) => 1,
    };
    if board.is_terminal() {
        // Nothing to look ahead to.
        return search.analyze_root(board, Some(depth));
    }
    if let Some(a) = deepen(board, &mut search) {
        return a;
    }
    // Not one move could be evaluated within the limits: look one ply ahead without
    // them.
    let mut glance = Searcher::new(
        rules,
        u64::MAX,
        cutoff,
        table,
        PLAY_SLOTS,
        quiesce,
        use_tt,
        None,
        Ghost(board.pits()),
    );
    let a = glance.analyze_root(board, Some(depth));
    proof {
        if let Limit::Nodes(n) = limit {
            assert forall|k: int| 1 <= k <= MAX_ITERATION implies !#[trigger] affords(
                c,
                board.pos(),
                n,
                k,
            ) by {
                value::lemma_visits_within(c, board.pos(), 1, k);
            }
        }
        lemma_best_is_legal(c, board.pos(), Some(depth as int), a);
        assert(value::visits_within(c, board.pos(), 0) == 0);
        assert(value::visits_within(c, board.pos(), 1) == value::root_visits(
            c,
            board.pos(),
            Some(1),
        ));
    }
    a
}

// ---------------------------------------------------------------------------
// Solving many positions
// ---------------------------------------------------------------------------

/// A reusable exact solver that keeps one transposition table warm across many root
/// positions. Solving several nearby positions (e.g. an opening tree) in turn is far
/// cheaper than independent solves because each later search reuses the table the
/// earlier ones populated. Used to build opening books.
pub struct Solver<'a> {
    searcher: Searcher<'a>,
}

impl<'a> Solver<'a> {
    /// The rules of the game.
    pub closed spec fn rules(&self) -> Rules {
        self.searcher.terms().rules
    }

    /// The tablebase that the solver consults.
    pub closed spec fn table(&self) -> Option<&'a Tablebase> {
        self.searcher.terms().tb
    }

    /// What the solver goes by.
    pub open spec fn setting(&self) -> Setting {
        searcher::setting(self.rules(), self.table(), 0, false)
    }

    /// The solver searches to the end of the game, without limits.
    pub closed spec fn wf(&self) -> bool {
        &&& self.searcher.wf()
        &&& self.searcher.terms().setting() == self.setting()
        &&& self.searcher.terms().budget == u64::MAX
        &&& !self.searcher.terms().timed
        &&& self.table() matches Some(t) && t.pits() == self.searcher.terms().pits
    }

    /// A solver that consults `tb` for the endgame (required: high-seed root solves
    /// are only tractable with a tablebase).
    pub fn new(rules: Rules, tb: &'a Tablebase) -> (s: Solver<'a>)
        ensures
            s.wf(),
            s.rules() == rules,
            s.table() == Some(tb),
    {
        Solver {
            searcher: Searcher::new(
                rules,
                u64::MAX,
                0,
                Some(tb),
                exact_slots(),
                false,
                true,
                None,
                Ghost(tb.pits()),
            ),
        }
    }

    /// Exactly solve `board`, returning its value (seed margin) and best move. Reuses
    /// the warm transposition table from previous calls.
    pub fn solve(&mut self, board: &Board) -> (out: (i32, Option<usize>))
        requires
            old(self).wf(),
            model::over(board.pos()) || old(self).table()->0.pits() == board.pits(),
        ensures
            final(self).wf(),
            final(self).rules() == old(self).rules(),
            final(self).table() == old(self).table(),
            model::over(board.pos()) ==> out.0 == value::final_margin(board.pos()) && out.1 is None,
            !model::over(board.pos()) ==> (out.1 matches Some(m) && analysis::is_best(
                old(self).setting(),
                board.pos(),
                m as int,
                None,
            ) && (old(self).setting().modest() ==> out.0 == value::move_value(
                old(self).setting(),
                board.pos(),
                m as int,
                None,
            ))),
            old(self).table()->0.correct(old(self).rules()) ==> out.0 == value::game_value(
                old(self).rules(),
                board.pos(),
            ),
            old(self).table()->0.correct(old(self).rules()) ==> (out.1 matches Some(m)
                ==> model::legal(board.pos(), m as int) && value::move_margin(
                old(self).rules(),
                board.pos(),
                m as int,
            ) == out.0),
    {
        let ghost c = self.setting();
        let ghost s = board.pos();
        proof {
            use_type_invariant(board);
            board.lemma_seen();
            value::lemma_leaf_bound(s);
        }
        if board.is_terminal() {
            return (board.terminal_margin(board.turn()), None);
        }
        self.searcher.restart();
        let a = self.searcher.analyze_root(board, None);
        proof {
            analysis::lemma_complete(c, s, None, a);
            searcher::lemma_setting_truthful_if(self.rules(), self.table(), 0, false);
            if self.table()->0.correct(self.rules()) {
                analysis::lemma_perfect(c, s, a);
            }
        }
        (a.value, a.best_move)
    }
}

/// The best move of a sound analysis is legal.
proof fn lemma_best_is_legal(c: Setting, s: Seq<int>, depth: Option<int>, a: Analysis)
    ensures
        analysis::sound(c, s, depth, a) ==> (a.best_move matches Some(m) ==> model::legal(
            s,
            m as int,
        )),
        analysis::sound(c, s, depth, a) && analysis::complete(s, a) && model::valid(s)
            && !model::over(s) ==> a.best_move is Some,
{
    reveal(analysis::ranking);
    if analysis::sound(c, s, depth, a) {
        if a.best_move is Some {
            assert(analysis::eval_ok(c, s, depth, a.move_evals@[0]));
        }
        if analysis::complete(s, a) && model::valid(s) && !model::over(s) {
            analysis::lemma_complete(c, s, depth, a);
        }
    }
}

// ---------------------------------------------------------------------------
// Laws of analyses
// ---------------------------------------------------------------------------

/// The evaluations of a finished analysis: every move once, the exact ones before those with
/// an upper bound, and of each kind the better ones first. The first of all is exact and
/// gives the value and the best move.
pub proof fn lemma_evaluations(
    c: Setting,
    tb: Option<&Tablebase>,
    s: Seq<int>,
    depth: Option<int>,
    a: Analysis,
)
    requires
        model::valid(s),
        !model::over(s),
        settles(c, tb, s, depth, a),
    ensures
        ({
            let evals = a.move_evals@;
            &&& evals.len() > 0
            &&& a.best_move == Some(evals[0].pit)
            &&& a.value == evals[0].value
            &&& !evals[0].bound
            &&& forall|i: int|
                0 <= i < s.len() / 2 - 1 && s[i] > 0 ==> #[trigger] analysis::evaluates(evals, i)
            &&& forall|x: int, y: int|
                0 <= x < y < evals.len() ==> {
                    &&& (#[trigger] evals[x]).pit != (#[trigger] evals[y]).pit
                    &&& evals[x].bound ==> evals[y].bound
                    &&& evals[x].bound == evals[y].bound ==> evals[x].value >= evals[y].value
                }
            &&& forall|k: int|
                0 <= k < evals.len() ==> {
                    let e = #[trigger] evals[k];
                    &&& e.pit < s.len() / 2 - 1
                    &&& s[e.pit as int] > 0
                    &&& e.value <= a.value
                    &&& e.extra_turn <==> (e.pit + s[e.pit as int]) % (s.len() - 1) == s.len() / 2
                        - 1
                    &&& e.captured == model::captures(c.rules, s, e.pit as int)
                    &&& c.modest() && !e.bound ==> e.value == value::move_value(
                        c,
                        s,
                        e.pit as int,
                        depth,
                    )
                    &&& c.modest() && e.bound ==> e.value >= value::move_value(
                        c,
                        s,
                        e.pit as int,
                        depth,
                    )
                }
            &&& c.modest() ==> forall|j: int|
                model::legal(s, j) ==> #[trigger] value::move_value(c, s, j, depth) <= a.value
        }),
{
    reveal(analysis::ranking);
    let evals = a.move_evals@;
    analysis::lemma_complete(c, s, depth, a);
    assert forall|i: int| 0 <= i < s.len() / 2 - 1 && s[i] > 0 implies #[trigger] analysis::evaluates(
        evals,
        i,
    ) by {
        assert(model::legal(s, i));
    }
    assert forall|k: int| 0 <= k < evals.len() implies {
        let e = #[trigger] evals[k];
        &&& model::legal(s, e.pit as int)
        &&& (e.extra_turn <==> (e.pit + s[e.pit as int]) % (s.len() - 1) == s.len() / 2 - 1)
    } by {
        assert(analysis::eval_ok(c, s, depth, evals[k]));
        model::lemma_extra_turn(s, evals[k].pit as int);
    }
}

/// The principal variation: it begins with the best move, every move is played in turn, is
/// legal and by the analysis's own lights as good as any other, and it goes no further than
/// the depth.
pub proof fn lemma_principal(
    c: Setting,
    tb: Option<&Tablebase>,
    s: Seq<int>,
    depth: Option<int>,
    a: Analysis,
    k: int,
)
    requires
        model::valid(s),
        !model::over(s),
        settles(c, tb, s, depth, a),
        0 <= k < a.pv@.len(),
    ensures
        a.best_move == Some(a.pv@[0]),
        depth matches Some(d) ==> a.pv@.len() <= d,
        a.pv@.len() <= 1 + 4 * (s.len() + model::total(s)),
        ({
            let t = analysis::line_end(c.rules, s, a.pv@.take(k));
            let left = match depth {
                Some(d) => Some(d - k),
                None => None,
            };
            &&& !model::over(t)
            &&& model::legal(t, a.pv@[k] as int)
            &&& c.modest() ==> forall|j: int| #[trigger]
                model::legal(t, j) ==> value::move_value(c, t, j, left) <= value::move_value(
                    c,
                    t,
                    a.pv@[k] as int,
                    left,
                )
        }),
{
    analysis::lemma_complete(c, s, depth, a);
    let m = a.best_move->0;
    let tail = a.pv@.skip(1);
    if k == 0 {
        assert(a.pv@.take(0) =~= Seq::<usize>::empty());
    } else {
        let child = model::after(c.rules, s, m as int);
        analysis::lemma_best_line(c, child, tail, value::deeper(depth), k - 1);
        assert(a.pv@.take(k) =~= seq![m] + tail.take(k - 1));
        analysis::lemma_line_first(c.rules, s, m, tail.take(k - 1));
        assert(tail[k - 1] == a.pv@[k]);
    }
}

/// The analysis of a position that is over has nothing to play. Its value is the final
/// margin: in seeds if the analysis is to the end of the game, and in scores of 100 for a
/// seed otherwise.
pub proof fn lemma_finished(
    c: Setting,
    tb: Option<&Tablebase>,
    s: Seq<int>,
    depth: Option<int>,
    a: Analysis,
)
    requires
        model::over(s),
        settles(c, tb, s, depth, a),
    ensures
        a.best_move is None,
        a.move_evals@.len() == 0,
        a.pv@.len() == 0,
        depth is None ==> a.value == value::final_margin(s),
        depth is Some ==> a.value == 100 * value::final_margin(s),
{
}

/// Of several best moves, the one is reported whose seeds just reach the store, if there is
/// one, and of those or else of all the one nearest to the store.
pub proof fn lemma_tie(
    c: Setting,
    tb: Option<&Tablebase>,
    s: Seq<int>,
    depth: Option<int>,
    a: Analysis,
    j: int,
)
    requires
        model::valid(s),
        s.len() <= 32,
        !model::over(s),
        c.modest(),
        settles(c, tb, s, depth, a),
        model::legal(s, j),
        value::move_value(c, s, j, depth) == a.value,
    ensures
        a.best_move matches Some(m) && ({
            let n = s.len() as int / 2 - 1;
            let i = m as int;
            &&& j + s[j] == n ==> i + s[i] == n
            &&& (i + s[i] == n <==> j + s[j] == n) ==> i >= j
        }),
{
    analysis::lemma_complete(c, s, depth, a);
    let i = a.best_move->0 as int;
    if i != j {
        searcher::lemma_move_order(s, i, j, None, 0, 0);
        searcher::lemma_move_order(s, j, i, None, 0, 0);
    }
}

/// When an exact search fills an endgame table, and up to how many seeds in play: without a
/// tablebase of the board's size, on boards of up to 6 pits per side, with a budget of at
/// least 50 million nodes, up to 14 seeds. A play search does so up to 12 seeds.
pub proof fn lemma_endgame_tables(
    rules: Rules,
    tb: Option<&Tablebase>,
    n: int,
    budget: u64,
    quiesce: bool,
    s: Seq<int>,
)
    requires
        model::valid(s),
    ensures
        ({
            let usable = tb matches Some(t) && t.pits() == n;
            let l = value::layout(s);
            let exact = exact_setting(rules, tb, n, budget);
            let play = play_setting(rules, tb, n, true, quiesce);
            let plain = play_setting(rules, tb, n, false, quiesce);
            &&& usable ==> (exact.oracle)(l) == tb->0.knows(l) && (play.oracle)(l) == tb->0.knows(l)
            &&& !usable && n <= 6 && budget >= 50_000_000 && model::in_play(s) <= 14 ==> (
            exact.oracle)(l) == Some(value::game_value(rules, s) - model::lead(s))
            &&& !usable && (n > 6 || budget < 50_000_000 || model::in_play(s) > 14)
                && model::in_play(s) > 0 ==> (exact.oracle)(l) is None
            &&& !usable && model::in_play(s) <= 12 ==> (play.oracle)(l) == Some(
                value::game_value(rules, s) - model::lead(s),
            )
            &&& !usable && model::in_play(s) > 12 ==> (play.oracle)(l) is None
            &&& model::in_play(s) > 0 ==> (plain.oracle)(l) is None
            &&& !exact.quiesce && play.quiesce == quiesce && plain.quiesce == quiesce
            &&& exact.rules == rules && play.rules == rules && plain.rules == rules
        }),
{
    let m = matching(tb, n);
    searcher::lemma_claims(rules, m, exact_cutoff(m, n, budget), false, s);
    searcher::lemma_claims(rules, m, 12, quiesce, s);
    searcher::lemma_claims(rules, m, 0, quiesce, s);
    searcher::lemma_claims(rules, None, 0, quiesce, s);
}

/// How large the transposition tables grow: to 2^28 slots in an exact search, or 2^24 where
/// an address has fewer than 64 bits; to 2^22 in a fallback search; and to 2^24 in a play
/// search. The first two always use theirs, a play search if it is told to.
pub proof fn lemma_table_limits(
    rules: Rules,
    tb: Option<&Tablebase>,
    n: int,
    budget: u64,
    use_endgame: bool,
    quiesce: bool,
    use_tt: bool,
)
    ensures
        usize::BITS >= 64 ==> exact_course(rules, tb, n, budget).limit == 0x1000_0000,
        usize::BITS < 64 ==> exact_course(rules, tb, n, budget).limit == 0x100_0000,
        exact_course(rules, tb, n, budget).budget == budget,
        exact_course(rules, tb, n, budget).caching,
        fallback_course(rules).limit == 0x40_0000,
        fallback_course(rules).budget == u64::MAX,
        fallback_course(rules).caching,
        fallback_course(rules).setting.rules == rules,
        !fallback_course(rules).setting.quiesce,
        ({
            let co = play_course(rules, tb, n, budget, use_endgame, quiesce, use_tt);
            co.limit == 0x100_0000 && co.budget == budget && co.caching == use_tt
        }),
{
}

/// Where the principal variation ends: at the end of the game, at the end of the depth, where
/// the tablebase does not know the position, or at its longest.
pub proof fn lemma_variation_end(
    c: Setting,
    tb: Option<&Tablebase>,
    s: Seq<int>,
    depth: Option<int>,
    a: Analysis,
)
    requires
        model::valid(s),
        !model::over(s),
        settles(c, tb, s, depth, a),
    ensures
        ({
            let end = analysis::line_end(c.rules, s, a.pv@);
            ||| model::over(end)
            ||| depth == Some(a.pv@.len() as int)
            ||| a.pv@.len() == 1 + 4 * (s.len() + model::total(s))
            ||| tb is None
            ||| tb->0.knows(value::layout(end)) is None
        }),
{
    analysis::lemma_complete(c, s, depth, a);
    let m = a.best_move->0;
    let tail = a.pv@.skip(1);
    assert(a.pv@ =~= seq![m] + tail);
    analysis::lemma_line_first(c.rules, s, m, tail);
}

} // verus!
