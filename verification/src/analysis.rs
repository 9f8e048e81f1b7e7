//! What an analysis of a position says.
//!
//! The promises of an [`Analysis`] are [`sound`], [`complete`], [`principal`] and, for
//! a position that is over, [`finished`].

use vstd::prelude::*;

use crate::board::{Player, Rules};
use crate::model;
use crate::search;
use crate::searcher::INF;
use crate::tablebase::Tablebase;
use crate::value;
use crate::value::Setting;

verus! {

/// The outcome category of a position for the side to move.
#[derive(Clone, Copy, Debug, PartialEq, Eq, Structural)]
pub enum Outcome {
    Win,
    Loss,
    Draw,
}

/// Evaluation of a single candidate move from the analyzed position.
#[derive(Clone, Copy, Debug, PartialEq, Eq, Structural)]
pub struct MoveEval {
    /// 0-based pit index for the side to move.
    pub pit: usize,
    /// Value of the resulting position from the side-to-move's perspective.
    /// When `bound` is `true` this is only an upper bound (the move is provably
    /// no better than the best move, so it was not searched to an exact value).
    pub value: i32,
    /// If `true`, `value` is an upper bound rather than exact. This happens for
    /// inferior moves under the single-pass root search, which avoids the cost of
    /// proving an exact value for moves that cannot win.
    pub bound: bool,
    /// Whether this move grants an extra turn.
    pub extra_turn: bool,
    /// Whether this move performs a capture.
    pub captured: bool,
}

/// The full analysis of a position.
#[derive(Clone, Debug)]
pub struct Analysis {
    /// `true` if the result is an exact game-theoretic value; `false` if it is a
    /// depth-limited heuristic estimate.
    pub exact: bool,
    /// The side the analysis is computed for.
    pub side_to_move: Player,
    /// Value from the side-to-move's perspective. In exact mode this is the
    /// final score margin in seeds; otherwise an internal heuristic score.
    pub value: i32,
    /// The best move, or `None` if the position is already terminal.
    pub best_move: Option<usize>,
    /// All legal moves with their evaluations, sorted best-first.
    pub move_evals: Vec<MoveEval>,
    /// Principal variation (sequence of pit indices) starting from this position.
    pub pv: Vec<usize>,
    /// Number of search nodes visited.
    pub nodes: u64,
    /// Search depth in plies if the result is heuristic; `None` if exact.
    pub depth: Option<u32>,
}

impl Analysis {
    /// The outcome for the side to move. For heuristic results this reflects the
    /// sign of the estimate and should be read as a best guess.
    pub fn outcome(&self) -> (o: Outcome)
        ensures
            o == if self.value > 0 {
                Outcome::Win
            } else if self.value < 0 {
                Outcome::Loss
            } else {
                Outcome::Draw
            },
    {
        if self.value > 0 {
            Outcome::Win
        } else if self.value < 0 {
            Outcome::Loss
        } else {
            Outcome::Draw
        }
    }

    /// Final score margin in seeds, if known exactly.
    pub fn margin_seeds(&self) -> (m: Option<i32>)
        ensures
            m == if self.exact {
                Some(self.value)
            } else {
                None
            },
    {
        if self.exact {
            Some(self.value)
        } else {
            None
        }
    }
}

// ---------------------------------------------------------------------------
// What an analysis says
// ---------------------------------------------------------------------------

/// Pit `i` is legal, and no legal move is worth more. (A tablebase that claims more than
/// there are seeds in play can drive values out of the range of the transposition table;
/// of those nothing is said here.)
pub open spec fn is_best(c: Setting, s: Seq<int>, i: int, depth: Option<int>) -> bool {
    &&& model::legal(s, i)
    &&& c.modest() ==> forall|j: int|
        model::legal(s, j) ==> #[trigger] value::move_value(c, s, j, depth) <= value::move_value(
            c,
            s,
            i,
            depth,
        )
}

/// The position after a line of moves.
pub open spec fn line_end(rules: Rules, s: Seq<int>, line: Seq<usize>) -> Seq<int>
    decreases line.len(),
{
    if line.len() == 0 {
        s
    } else {
        model::after(rules, line_end(rules, s, line.drop_last()), line.last() as int)
    }
}

/// The depth that is left after `k` moves.
pub open spec fn depth_after(depth: Option<int>, k: int) -> Option<int> {
    match depth {
        None => None,
        Some(d) => Some(d - k),
    }
}

/// A line in which each move is legal and no other is worth more.
pub open spec fn best_line(c: Setting, s: Seq<int>, line: Seq<usize>, depth: Option<int>) -> bool
    decreases line.len(),
{
    line.len() == 0 || {
        let front = line.drop_last();
        &&& best_line(c, s, front, depth)
        &&& !model::over(line_end(c.rules, s, front))
        &&& is_best(
            c,
            line_end(c.rules, s, front),
            line.last() as int,
            depth_after(depth, front.len() as int),
        )
    }
}

/// The evaluation of one move is right.
pub open spec fn eval_ok(c: Setting, s: Seq<int>, depth: Option<int>, e: MoveEval) -> bool {
    let w = value::move_value(c, s, e.pit as int, depth);
    &&& model::legal(s, e.pit as int)
    &&& e.extra_turn == model::extra_turn(s, e.pit as int)
    &&& e.captured == model::captures(c.rules, s, e.pit as int)
    &&& c.modest() ==> if e.bound {
        w <= e.value
    } else {
        w == e.value
    }
}

/// Evaluation `a` is listed before evaluation `b`: exact values first, then by value.
pub open spec fn listed_before(a: MoveEval, b: MoveEval) -> bool {
    (!a.bound && b.bound) || (a.bound == b.bound && a.value > b.value)
}

/// Evaluations of moves, with the best value and move among them: each evaluation is
/// right and belongs to another move, they are listed best-first, and the first,
/// which is exact and better than the other exact ones, gives the value and the move.
#[verifier::opaque]
pub open spec fn ranking(
    c: Setting,
    s: Seq<int>,
    depth: Option<int>,
    evals: Seq<MoveEval>,
    best: int,
    best_move: Option<usize>,
) -> bool {
    &&& forall|k: int| 0 <= k < evals.len() ==> eval_ok(c, s, depth, #[trigger] evals[k])
    &&& forall|x: int, y: int|
        0 <= x < y < evals.len() ==> (#[trigger] evals[x]).pit != (#[trigger] evals[y]).pit
            && !listed_before(evals[y], evals[x])
    &&& forall|k: int| 0 <= k < evals.len() ==> (#[trigger] evals[k]).value <= best
    &&& forall|k: int|
        0 < k < evals.len() && !(#[trigger] evals[k]).bound ==> evals[k].value < best
    &&& match best_move {
        Some(m) => evals.len() > 0 && evals[0].pit == m && !evals[0].bound && evals[0].value
            == best,
        None => evals.len() == 0,
    }
}

/// What an analysis says of a position that is not over is right, as far as it goes:
/// it gives the best of the moves that it covers.
pub open spec fn sound(c: Setting, s: Seq<int>, depth: Option<int>, a: Analysis) -> bool {
    &&& ranking(c, s, depth, a.move_evals@, a.value as int, a.best_move)
    &&& a.best_move is None ==> a.pv@.len() == 0
}

/// The analysis of a position that is over: nothing to play, and the final margin.
pub open spec fn finished(s: Seq<int>, depth: Option<int>, a: Analysis) -> bool {
    &&& a.value == value::scaled(value::final_margin(s), depth)
    &&& a.best_move is None
    &&& a.move_evals@.len() == 0
    &&& a.pv@.len() == 0
}

/// One of the evaluations is that of pit `i`.
pub open spec fn evaluates(evals: Seq<MoveEval>, i: int) -> bool {
    exists|k: int| 0 <= k < evals.len() && (#[trigger] evals[k]).pit == i
}

/// An analysis covers every legal move.
pub open spec fn complete(s: Seq<int>, a: Analysis) -> bool {
    forall|i: int| #[trigger] model::legal(s, i) ==> evaluates(a.move_evals@, i)
}

/// The longest line that is followed behind the first move of a variation.
pub open spec fn line_cap(s: Seq<int>) -> int {
    4 * (s.len() + model::total(s))
}

/// The principal variation starts with the best move and goes on with best moves, no
/// further than the depth. It is cut off before the game or the depth is over only where it
/// is overlong or not within the tablebase.
pub open spec fn principal(
    c: Setting,
    tb: Option<&Tablebase>,
    s: Seq<int>,
    depth: Option<int>,
    a: Analysis,
) -> bool {
    a.best_move matches Some(m) ==> {
        let child = model::after(c.rules, s, m as int);
        let tail = a.pv@.skip(1);
        &&& a.pv@.len() > 0
        &&& a.pv@[0] == m
        &&& best_line(c, child, tail, value::deeper(depth))
        &&& tail.len() <= line_cap(s)
        &&& depth matches Some(d) ==> a.pv@.len() <= d
        &&& cut_off(c.rules, tb, child, value::deeper(depth), tail, line_cap(s))
    }
}

/// A line ends where it has to: at the end of the game, of the depth or of the
/// tablebase, or at its longest.
pub open spec fn cut_off(
    rules: Rules,
    tb: Option<&Tablebase>,
    s: Seq<int>,
    depth: Option<int>,
    line: Seq<usize>,
    cap: int,
) -> bool {
    let end = line_end(rules, s, line);
    ||| model::over(end)
    ||| depth_after(depth, line.len() as int) == Some(0int)
    ||| line.len() == cap
    ||| tb is None
    ||| tb->0.knows(value::layout(end)) is None
}

/// A sound analysis that covers every move has found a best move and its value.
pub proof fn lemma_complete(c: Setting, s: Seq<int>, depth: Option<int>, a: Analysis)
    requires
        model::valid(s),
        !model::over(s),
        sound(c, s, depth, a),
        complete(s, a),
    ensures
        a.best_move matches Some(m) && is_best(c, s, m as int, depth) && (c.modest()
            ==> value::move_value(c, s, m as int, depth) == a.value),
        c.modest() && value::branches(c, s, depth) ==> a.value == value::search_value(c, s, depth),
{
    reveal(ranking);
    let evals = a.move_evals@;
    model::lemma_has_move(s);
    let i = choose|i: int| model::legal(s, i);
    assert(model::legal(s, i));
    assert(evaluates(evals, i));
    assert(evals.len() > 0);
    let m = a.best_move->0 as int;
    assert(eval_ok(c, s, depth, evals[0]));
    assert forall|j: int| c.modest() && model::legal(s, j) implies #[trigger] value::move_value(
        c,
        s,
        j,
        depth,
    ) <= a.value by {
        assert(evaluates(evals, j));
        let k = choose|k: int| 0 <= k < evals.len() && (#[trigger] evals[k]).pit == j;
        assert(eval_ok(c, s, depth, evals[k]));
    }
    if value::branches(c, s, depth) {
        value::lemma_search_value_is_best(c, s, depth);
    }
}

/// With a truthful oracle, a sound analysis to the end of the game that covers every
/// move has found the value of perfect play and a move that keeps it.
pub proof fn lemma_perfect(c: Setting, s: Seq<int>, a: Analysis)
    requires
        model::valid(s),
        !model::over(s),
        c.truthful(),
        sound(c, s, None, a),
        complete(s, a),
    ensures
        a.value == value::game_value(c.rules, s),
        a.best_move matches Some(m) && model::legal(s, m as int) && value::move_margin(
            c.rules,
            s,
            m as int,
        ) == value::game_value(c.rules, s),
{
    value::lemma_truth_is_modest(c);
    lemma_complete(c, s, None, a);
    value::lemma_search_is_perfect(c, s);
    value::lemma_game_value_is_best(c.rules, s);
    let m = a.best_move->0 as int;
    let j = choose|j: int|
        model::legal(s, j) && #[trigger] value::move_margin(c.rules, s, j) == value::game_value(
            c.rules,
            s,
        );
    assert(value::move_value(c, s, j, None) <= value::move_value(c, s, m, None));
    assert(value::move_margin(c.rules, s, m) <= value::game_value(c.rules, s));
}

// ---------------------------------------------------------------------------
// Ranking moves
// ---------------------------------------------------------------------------

/// A ranking is in order.
proof fn lemma_ranking_sorted(
    c: Setting,
    s: Seq<int>,
    depth: Option<int>,
    evals: Seq<MoveEval>,
    best: int,
    best_move: Option<usize>,
)
    requires
        ranking(c, s, depth, evals, best, best_move),
    ensures
        forall|x: int, y: int|
            0 <= x < y < evals.len() ==> !listed_before(#[trigger] evals[y], #[trigger] evals[x]),
{
    reveal(ranking);
}

/// A ranking with one more evaluation, put in its place: an upper bound changes
/// nothing at the top, an exact value that is better than the best goes there.
proof fn lemma_ranking_insert(
    c: Setting,
    s: Seq<int>,
    depth: Option<int>,
    old_evals: Seq<MoveEval>,
    evals: Seq<MoveEval>,
    e: MoveEval,
    j: int,
    best: int,
    best_move: Option<usize>,
)
    requires
        ranking(c, s, depth, old_evals, best, best_move),
        eval_ok(c, s, depth, e),
        0 <= j <= old_evals.len(),
        evals == old_evals.insert(j, e),
        forall|k: int| 0 <= k < old_evals.len() ==> (#[trigger] old_evals[k]).pit != e.pit,
        forall|x: int, y: int|
            0 <= x < y < evals.len() ==> !listed_before(#[trigger] evals[y], #[trigger] evals[x]),
        e.bound ==> best_move is Some && e.value <= best,
        !e.bound && best_move is Some ==> e.value > best,
    ensures
        e.bound ==> ranking(c, s, depth, evals, best, best_move),
        !e.bound ==> ranking(c, s, depth, evals, e.value as int, Some(e.pit)),
{
    reveal(ranking);
    assert forall|k: int| 0 <= k < evals.len() && k != j implies #[trigger] evals[k] == old_evals[if k
        < j {
        k
    } else {
        k - 1
    }] by {}
    assert(evals[j] == e);
    assert forall|x: int, y: int| 0 <= x < y < evals.len() implies (#[trigger] evals[x]).pit != (
    #[trigger] evals[y]).pit by {
        let x0 = if x < j { x } else { x - 1 };
        let y0 = if y < j { y } else { y - 1 };
        if x != j && y != j {
            assert(old_evals[x0].pit != old_evals[y0].pit);
        } else if x == j {
            assert(old_evals[y0].pit != e.pit);
        } else {
            assert(old_evals[x0].pit != e.pit);
        }
    }
    if e.bound {
        if j == 0 {
            assert(!listed_before(evals[1], evals[0]));
        }
    } else if j > 0 {
        assert(!listed_before(evals[j], evals[0]));
        assert(old_evals[0].value <= best);
    }
    assert forall|k: int| 0 <= k < evals.len() implies eval_ok(c, s, depth, #[trigger] evals[k]) by {
        let k0 = if k < j { k } else { k - 1 };
        if k != j {
            assert(eval_ok(c, s, depth, old_evals[k0]));
        }
    }
    assert forall|k: int| 0 <= k < evals.len() && k != j implies (#[trigger] evals[k]).value
        <= best by {
        let k0 = if k < j { k } else { k - 1 };
        assert(old_evals[k0].value <= best);
    }
}

/// Put an evaluation in its place: behind those that are listed before it or rank with
/// it.
pub(crate) fn insert_eval(evals: &mut Vec<MoveEval>, e: MoveEval)
    requires
        forall|x: int, y: int|
            0 <= x < y < old(evals)@.len() ==> !listed_before(
                #[trigger] old(evals)@[y],
                #[trigger] old(evals)@[x],
            ),
    ensures
        final(evals)@.len() == old(evals)@.len() + 1,
        exists|j: int|
            0 <= j <= old(evals)@.len() && final(evals)@ == #[trigger] old(evals)@.insert(j, e)
                && (forall|k: int|
                j <= k < old(evals)@.len() ==> listed_before(e, #[trigger] old(evals)@[k])),
        forall|x: int, y: int|
            0 <= x < y < final(evals)@.len() ==> !listed_before(
                #[trigger] final(evals)@[y],
                #[trigger] final(evals)@[x],
            ),
{
    let ghost before = evals@;
    let mut j: usize = evals.len();
    while j > 0 && ((!e.bound && evals[j - 1].bound) || (e.bound == evals[j - 1].bound && e.value
        > evals[j - 1].value))
        invariant
            j <= evals@.len(),
            evals@ == before,
            forall|k: int| j <= k < before.len() ==> listed_before(e, #[trigger] before[k]),
        decreases j,
    {
        j = j - 1;
    }
    evals.insert(j, e);
    proof {
        let after = before.insert(j as int, e);
        assert(evals@ =~= after);
        assert(evals@ == before.insert(j as int, e));
        assert forall|x: int, y: int| 0 <= x < y < after.len() implies !listed_before(
            #[trigger] after[y],
            #[trigger] after[x],
        ) by {
            let x0 = if x < j { x } else { x - 1 };
            let y0 = if y < j { y } else { y - 1 };
            if x != j && y != j {
                assert(!listed_before(before[y0], before[x0]));
            } else if y == j {
                assert(j > 0);
                assert(!listed_before(e, before[j - 1]));
                if x < j - 1 {
                    assert(!listed_before(before[j - 1], before[x]));
                }
            } else {
                assert(listed_before(e, before[y0]));
            }
        }
    }
}

/// The listed move at place `at` has the value `best`, and no earlier one does.
#[verifier::opaque]
pub open spec fn first_best(
    c: Setting,
    s: Seq<int>,
    depth: Option<int>,
    moves: Seq<u8>,
    best: int,
    at: int,
) -> bool {
    &&& 0 <= at < moves.len()
    &&& c.modest() ==> forall|x: int|
        0 <= x < moves.len() ==> value::move_value(c, s, #[trigger] moves[x] as int, depth) <= best
    &&& c.modest() ==> forall|x: int|
        0 <= x < at ==> value::move_value(c, s, #[trigger] moves[x] as int, depth) < best
}

proof fn lemma_first_best(
    c: Setting,
    s: Seq<int>,
    depth: Option<int>,
    listed: Seq<u8>,
    k: int,
    fresh: bool,
    best: int,
    at: int,
    w: int,
)
    requires
        0 <= k < listed.len(),
        fresh <==> k == 0,
        !fresh ==> first_best(c, s, depth, listed.take(k), best, at),
        c.modest() ==> search::judged(
            w,
            value::move_value(c, s, listed[k] as int, depth),
            if fresh {
                -INF as int
            } else {
                best
            },
            INF as int,
        ),
        -INF < w < INF,
    ensures
        !fresh && w <= best ==> first_best(c, s, depth, listed.take(k + 1), best, at),
        fresh || w > best ==> first_best(c, s, depth, listed.take(k + 1), w, k),
{
    reveal(first_best);
    let front = listed.take(k);
    let next = listed.take(k + 1);
    assert forall|x: int| 0 <= x < k implies #[trigger] next[x] == front[x] by {}
    assert(next[k] == listed[k]);
    if !fresh && c.modest() {
        assert forall|x: int| 0 <= x < k implies value::move_value(
            c,
            s,
            #[trigger] next[x] as int,
            depth,
        ) <= best by {
            assert(value::move_value(c, s, front[x] as int, depth) <= best);
        }
        assert forall|x: int| 0 <= x < at implies value::move_value(
            c,
            s,
            #[trigger] next[x] as int,
            depth,
        ) < best by {
            assert(value::move_value(c, s, front[x] as int, depth) < best);
        }
    }
}

/// Place `x` of the list, before place `k`, holds pit `i`.
spec fn listed_at(listed: Seq<u8>, k: int, x: int, i: int) -> bool {
    0 <= x < k && listed[x] == i
}

/// Pit `i` is among the first `k` listed moves.
spec fn is_listed(listed: Seq<u8>, k: int, i: int) -> bool {
    exists|x: int| listed_at(listed, k, x, i)
}

/// The evaluations are those of the first `k` listed moves.
#[verifier::opaque]
spec fn covers(listed: Seq<u8>, k: int, evals: Seq<MoveEval>) -> bool {
    &&& forall|x: int| 0 <= x < k ==> evaluates(evals, #[trigger] listed[x] as int)
    &&& forall|y: int|
        0 <= y < evals.len() ==> is_listed(listed, k, (#[trigger] evals[y]).pit as int)
}

/// One more evaluation covers one more listed move.
proof fn lemma_cover_insert(
    listed: Seq<u8>,
    k: int,
    before: Seq<MoveEval>,
    evals: Seq<MoveEval>,
    e: MoveEval,
    j: int,
)
    requires
        0 <= k < listed.len(),
        e.pit == listed[k],
        0 <= j <= before.len(),
        evals == before.insert(j, e),
        covers(listed, k, before),
        forall|x: int, y: int|
            0 <= x < y < listed.len() ==> #[trigger] listed[x] != #[trigger] listed[y],
    ensures
        covers(listed, k + 1, evals),
        forall|y: int| 0 <= y < before.len() ==> (#[trigger] before[y]).pit != e.pit,
{
    reveal(covers);
    assert forall|y: int| 0 <= y < before.len() implies (#[trigger] before[y]).pit != e.pit by {
        assert(is_listed(listed, k, before[y].pit as int));
        let x = choose|x: int| listed_at(listed, k, x, before[y].pit as int);
        assert(listed[x] != listed[k]);
    }
    assert forall|x: int| 0 <= x < k + 1 implies evaluates(evals, #[trigger] listed[x] as int) by {
        if x == k {
            assert(evals[j].pit == listed[x]);
        } else {
            assert(evaluates(before, listed[x] as int));
            let y = choose|y: int|
                0 <= y < before.len() && (#[trigger] before[y]).pit == listed[x] as int;
            let y1 = if y < j {
                y
            } else {
                y + 1
            };
            assert(evals[y1] == before[y]);
        }
    }
    assert forall|y: int| 0 <= y < evals.len() implies is_listed(
        listed,
        k + 1,
        (#[trigger] evals[y]).pit as int,
    ) by {
        if y == j {
            assert(listed_at(listed, k + 1, k, evals[y].pit as int));
        } else {
            let y0 = if y < j {
                y
            } else {
                y - 1
            };
            assert(evals[y] == before[y0]);
            assert(is_listed(listed, k, before[y0].pit as int));
            let x = choose|x: int| listed_at(listed, k, x, before[y0].pit as int);
            assert(listed_at(listed, k + 1, x, evals[y].pit as int));
        }
    }
}

/// The moves evaluated so far, and the best of them.
pub struct Ranking {
    pub best: i32,
    pub best_move: Option<usize>,
    pub evals: Vec<MoveEval>,
}

impl Ranking {
    /// The first `k` listed moves are evaluated, and the first of the best of them is
    /// known.
    #[verifier::opaque]
    pub closed spec fn of(
        &self,
        c: Setting,
        s: Seq<int>,
        depth: Option<int>,
        listed: Seq<u8>,
        k: int,
    ) -> bool {
        &&& ranking(c, s, depth, self.evals@, self.best as int, self.best_move)
        &&& covers(listed, k, self.evals@)
        &&& self.evals@.len() == k
        &&& self.best_move is None <==> k == 0
        &&& self.best_move matches Some(m) ==> -INF < self.best < INF && exists|at: int|
            listed_at(listed, k, at, m as int) && #[trigger] first_best(
                c,
                s,
                depth,
                listed.take(k),
                self.best as int,
                at,
            )
    }

    /// Nothing is evaluated.
    pub(crate) fn new(
        Ghost(c): Ghost<Setting>,
        Ghost(s): Ghost<Seq<int>>,
        Ghost(depth): Ghost<Option<int>>,
        Ghost(listed): Ghost<Seq<u8>>,
    ) -> (r: Ranking)
        ensures
            r.of(c, s, depth, listed, 0),
    {
        proof {
            reveal(Ranking::of);
            reveal(ranking);
            reveal(covers);
        }
        Ranking { best: i32::MIN, best_move: None, evals: Vec::new() }
    }

    /// What the ranking tells after `k` moves.
    pub proof fn lemma_of(
        &self,
        c: Setting,
        s: Seq<int>,
        depth: Option<int>,
        listed: Seq<u8>,
        k: int,
    )
        requires
            self.of(c, s, depth, listed, k),
        ensures
            ranking(c, s, depth, self.evals@, self.best as int, self.best_move),
            self.evals@.len() == k,
            self.best_move is None <==> k == 0,
            self.best_move matches Some(m) ==> -INF < self.best < INF && model::legal(s, m as int)
                && (c.modest() ==> value::move_value(c, s, m as int, depth) == self.best),
            forall|x: int| 0 <= x < k ==> evaluates(self.evals@, #[trigger] listed[x] as int),
            self.best_move matches Some(m) ==> exists|at: int|
                0 <= at < k && listed[at] == m && #[trigger] first_best(
                    c,
                    s,
                    depth,
                    listed.take(k),
                    self.best as int,
                    at,
                ),
    {
        reveal(Ranking::of);
        reveal(covers);
        reveal(ranking);
        if self.best_move is Some {
            assert(eval_ok(c, s, depth, self.evals@[0]));
            let at = choose|at: int|
                listed_at(listed, k, at, self.best_move->0 as int) && #[trigger] first_best(
                    c,
                    s,
                    depth,
                    listed.take(k),
                    self.best as int,
                    at,
                );
            assert(0 <= at < k && listed[at] == self.best_move->0 && first_best(
                c,
                s,
                depth,
                listed.take(k),
                self.best as int,
                at,
            ));
        }
    }

    /// What the next move has to beat.
    pub(crate) fn alpha(&self) -> (alpha: i32)
        ensures
            alpha == match self.best_move {
                None => -INF,
                Some(_) => self.best as int,
            },
    {
        match self.best_move {
            None => -INF,
            Some(_) => self.best,
        }
    }

    /// Take note of the next move, whose search returned `v`.
    pub(crate) fn note(
        &mut self,
        mv: usize,
        v: i32,
        extra_turn: bool,
        captured: bool,
        Ghost(c): Ghost<Setting>,
        Ghost(s): Ghost<Seq<int>>,
        Ghost(depth): Ghost<Option<int>>,
        Ghost(listed): Ghost<Seq<u8>>,
        Ghost(k): Ghost<int>,
    )
        requires
            old(self).of(c, s, depth, listed, k),
            0 <= k < listed.len(),
            listed[k] == mv,
            forall|x: int, y: int|
                0 <= x < y < listed.len() ==> #[trigger] listed[x] != #[trigger] listed[y],
            model::legal(s, mv as int),
            extra_turn == model::extra_turn(s, mv as int),
            captured == model::captures(c.rules, s, mv as int),
            -INF < v < INF,
            c.modest() ==> search::judged(
                v as int,
                value::move_value(c, s, mv as int, depth),
                match old(self).best_move {
                    None => -INF as int,
                    Some(_) => old(self).best as int,
                },
                INF as int,
            ),
        ensures
            final(self).of(c, s, depth, listed, k + 1),
            old(self).best_move is None || v > old(self).best ==> {
                &&& final(self).best == v
                &&& final(self).best_move == Some(mv)
            },
            old(self).best_move is Some && v <= old(self).best ==> {
                &&& final(self).best == old(self).best
                &&& final(self).best_move == old(self).best_move
            },
    {
        let bound = match self.best_move {
            Some(_) => v <= self.best,
            None => false,
        };
        let e = MoveEval { pit: mv, value: v, bound, extra_turn, captured };
        let ghost before = *self;
        let ghost at0 = choose|at: int|
            listed_at(listed, k, at, before.best_move->0 as int) && #[trigger] first_best(
                c,
                s,
                depth,
                listed.take(k),
                before.best as int,
                at,
            );
        proof {
            reveal(Ranking::of);
            lemma_ranking_sorted(c, s, depth, before.evals@, before.best as int, before.best_move);
            assert(eval_ok(c, s, depth, e));
            lemma_first_best(
                c,
                s,
                depth,
                listed,
                k,
                before.best_move is None,
                before.best as int,
                at0,
                v as int,
            );
        }
        insert_eval(&mut self.evals, e);
        if !bound {
            self.best = v;
            self.best_move = Some(mv);
        }
        proof {
            let j = choose|j: int|
                0 <= j <= before.evals@.len() && self.evals@ == #[trigger] before.evals@.insert(
                    j,
                    e,
                );
            lemma_cover_insert(listed, k, before.evals@, self.evals@, e, j);
            lemma_ranking_insert(
                c,
                s,
                depth,
                before.evals@,
                self.evals@,
                e,
                j,
                before.best as int,
                before.best_move,
            );
            if bound {
                assert(listed_at(listed, k + 1, at0, self.best_move->0 as int));
            } else {
                assert(listed_at(listed, k + 1, k, self.best_move->0 as int));
            }
        }
    }
}

// ---------------------------------------------------------------------------
// Laws of lines
// ---------------------------------------------------------------------------

/// A line that begins with a move ends where the rest of it ends after that move.
pub proof fn lemma_line_first(rules: Rules, s: Seq<int>, m: usize, line: Seq<usize>)
    ensures
        line_end(rules, s, seq![m] + line) == line_end(
            rules,
            model::after(rules, s, m as int),
            line,
        ),
    decreases line.len(),
{
    let whole = seq![m] + line;
    if line.len() == 0 {
        assert(whole.drop_last() =~= Seq::<usize>::empty());
        assert(line_end(rules, s, whole.drop_last()) == s);
    } else {
        assert(whole.drop_last() =~= seq![m] + line.drop_last());
        lemma_line_first(rules, s, m, line.drop_last());
    }
}

/// In a line of best moves, each move is played in a position that is not over, is one of
/// the mover's pits that hold a seed, and is worth no less than any other move there.
pub proof fn lemma_best_line(c: Setting, s: Seq<int>, line: Seq<usize>, depth: Option<int>, k: int)
    requires
        best_line(c, s, line, depth),
        0 <= k < line.len(),
    ensures
        ({
            let t = line_end(c.rules, s, line.take(k));
            let left = match depth {
                Some(d) => Some(d - k),
                None => None,
            };
            &&& !model::over(t)
            &&& model::legal(t, line[k] as int)
            &&& c.modest() ==> forall|j: int| #[trigger]
                model::legal(t, j) ==> value::move_value(c, t, j, left) <= value::move_value(
                    c,
                    t,
                    line[k] as int,
                    left,
                )
        }),
    decreases line.len(),
{
    let front = line.drop_last();
    if k < front.len() {
        lemma_best_line(c, s, front, depth, k);
        assert(front.take(k) =~= line.take(k));
    } else {
        assert(line.take(k) =~= front);
        let t = line_end(c.rules, s, front);
        let left = depth_after(depth, k);
        assert forall|j: int| c.modest() && #[trigger] model::legal(t, j) implies value::move_value(
            c,
            t,
            j,
            left,
        ) <= value::move_value(c, t, line[k] as int, left) by {}
    }
}

} // verus!
