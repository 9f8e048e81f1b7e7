//! What a position is worth.
//!
//! [`game_value`] is the final margin under perfect play and [`future`] the part
//! of it that is still to be won. [`search_value`] is the value that a search
//! assigns to a position when it may stop early: at an oracle that knows the
//! future of a pit layout, or at a depth horizon where an estimate takes over.

use vstd::prelude::*;

use crate::board::Rules;
use crate::model;

verus! {

// ---------------------------------------------------------------------------
// Perfect play
// ---------------------------------------------------------------------------

/// The margin when play stops here: each side sweeps its own pits.
pub open spec fn final_margin(s: Seq<int>) -> int {
    model::total(model::mine(s)) + model::bank(s) - model::total(model::theirs(s))
        - model::their_bank(s)
}

/// The larger of `v` and what was found so far.
pub open spec fn at_least(best: Option<int>, v: int) -> Option<int> {
    match best {
        None => Some(v),
        Some(b) => Some(
            if v > b {
                v
            } else {
                b
            },
        ),
    }
}

/// The final margin, for the player to move, when both sides play perfectly.
pub open spec fn game_value(rules: Rules, s: Seq<int>) -> int
    decreases model::in_play(s), model::weight(s), model::pits(s) + 1,
{
    if !model::valid(s) {
        0
    } else if model::over(s) {
        final_margin(s)
    } else {
        match best_margin(rules, s, model::pits(s)) {
            Some(v) => v,
            None => 0,
        }
    }
}

/// The final margin when the player to move plays pit `i` and play is perfect
/// from there on. A move that grants another turn leaves the player in charge;
/// any other hands the position, with the sign reversed, to the opponent.
pub open spec fn move_margin(rules: Rules, s: Seq<int>, i: int) -> int
    decreases model::in_play(s), model::weight(s), 0int,
{
    if model::valid(s) && model::legal(s, i) {
        proof {
            model::lemma_after(rules, s, i);
            model::lemma_bounds(s);
        }
        if model::extra_turn(s, i) {
            game_value(rules, model::after(rules, s, i))
        } else {
            -game_value(rules, model::after(rules, s, i))
        }
    } else {
        0
    }
}

/// The best margin over the legal pits below `k`, if there is one.
pub open spec fn best_margin(rules: Rules, s: Seq<int>, k: int) -> Option<int>
    decreases model::in_play(s), model::weight(s), k,
{
    if !model::valid(s) || k <= 0 {
        None
    } else {
        proof {
            model::lemma_bounds(s);
        }
        let rest = best_margin(rules, s, k - 1);
        if model::legal(s, k - 1) {
            at_least(rest, move_margin(rules, s, k - 1))
        } else {
            rest
        }
    }
}

/// The optimal future store differential of the player to move: what perfect
/// play adds to the lead that is already banked.
pub open spec fn future(rules: Rules, s: Seq<int>) -> int {
    game_value(rules, s) - model::lead(s)
}

proof fn lemma_best_margin(rules: Rules, s: Seq<int>, k: int)
    requires
        model::valid(s),
        k <= model::pits(s),
    ensures
        forall|i: int|
            0 <= i < k && model::legal(s, i) ==> best_margin(rules, s, k) is Some
                && #[trigger] move_margin(rules, s, i) <= best_margin(rules, s, k)->0,
        best_margin(rules, s, k) matches Some(v) ==> exists|i: int|
            0 <= i < k && model::legal(s, i) && #[trigger] move_margin(rules, s, i) == v,
    decreases k,
{
    if k > 0 {
        lemma_best_margin(rules, s, k - 1);
        if model::legal(s, k - 1) {
            let v = move_margin(rules, s, k - 1);
            assert(best_margin(rules, s, k) == at_least(best_margin(rules, s, k - 1), v));
        }
        if best_margin(rules, s, k) is Some {
            let w = best_margin(rules, s, k)->0;
            if model::legal(s, k - 1) && w == move_margin(rules, s, k - 1) {
            } else {
                let i = choose|i: int|
                    0 <= i < k - 1 && model::legal(s, i) && #[trigger] move_margin(rules, s, i) == w;
                assert(0 <= i < k && model::legal(s, i) && move_margin(rules, s, i) == w);
            }
        }
    }
}

/// Perfect play takes the best legal move: no move does better than the value
/// of the position, and one attains it.
pub proof fn lemma_game_value_is_best(rules: Rules, s: Seq<int>)
    requires
        model::valid(s),
        !model::over(s),
    ensures
        forall|i: int|
            model::legal(s, i) ==> #[trigger] move_margin(rules, s, i) <= game_value(rules, s),
        exists|i: int|
            model::legal(s, i) && #[trigger] move_margin(rules, s, i) == game_value(rules, s),
{
    lemma_best_margin(rules, s, model::pits(s));
    model::lemma_has_move(s);
    let i = choose|i: int| model::legal(s, i);
    assert(move_margin(rules, s, i) <= game_value(rules, s));
}

/// What is still to be won is bounded by the seeds in play.
pub proof fn lemma_future_bound(rules: Rules, s: Seq<int>)
    requires
        model::valid(s),
    ensures
        -model::in_play(s) <= future(rules, s) <= model::in_play(s),
    decreases model::in_play(s), model::weight(s),
{
    model::lemma_bounds(s);
    if !model::over(s) {
        lemma_game_value_is_best(rules, s);
        let i = choose|i: int|
            model::legal(s, i) && #[trigger] move_margin(rules, s, i) == game_value(rules, s);
        model::lemma_after(rules, s, i);
        model::lemma_played(rules, s, i);
        model::lemma_flip(model::played(rules, s, i));
        lemma_future_bound(rules, model::after(rules, s, i));
        lemma_lead_after(rules, s, i);
    }
}

/// How the lead changes with a move: the mover gains what the move banks.
pub proof fn lemma_lead_after(rules: Rules, s: Seq<int>, i: int)
    requires
        model::valid(s),
        model::legal(s, i),
    ensures
        model::lead(model::after(rules, s, i)) == if model::extra_turn(s, i) {
            model::lead(s) + model::gain(rules, s, i)
        } else {
            -(model::lead(s) + model::gain(rules, s, i))
        },
        model::in_play(model::after(rules, s, i)) == model::in_play(s) - model::gain(rules, s, i),
        model::gain(rules, s, i) >= 0,
{
    model::lemma_played(rules, s, i);
    model::lemma_flip(model::played(rules, s, i));
}

/// The recursion that the future obeys: the best sum of what a move banks and
/// what is left to win after it.
pub proof fn lemma_future_recursion(rules: Rules, s: Seq<int>, i: int)
    requires
        model::valid(s),
        model::legal(s, i),
    ensures
        move_margin(rules, s, i) - model::lead(s) == model::gain(rules, s, i) + if model::extra_turn(s, i) {
            future(rules, model::after(rules, s, i))
        } else {
            -future(rules, model::after(rules, s, i))
        },
{
    lemma_lead_after(rules, s, i);
}

// ---------------------------------------------------------------------------
// The seeds already banked do not matter
// ---------------------------------------------------------------------------

/// The pits of a position, the player's own first.
pub open spec fn layout(s: Seq<int>) -> Seq<int> {
    model::mine(s) + model::theirs(s)
}

/// The same pits with `a` and `b` more seeds in the two stores.
pub open spec fn banked(s: Seq<int>, a: int, b: int) -> Seq<int> {
    s.update(model::pits(s), model::bank(s) + a).update(
        2 * model::pits(s) + 1,
        model::their_bank(s) + b,
    )
}

/// Two positions with the same pits differ by what is in the stores.
pub proof fn lemma_same_layout(s: Seq<int>, t: Seq<int>)
    requires
        model::valid(s),
        model::valid(t),
        layout(s) == layout(t),
    ensures
        s.len() == t.len(),
        model::mine(s) == model::mine(t),
        model::theirs(s) == model::theirs(t),
        t == banked(s, model::bank(t) - model::bank(s), model::their_bank(t) - model::their_bank(s)),
{
    let n = model::pits(s);
    assert(layout(s).len() == 2 * n);
    assert(layout(t).len() == 2 * model::pits(t));
    assert(model::pits(t) == n);
    assert(model::mine(s) =~= layout(s).subrange(0, n));
    assert(model::mine(t) =~= layout(t).subrange(0, n));
    assert(model::theirs(s) =~= layout(s).subrange(n, 2 * n));
    assert(model::theirs(t) =~= layout(t).subrange(n, 2 * n));
    let u = banked(s, model::bank(t) - model::bank(s), model::their_bank(t) - model::their_bank(s));
    assert forall|r: int| 0 <= r < t.len() implies t[r] == u[r] by {
        if r < n {
            assert(model::mine(s)[r] == model::mine(t)[r]);
        } else if n < r <= 2 * n {
            assert(model::theirs(s)[r - n - 1] == model::theirs(t)[r - n - 1]);
        }
    }
    assert(t =~= u);
}

proof fn lemma_banked_sow(s: Seq<int>, at: int, k: int, a: int, b: int)
    requires
        s.len() >= 4,
        s.len() % 2 == 0,
        0 <= at <= 2 * model::pits(s),
    ensures
        model::sow(banked(s, a, b), at, k) == banked(model::sow(s, at, k), a, b),
        model::sow(s, at, k).len() == s.len(),
    decreases k,
{
    if k > 0 {
        let r = model::step(model::pits(s), at);
        let u = s.update(r, s[r] + 1);
        let v = banked(s, a, b);
        assert(model::pits(u) == model::pits(s) && model::pits(v) == model::pits(s));
        assert(v.update(r, v[r] + 1) =~= banked(u, a, b));
        lemma_banked_sow(u, r, k - 1, a, b);
    }
}

/// A move does the same to the pits whatever the stores hold.
pub proof fn lemma_banked_after(rules: Rules, s: Seq<int>, i: int, a: int, b: int)
    requires
        model::valid(s),
        model::valid(banked(s, a, b)),
        model::legal(s, i),
    ensures
        model::legal(banked(s, a, b), i),
        model::extra_turn(banked(s, a, b), i) == model::extra_turn(s, i),
        model::captures(rules, banked(s, a, b), i) == model::captures(rules, s, i),
        model::gain(rules, banked(s, a, b), i) == model::gain(rules, s, i),
        model::after(rules, banked(s, a, b), i) == if model::extra_turn(s, i) {
            banked(model::after(rules, s, i), a, b)
        } else {
            banked(model::after(rules, s, i), b, a)
        },
{
    let n = model::pits(s);
    let t = banked(s, a, b);
    assert(model::pits(t) == n);
    assert(t[i] == s[i]);
    let z = s.update(i, 0);
    assert(t.update(i, 0) =~= banked(z, a, b));
    lemma_banked_sow(z, i, s[i], a, b);
    assert(model::sown(t, i) == banked(model::sown(s, i), a, b));
    model::lemma_played(rules, s, i);
    let e = model::last_cell(s, i);
    assert(model::last_cell(t, i) == e);
    let p = model::played(rules, s, i);
    assert(model::played(rules, t, i) =~= banked(p, a, b));
    assert(model::flip(banked(p, a, b)) =~= banked(model::flip(p), b, a));
}

proof fn lemma_banked_value(rules: Rules, s: Seq<int>, a: int, b: int)
    requires
        model::valid(s),
        model::valid(banked(s, a, b)),
    ensures
        game_value(rules, banked(s, a, b)) == game_value(rules, s) + a - b,
    decreases model::in_play(s), model::weight(s),
{
    let t = banked(s, a, b);
    let n = model::pits(s);
    assert(model::pits(t) == n);
    assert(model::mine(t) =~= model::mine(s));
    assert(model::theirs(t) =~= model::theirs(s));
    model::lemma_bounds(s);
    if !model::over(s) {
        assert forall|i: int| model::legal(s, i) implies #[trigger] move_margin(rules, t, i)
            == move_margin(rules, s, i) + a - b by {
            lemma_banked_after(rules, s, i, a, b);
            model::lemma_after(rules, s, i);
            model::lemma_after(rules, t, i);
            if model::extra_turn(s, i) {
                lemma_banked_value(rules, model::after(rules, s, i), a, b);
            } else {
                lemma_banked_value(rules, model::after(rules, s, i), b, a);
            }
        }
        assert forall|i: int| #[trigger] model::legal(s, i) == model::legal(t, i) by {}
        lemma_game_value_is_best(rules, s);
        lemma_game_value_is_best(rules, t);
        let i = choose|i: int|
            model::legal(s, i) && #[trigger] move_margin(rules, s, i) == game_value(rules, s);
        let j = choose|j: int|
            model::legal(t, j) && #[trigger] move_margin(rules, t, j) == game_value(rules, t);
        assert(model::legal(s, j));
        assert(move_margin(rules, t, i) <= game_value(rules, t));
        assert(move_margin(rules, s, j) <= game_value(rules, s));
    }
}

/// The future depends only on the pits and on whose turn it is: the seeds that
/// are already banked are a constant of the final margin.
pub proof fn lemma_future_ignores_stores(rules: Rules, s: Seq<int>, t: Seq<int>)
    requires
        model::valid(s),
        model::valid(t),
        layout(s) == layout(t),
    ensures
        future(rules, s) == future(rules, t),
{
    lemma_same_layout(s, t);
    lemma_banked_value(
        rules,
        s,
        model::bank(t) - model::bank(s),
        model::their_bank(t) - model::their_bank(s),
    );
}

// ---------------------------------------------------------------------------
// What a search finds
// ---------------------------------------------------------------------------

/// Weight of a banked seed in the estimate of a position, and of a seed of
/// margin wherever an outcome is measured against estimates.
pub const STORE_WEIGHT: i32 = 100;

/// The largest differential that an oracle may claim: that of a table entry.
pub const MAX_CLAIM: i32 = 32768;

/// What a search goes by.
pub struct Setting {
    /// The rules of the game.
    pub rules: Rules,
    /// What is known of the future of a pit layout (the mover's pits, then the
    /// opponent's), where something is known.
    pub oracle: spec_fn(Seq<int>) -> Option<int>,
    /// Whether forcing moves are played out at the depth horizon.
    pub quiesce: bool,
}

impl Setting {
    /// What the oracle claims is within the range of a table entry.
    pub open spec fn bounded(self) -> bool {
        forall|l: Seq<int>|
            (#[trigger] (self.oracle)(l)) matches Some(g) ==> -MAX_CLAIM <= g <= MAX_CLAIM
    }

    /// The oracle claims no more of a position than there are seeds in play.
    pub open spec fn modest(self) -> bool {
        forall|s: Seq<int>|
            model::valid(s) ==> ((#[trigger] (self.oracle)(layout(s))) matches Some(g)
                ==> -model::in_play(s) <= g <= model::in_play(s))
    }

    /// Whatever the oracle claims of a position is its true future.
    pub open spec fn truthful(self) -> bool {
        forall|s: Seq<int>|
            model::valid(s) ==> ((#[trigger] (self.oracle)(layout(s))) matches Some(g) ==> g
                == future(self.rules, s))
    }
}

/// A margin on the scale of a search: in seeds when it goes to the end of the
/// game, in hundredths of a seed when it goes to a depth.
pub open spec fn scaled(margin: int, depth: Option<int>) -> int {
    match depth {
        None => margin,
        Some(_) => margin * STORE_WEIGHT,
    }
}

/// The depth that is left after one move.
pub open spec fn deeper(depth: Option<int>) -> Option<int> {
    match depth {
        None => None,
        Some(d) => Some(d - 1),
    }
}

/// The static estimate of a position: the lead, weighted, plus the difference
/// of the seeds in the pits.
pub open spec fn estimate(s: Seq<int>) -> int {
    model::lead(s) * STORE_WEIGHT + (model::total(model::mine(s)) - model::total(model::theirs(s)))
}

/// A move that a quiescence search follows: another turn, or a capture.
pub open spec fn forcing(rules: Rules, s: Seq<int>, i: int) -> bool {
    model::legal(s, i) && (model::extra_turn(s, i) || model::captures(rules, s, i))
}

/// Forcing moves lower the seeds in play, so that playing them out comes to an end.
pub proof fn lemma_forcing(rules: Rules, s: Seq<int>, i: int)
    requires
        model::valid(s),
        forcing(rules, s, i),
    ensures
        model::in_play(model::after(rules, s, i)) < model::in_play(s),
{
    model::lemma_played(rules, s, i);
    model::lemma_flip(model::played(rules, s, i));
}

/// The value of a position at the horizon of a search that plays out forcing
/// moves: the outcome where it is known, and otherwise the best of the estimate
/// and the forcing moves.
pub open spec fn quiet_value(c: Setting, s: Seq<int>) -> int
    decreases model::in_play(s), model::weight(s), model::pits(s) + 1,
{
    if !model::valid(s) {
        0
    } else if model::over(s) {
        final_margin(s) * STORE_WEIGHT
    } else {
        match (c.oracle)(layout(s)) {
            Some(g) => (model::lead(s) + g) * STORE_WEIGHT,
            None => best_quiet(c, s, model::pits(s)),
        }
    }
}

/// The value of a forcing move at the horizon.
pub open spec fn quiet_move(c: Setting, s: Seq<int>, i: int) -> int
    decreases model::in_play(s), model::weight(s), 0int,
{
    if model::valid(s) && model::legal(s, i) {
        proof {
            model::lemma_after(c.rules, s, i);
            model::lemma_bounds(s);
        }
        if model::extra_turn(s, i) {
            quiet_value(c, model::after(c.rules, s, i))
        } else {
            -quiet_value(c, model::after(c.rules, s, i))
        }
    } else {
        0
    }
}

/// The best of the estimate and the forcing moves below pit `k`.
pub open spec fn best_quiet(c: Setting, s: Seq<int>, k: int) -> int
    decreases model::in_play(s), model::weight(s), k,
{
    if !model::valid(s) || k <= 0 {
        estimate(s)
    } else {
        proof {
            model::lemma_bounds(s);
        }
        let rest = best_quiet(c, s, k - 1);
        if forcing(c.rules, s, k - 1) && quiet_move(c, s, k - 1) > rest {
            quiet_move(c, s, k - 1)
        } else {
            rest
        }
    }
}

/// The value that a search assigns to a position, for the player to move:
/// searching to the end of the game (`None`) or to a depth in moves. The end of
/// the game and the oracle settle a position at once; at depth zero the estimate
/// or the quiescence value stands in; everywhere else the best move counts.
pub open spec fn search_value(c: Setting, s: Seq<int>, depth: Option<int>) -> int
    decreases model::in_play(s), model::weight(s), model::pits(s) + 1,
{
    if !model::valid(s) {
        0
    } else if model::over(s) {
        scaled(final_margin(s), depth)
    } else {
        match (c.oracle)(layout(s)) {
            Some(g) => scaled(model::lead(s) + g, depth),
            None => if depth == Some(0int) {
                if c.quiesce {
                    quiet_value(c, s)
                } else {
                    estimate(s)
                }
            } else {
                match best_search(c, s, model::pits(s), depth) {
                    Some(v) => v,
                    None => 0,
                }
            },
        }
    }
}

/// The value that a search with `depth` left assigns to playing pit `i`.
pub open spec fn move_value(c: Setting, s: Seq<int>, i: int, depth: Option<int>) -> int
    decreases model::in_play(s), model::weight(s), 0int,
{
    if model::valid(s) && model::legal(s, i) {
        proof {
            model::lemma_after(c.rules, s, i);
            model::lemma_bounds(s);
        }
        if model::extra_turn(s, i) {
            search_value(c, model::after(c.rules, s, i), deeper(depth))
        } else {
            -search_value(c, model::after(c.rules, s, i), deeper(depth))
        }
    } else {
        0
    }
}

/// The best value over the legal pits below `k`, if there is one.
pub open spec fn best_search(c: Setting, s: Seq<int>, k: int, depth: Option<int>) -> Option<int>
    decreases model::in_play(s), model::weight(s), k,
{
    if !model::valid(s) || k <= 0 {
        None
    } else {
        proof {
            model::lemma_bounds(s);
        }
        let rest = best_search(c, s, k - 1, depth);
        if model::legal(s, k - 1) {
            at_least(rest, move_value(c, s, k - 1, depth))
        } else {
            rest
        }
    }
}

proof fn lemma_best_search(c: Setting, s: Seq<int>, k: int, depth: Option<int>)
    requires
        model::valid(s),
        k <= model::pits(s),
    ensures
        forall|i: int|
            0 <= i < k && model::legal(s, i) ==> best_search(c, s, k, depth) is Some
                && #[trigger] move_value(c, s, i, depth) <= best_search(c, s, k, depth)->0,
        best_search(c, s, k, depth) matches Some(v) ==> exists|i: int|
            0 <= i < k && model::legal(s, i) && #[trigger] move_value(c, s, i, depth) == v,
    decreases k,
{
    if k > 0 {
        lemma_best_search(c, s, k - 1, depth);
        if model::legal(s, k - 1) {
            let v = move_value(c, s, k - 1, depth);
            assert(best_search(c, s, k, depth) == at_least(best_search(c, s, k - 1, depth), v));
        }
        if best_search(c, s, k, depth) is Some {
            let w = best_search(c, s, k, depth)->0;
            if model::legal(s, k - 1) && w == move_value(c, s, k - 1, depth) {
            } else {
                let i = choose|i: int|
                    0 <= i < k - 1 && model::legal(s, i) && #[trigger] move_value(c, s, i, depth)
                        == w;
                assert(0 <= i < k && model::legal(s, i) && move_value(c, s, i, depth) == w);
            }
        }
    }
}

/// A search settles this position only through its moves.
pub open spec fn branches(c: Setting, s: Seq<int>, depth: Option<int>) -> bool {
    &&& model::valid(s)
    &&& !model::over(s)
    &&& (c.oracle)(layout(s)) is None
    &&& depth != Some(0int)
}

/// Where the moves decide, no move is worth more than the position and one is
/// worth as much.
pub proof fn lemma_search_value_is_best(c: Setting, s: Seq<int>, depth: Option<int>)
    requires
        branches(c, s, depth),
    ensures
        forall|i: int|
            model::legal(s, i) ==> #[trigger] move_value(c, s, i, depth) <= search_value(
                c,
                s,
                depth,
            ),
        exists|i: int|
            model::legal(s, i) && #[trigger] move_value(c, s, i, depth) == search_value(
                c,
                s,
                depth,
            ),
{
    lemma_best_search(c, s, model::pits(s), depth);
    model::lemma_has_move(s);
    let i = choose|i: int| model::legal(s, i);
    assert(move_value(c, s, i, depth) <= search_value(c, s, depth));
}

proof fn lemma_best_quiet(c: Setting, s: Seq<int>, k: int)
    requires
        model::valid(s),
        k <= model::pits(s),
    ensures
        estimate(s) <= best_quiet(c, s, k),
        forall|i: int|
            0 <= i < k && forcing(c.rules, s, i) ==> #[trigger] quiet_move(c, s, i) <= best_quiet(
                c,
                s,
                k,
            ),
        best_quiet(c, s, k) == estimate(s) || exists|i: int|
            0 <= i < k && forcing(c.rules, s, i) && #[trigger] quiet_move(c, s, i) == best_quiet(
                c,
                s,
                k,
            ),
    decreases k,
{
    if k > 0 {
        lemma_best_quiet(c, s, k - 1);
        let w = best_quiet(c, s, k);
        if w != estimate(s) && !(forcing(c.rules, s, k - 1) && w == quiet_move(c, s, k - 1)) {
            let i = choose|i: int|
                0 <= i < k - 1 && forcing(c.rules, s, i) && #[trigger] quiet_move(c, s, i) == w;
            assert(0 <= i < k && forcing(c.rules, s, i) && quiet_move(c, s, i) == w);
        }
    }
}

/// At the horizon neither standing pat nor a forcing move is worth more than the
/// quiescence value, and one of them is worth as much.
pub proof fn lemma_quiet_value_is_best(c: Setting, s: Seq<int>)
    requires
        model::valid(s),
        !model::over(s),
        (c.oracle)(layout(s)) is None,
    ensures
        estimate(s) <= quiet_value(c, s),
        forall|i: int|
            forcing(c.rules, s, i) ==> #[trigger] quiet_move(c, s, i) <= quiet_value(c, s),
        quiet_value(c, s) == estimate(s) || exists|i: int|
            forcing(c.rules, s, i) && #[trigger] quiet_move(c, s, i) == quiet_value(c, s),
{
    lemma_best_quiet(c, s, model::pits(s));
}

/// The estimate is a floor at the horizon: the side to move may stand pat. It is what the
/// position is worth there where no move is forcing, and a finished game is worth its
/// outcome.
pub proof fn lemma_stand_pat(c: Setting, s: Seq<int>)
    requires
        model::valid(s),
    ensures
        model::over(s) ==> quiet_value(c, s) == final_margin(s) * STORE_WEIGHT,
        !model::over(s) && (c.oracle)(layout(s)) is None ==> quiet_value(c, s) >= estimate(s),
        !model::over(s) && (c.oracle)(layout(s)) is None && (forall|i: int|
            !#[trigger] forcing(c.rules, s, i)) ==> quiet_value(c, s) == estimate(s),
{
    if !model::over(s) && (c.oracle)(layout(s)) is None {
        lemma_quiet_value_is_best(c, s);
    }
}

/// The bounds of an outcome and of an estimate.
pub proof fn lemma_leaf_bound(s: Seq<int>)
    requires
        model::valid(s),
    ensures
        -model::in_play(s) <= final_margin(s) - model::lead(s) <= model::in_play(s),
        -model::total(s) <= final_margin(s) <= model::total(s),
        -model::total(s) * STORE_WEIGHT <= estimate(s) <= model::total(s) * STORE_WEIGHT,
        -model::total(s) <= model::lead(s) <= model::total(s),
        model::total(s) >= 0,
{
    model::lemma_bounds(s);
    model::lemma_total_parts(s);
}

/// A layout holds the seeds in play.
pub proof fn lemma_layout_total(s: Seq<int>)
    ensures
        model::total(layout(s)) == model::in_play(s),
{
    model::lemma_total_concat(model::mine(s), model::theirs(s));
}

/// The quiescence value is bounded by the seeds of the position.
pub proof fn lemma_quiet_bound(c: Setting, s: Seq<int>)
    requires
        model::valid(s),
        c.bounded(),
    ensures
        -(model::total(s) + MAX_CLAIM) * STORE_WEIGHT <= quiet_value(c, s) <= (model::total(s)
            + MAX_CLAIM) * STORE_WEIGHT,
    decreases model::in_play(s), model::weight(s),
{
    lemma_leaf_bound(s);
    lemma_layout_total(s);
    if !model::over(s) {
        match (c.oracle)(layout(s)) {
            Some(g) => {},
            None => {
                lemma_quiet_value_is_best(c, s);
                if quiet_value(c, s) != estimate(s) {
                    let i = choose|i: int|
                        forcing(c.rules, s, i) && #[trigger] quiet_move(c, s, i) == quiet_value(
                            c,
                            s,
                        );
                    model::lemma_after(c.rules, s, i);
                    lemma_quiet_bound(c, model::after(c.rules, s, i));
                }
            },
        }
    }
}

/// The value of a search is bounded by the seeds of the position and the largest
/// claim of the oracle.
pub proof fn lemma_search_bound(c: Setting, s: Seq<int>, depth: Option<int>)
    requires
        model::valid(s),
        c.bounded(),
    ensures
        scaled(-(model::total(s) + MAX_CLAIM), depth) <= search_value(c, s, depth) <= scaled(
            model::total(s) + MAX_CLAIM,
            depth,
        ),
    decreases model::in_play(s), model::weight(s),
{
    lemma_leaf_bound(s);
    lemma_layout_total(s);
    if model::over(s) {
    } else if (c.oracle)(layout(s)) is Some {
        let g = (c.oracle)(layout(s))->0;
        assert(-MAX_CLAIM <= g <= MAX_CLAIM);
    } else if depth == Some(0int) {
        lemma_quiet_bound(c, s);
    } else {
        lemma_search_value_is_best(c, s, depth);
        let i = choose|i: int|
            model::legal(s, i) && #[trigger] move_value(c, s, i, depth) == search_value(
                c,
                s,
                depth,
            );
        model::lemma_after(c.rules, s, i);
        lemma_search_bound(c, model::after(c.rules, s, i), deeper(depth));
    }
}

proof fn lemma_modest_quiet(c: Setting, s: Seq<int>)
    requires
        model::valid(s),
        c.modest(),
    ensures
        -model::total(s) * STORE_WEIGHT <= quiet_value(c, s) <= model::total(s) * STORE_WEIGHT,
    decreases model::in_play(s), model::weight(s),
{
    lemma_leaf_bound(s);
    model::lemma_bounds(s);
    model::lemma_total_parts(s);
    if !model::over(s) && (c.oracle)(layout(s)) is None {
        lemma_quiet_value_is_best(c, s);
        if quiet_value(c, s) != estimate(s) {
            let i = choose|i: int|
                forcing(c.rules, s, i) && #[trigger] quiet_move(c, s, i) == quiet_value(c, s);
            model::lemma_after(c.rules, s, i);
            lemma_modest_quiet(c, model::after(c.rules, s, i));
        }
    }
}

/// With a modest oracle the value of a search is bounded by the seeds of the position.
pub proof fn lemma_modest_bound(c: Setting, s: Seq<int>, depth: Option<int>)
    requires
        model::valid(s),
        c.modest(),
    ensures
        scaled(-model::total(s), depth) <= search_value(c, s, depth) <= scaled(
            model::total(s),
            depth,
        ),
    decreases model::in_play(s), model::weight(s),
{
    lemma_leaf_bound(s);
    model::lemma_bounds(s);
    model::lemma_total_parts(s);
    if model::over(s) {
    } else if (c.oracle)(layout(s)) is Some {
        let g = (c.oracle)(layout(s))->0;
        assert(-model::in_play(s) <= g <= model::in_play(s));
    } else if depth == Some(0int) {
        lemma_modest_quiet(c, s);
    } else {
        lemma_search_value_is_best(c, s, depth);
        let i = choose|i: int|
            model::legal(s, i) && #[trigger] move_value(c, s, i, depth) == search_value(
                c,
                s,
                depth,
            );
        model::lemma_after(c.rules, s, i);
        lemma_modest_bound(c, model::after(c.rules, s, i), deeper(depth));
    }
}

/// The truth is modest.
pub proof fn lemma_truth_is_modest(c: Setting)
    requires
        c.truthful(),
    ensures
        c.modest(),
{
    assert forall|s: Seq<int>|
        model::valid(s) && (#[trigger] (c.oracle)(layout(s))) is Some implies ({
        let g = (c.oracle)(layout(s))->0;
        -model::in_play(s) <= g <= model::in_play(s)
    }) by {
        lemma_future_bound(c.rules, s);
    }
}

proof fn lemma_banked_search(c: Setting, s: Seq<int>, a: int, b: int)
    requires
        model::valid(s),
        model::valid(banked(s, a, b)),
    ensures
        search_value(c, banked(s, a, b), None) == search_value(c, s, None) + a - b,
    decreases model::in_play(s), model::weight(s),
{
    let t = banked(s, a, b);
    let n = model::pits(s);
    assert(model::pits(t) == n);
    assert(model::mine(t) =~= model::mine(s));
    assert(model::theirs(t) =~= model::theirs(s));
    assert(layout(t) == layout(s));
    model::lemma_bounds(s);
    if !model::over(s) && (c.oracle)(layout(s)) is None {
        assert forall|i: int| model::legal(s, i) implies #[trigger] move_value(c, t, i, None)
            == move_value(c, s, i, None) + a - b by {
            lemma_banked_after(c.rules, s, i, a, b);
            model::lemma_after(c.rules, s, i);
            model::lemma_after(c.rules, t, i);
            if model::extra_turn(s, i) {
                lemma_banked_search(c, model::after(c.rules, s, i), a, b);
            } else {
                lemma_banked_search(c, model::after(c.rules, s, i), b, a);
            }
        }
        assert forall|i: int| #[trigger] model::legal(s, i) == model::legal(t, i) by {}
        lemma_search_value_is_best(c, s, None);
        lemma_search_value_is_best(c, t, None);
        let i = choose|i: int|
            model::legal(s, i) && #[trigger] move_value(c, s, i, None) == search_value(c, s, None);
        let j = choose|j: int|
            model::legal(t, j) && #[trigger] move_value(c, t, j, None) == search_value(c, t, None);
        assert(model::legal(s, j));
        assert(move_value(c, t, i, None) <= search_value(c, t, None));
        assert(move_value(c, s, j, None) <= search_value(c, s, None));
    }
}

/// A search to the end of the game adds the same to the lead of every position
/// with the same pits.
pub proof fn lemma_search_ignores_stores(c: Setting, s: Seq<int>, t: Seq<int>)
    requires
        model::valid(s),
        model::valid(t),
        layout(s) == layout(t),
    ensures
        search_value(c, s, None) - model::lead(s) == search_value(c, t, None) - model::lead(t),
        forall|i: int|
            model::legal(s, i) ==> #[trigger] move_value(c, s, i, None) - model::lead(s)
                == move_value(c, t, i, None) - model::lead(t),
        forall|i: int| #[trigger] model::legal(s, i) == model::legal(t, i),
{
    lemma_same_layout(s, t);
    let a = model::bank(t) - model::bank(s);
    let b = model::their_bank(t) - model::their_bank(s);
    lemma_banked_search(c, s, a, b);
    assert(t == banked(s, a, b));
    assert forall|i: int| #[trigger] model::legal(s, i) == model::legal(t, i) by {
        if 0 <= i < model::pits(s) {
            assert(model::mine(s)[i] == model::mine(t)[i]);
        }
    }
    assert forall|i: int| model::legal(s, i) implies #[trigger] move_value(c, s, i, None)
        - model::lead(s) == move_value(c, t, i, None) - model::lead(t) by {
        lemma_banked_after(c.rules, s, i, a, b);
        model::lemma_after(c.rules, s, i);
        model::lemma_after(c.rules, t, i);
        if model::extra_turn(s, i) {
            lemma_banked_search(c, model::after(c.rules, s, i), a, b);
        } else {
            lemma_banked_search(c, model::after(c.rules, s, i), b, a);
        }
    }
}

/// With a truthful oracle, searching to the end of the game finds the value of
/// perfect play, of the position and of each of its moves.
pub proof fn lemma_search_is_perfect(c: Setting, s: Seq<int>)
    requires
        model::valid(s),
        c.truthful(),
    ensures
        search_value(c, s, None) == game_value(c.rules, s),
        forall|i: int|
            model::legal(s, i) ==> #[trigger] move_value(c, s, i, None) == move_margin(
                c.rules,
                s,
                i,
            ),
    decreases model::in_play(s), model::weight(s),
{
    model::lemma_bounds(s);
    assert forall|i: int| model::legal(s, i) implies #[trigger] move_value(c, s, i, None)
        == move_margin(c.rules, s, i) by {
        model::lemma_after(c.rules, s, i);
        lemma_search_is_perfect(c, model::after(c.rules, s, i));
    }
    if !model::over(s) && (c.oracle)(layout(s)) is None {
        lemma_search_value_is_best(c, s, None);
        lemma_game_value_is_best(c.rules, s);
        let i = choose|i: int|
            model::legal(s, i) && #[trigger] move_value(c, s, i, None) == search_value(c, s, None);
        let j = choose|j: int|
            model::legal(s, j) && #[trigger] move_margin(c.rules, s, j) == game_value(c.rules, s);
        assert(move_value(c, s, j, None) <= search_value(c, s, None));
        assert(move_margin(c.rules, s, i) <= game_value(c.rules, s));
    }
}

/// Where what follows a move is over or known, a search to any depth gives the move its
/// true value.
pub proof fn lemma_known_move(c: Setting, s: Seq<int>, i: int, depth: Option<int>)
    requires
        model::valid(s),
        model::legal(s, i),
        c.truthful(),
        model::over(model::after(c.rules, s, i)) || (c.oracle)(
            layout(model::after(c.rules, s, i)),
        ) is Some,
    ensures
        move_value(c, s, i, depth) == scaled(move_margin(c.rules, s, i), depth),
{
    let t = model::after(c.rules, s, i);
    model::lemma_after(c.rules, s, i);
    let v = game_value(c.rules, t);
    assert(search_value(c, t, deeper(depth)) == scaled(v, depth));
    assert((-v) * STORE_WEIGHT == -(v * STORE_WEIGHT)) by (nonlinear_arith);
}

// ---------------------------------------------------------------------------
// How far a search may have to look
// ---------------------------------------------------------------------------

/// The most nodes that a search of a position with `depth` left can visit: one for the
/// position itself, and each legal move searched at most twice.
pub open spec fn visits(c: Setting, s: Seq<int>, depth: Option<int>) -> int
    decreases model::in_play(s), model::weight(s), model::pits(s) + 1,
{
    if !model::valid(s) || model::over(s) || (c.oracle)(layout(s)) is Some {
        1
    } else if depth == Some(0int) {
        if c.quiesce {
            1 + quiet_visits(c, s)
        } else {
            1
        }
    } else {
        1 + move_visits(c, s, model::pits(s), depth)
    }
}

/// The most nodes that the legal pits below `k` can account for.
pub open spec fn move_visits(c: Setting, s: Seq<int>, k: int, depth: Option<int>) -> int
    decreases model::in_play(s), model::weight(s), k,
{
    if !model::valid(s) || k <= 0 {
        0
    } else {
        proof {
            model::lemma_bounds(s);
            if model::legal(s, k - 1) {
                model::lemma_after(c.rules, s, k - 1);
            }
        }
        move_visits(c, s, k - 1, depth) + if model::legal(s, k - 1) {
            2 * visits(c, model::after(c.rules, s, k - 1), deeper(depth))
        } else {
            0
        }
    }
}

/// The most nodes that a quiescence search of a position can visit.
pub open spec fn quiet_visits(c: Setting, s: Seq<int>) -> int
    decreases model::in_play(s), model::weight(s), model::pits(s) + 1,
{
    if !model::valid(s) || model::over(s) || (c.oracle)(layout(s)) is Some {
        1
    } else {
        1 + quiet_moves(c, s, model::pits(s))
    }
}

/// The most nodes that the forcing moves below `k` can account for.
pub open spec fn quiet_moves(c: Setting, s: Seq<int>, k: int) -> int
    decreases model::in_play(s), model::weight(s), k,
{
    if !model::valid(s) || k <= 0 {
        0
    } else {
        proof {
            model::lemma_bounds(s);
            if model::legal(s, k - 1) {
                model::lemma_after(c.rules, s, k - 1);
            }
        }
        quiet_moves(c, s, k - 1) + if forcing(c.rules, s, k - 1) {
            quiet_visits(c, model::after(c.rules, s, k - 1))
        } else {
            0
        }
    }
}

/// The most nodes that an analysis of a position visits when it searches every legal
/// move.
pub open spec fn root_visits(c: Setting, s: Seq<int>, depth: Option<int>) -> int {
    move_visits(c, s, model::pits(s), depth)
}

/// The most nodes that analyses to the depths from 1 to `k` visit together.
pub open spec fn visits_within(c: Setting, s: Seq<int>, k: int) -> int
    decreases k,
{
    if k <= 0 {
        0
    } else {
        visits_within(c, s, k - 1) + root_visits(c, s, Some(k))
    }
}

/// Deeper iterations can only visit more nodes.
pub proof fn lemma_visits_within(c: Setting, s: Seq<int>, j: int, k: int)
    requires
        0 <= j <= k,
    ensures
        0 <= visits_within(c, s, j) <= visits_within(c, s, k),
    decreases k,
{
    if j < k {
        lemma_visits_within(c, s, j, k - 1);
        lemma_visits_positive(c, s, Some(k));
    } else if k > 0 {
        lemma_visits_within(c, s, k - 1, k - 1);
        lemma_visits_positive(c, s, Some(k));
    }
}

pub proof fn lemma_visits_positive(c: Setting, s: Seq<int>, depth: Option<int>)
    ensures
        visits(c, s, depth) >= 1,
        forall|k: int| #[trigger] move_visits(c, s, k, depth) >= 0,
{
    if model::valid(s) {
        assert forall|k: int| #[trigger] move_visits(c, s, k, depth) >= 0 by {
            lemma_move_visits(c, s, k, depth);
        }
        assert(move_visits(c, s, model::pits(s), depth) >= 0);
        lemma_quiet_positive(c, s);
    }
}

proof fn lemma_move_visits(c: Setting, s: Seq<int>, k: int, depth: Option<int>)
    requires
        model::valid(s),
    ensures
        move_visits(c, s, k, depth) >= 0,
    decreases model::in_play(s), model::weight(s), k,
{
    if k > 0 {
        model::lemma_bounds(s);
        lemma_move_visits(c, s, k - 1, depth);
        if model::legal(s, k - 1) {
            let t = model::after(c.rules, s, k - 1);
            model::lemma_after(c.rules, s, k - 1);
            lemma_move_visits(c, t, model::pits(t), deeper(depth));
            lemma_quiet_positive(c, t);
            assert(visits(c, t, deeper(depth)) >= 1);
        }
    }
}

pub proof fn lemma_quiet_positive(c: Setting, s: Seq<int>)
    ensures
        quiet_visits(c, s) >= 1,
        forall|k: int| #[trigger] quiet_moves(c, s, k) >= 0,
{
    if model::valid(s) {
        assert forall|k: int| #[trigger] quiet_moves(c, s, k) >= 0 by {
            lemma_quiet_moves(c, s, k);
        }
        assert(quiet_moves(c, s, model::pits(s)) >= 0);
    }
}

proof fn lemma_quiet_moves(c: Setting, s: Seq<int>, k: int)
    requires
        model::valid(s),
    ensures
        quiet_moves(c, s, k) >= 0,
    decreases model::in_play(s), model::weight(s), k,
{
    if k > 0 {
        model::lemma_bounds(s);
        lemma_quiet_moves(c, s, k - 1);
        if model::legal(s, k - 1) {
            let t = model::after(c.rules, s, k - 1);
            model::lemma_after(c.rules, s, k - 1);
            lemma_quiet_moves(c, t, model::pits(t));
            assert(quiet_visits(c, t) >= 1);
        }
    }
}

// ---------------------------------------------------------------------------
// Laws of value
// ---------------------------------------------------------------------------

/// The estimate takes no side: what one player has, the other lacks.
pub proof fn lemma_estimate_flips(s: Seq<int>)
    requires
        model::valid(s),
    ensures
        estimate(model::flip(s)) == -estimate(s),
{
    model::lemma_flip(s);
    assert((-model::lead(s)) * STORE_WEIGHT == -(model::lead(s) * STORE_WEIGHT)) by (nonlinear_arith);
}

/// A banked seed counts a hundred in the estimate, whoever leads.
pub proof fn lemma_estimate_banked(s: Seq<int>, a: int, b: int)
    requires
        model::valid(s),
    ensures
        estimate(banked(s, a, b)) == estimate(s) + 100 * (a - b),
        forall|v: int|
            #![trigger s.update(s.len() / 2 - 1, v)]
            estimate(s.update(s.len() / 2 - 1, v)) == estimate(s) + 100 * (v - s[s.len() / 2 - 1]),
{
    let n = model::pits(s);
    let t = banked(s, a, b);
    assert(model::mine(t) =~= model::mine(s));
    assert(model::theirs(t) =~= model::theirs(s));
    assert(model::lead(t) == model::lead(s) + a - b);
    assert forall|v: int|
        #![trigger s.update(s.len() / 2 - 1, v)]
        estimate(s.update(s.len() / 2 - 1, v)) == estimate(s) + 100 * (v - s[s.len() / 2 - 1]) by {
        let u = s.update(n, v);
        assert(model::mine(u) =~= model::mine(s));
        assert(model::theirs(u) =~= model::theirs(s));
    }
}

/// A seed in a pit counts one in the estimate, for the side that it lies on.
pub proof fn lemma_estimate_sown(s: Seq<int>, r: int, v: int)
    requires
        model::valid(s),
    ensures
        0 <= r < s.len() / 2 - 1 ==> estimate(s.update(r, v)) == estimate(s) + v - s[r],
        s.len() / 2 <= r < s.len() - 1 ==> estimate(s.update(r, v)) == estimate(s) - v + s[r],
{
    let n = model::pits(s);
    let u = s.update(r, v);
    if 0 <= r < n {
        assert(model::mine(u) =~= model::mine(s).update(r, v));
        assert(model::theirs(u) =~= model::theirs(s));
        model::lemma_total_update(model::mine(s), r, v);
    } else if n < r < s.len() - 1 {
        assert(model::mine(u) =~= model::mine(s));
        assert(model::theirs(u) =~= model::theirs(s).update(r - n - 1, v));
        model::lemma_total_update(model::theirs(s), r - n - 1, v);
    }
}

/// The final margin takes no side, and every seed counts one for the side that it lies on,
/// in a store as in a pit.
pub proof fn lemma_final_margin(s: Seq<int>, r: int, v: int)
    requires
        model::valid(s),
    ensures
        final_margin(model::flip(s)) == -final_margin(s),
        0 <= r < s.len() / 2 ==> final_margin(s.update(r, v)) == final_margin(s) + v - s[r],
        s.len() / 2 <= r < s.len() ==> final_margin(s.update(r, v)) == final_margin(s) - v + s[r],
{
    let n = model::pits(s);
    model::lemma_flip(s);
    let u = s.update(r, v);
    if 0 <= r < n {
        assert(model::mine(u) =~= model::mine(s).update(r, v));
        assert(model::theirs(u) =~= model::theirs(s));
        model::lemma_total_update(model::mine(s), r, v);
    } else if n < r < s.len() - 1 {
        assert(model::mine(u) =~= model::mine(s));
        assert(model::theirs(u) =~= model::theirs(s).update(r - n - 1, v));
        model::lemma_total_update(model::theirs(s), r - n - 1, v);
    } else if r == n || r == s.len() - 1 {
        assert(model::mine(u) =~= model::mine(s));
        assert(model::theirs(u) =~= model::theirs(s));
    }
}

/// What a move is worth to the player who makes it, when the position that it leads to is
/// worth `v` to the player who is then to move: as much after another turn, which the move
/// earns if its last seed falls into the own store, and as much less than nothing otherwise.
pub open spec fn to_mover(s: Seq<int>, i: int, v: int) -> int {
    if (i + s[i]) % (s.len() - 1) == s.len() / 2 - 1 {
        v
    } else {
        -v
    }
}

/// Perfect play: a finished game is worth its final margin; otherwise no move leads to more
/// than the position is worth, and one leads to as much.
pub proof fn lemma_perfect_play(rules: Rules, s: Seq<int>)
    requires
        model::valid(s),
    ensures
        (forall|i: int| !#[trigger] model::legal(s, i)) || (forall|i: int| !#[trigger] model::legal(
            model::flip(s),
            i,
        )) ==> game_value(rules, s) == final_margin(s),
        !model::over(s) ==> {
            &&& forall|i: int| #[trigger]
                model::legal(s, i) ==> to_mover(s, i, game_value(rules, model::after(rules, s, i)))
                    <= game_value(rules, s)
            &&& exists|i: int| #[trigger]
                model::legal(s, i) && to_mover(s, i, game_value(rules, model::after(rules, s, i)))
                    == game_value(rules, s)
        },
        forall|i: int| #[trigger]
            model::legal(s, i) ==> move_margin(rules, s, i) == to_mover(
                s,
                i,
                game_value(rules, model::after(rules, s, i)),
            ),
{
    model::lemma_over(s);
    assert forall|i: int| #[trigger] model::legal(s, i) implies move_margin(rules, s, i)
        == to_mover(s, i, game_value(rules, model::after(rules, s, i))) by {
        model::lemma_extra_turn(s, i);
    }
    if !model::over(s) {
        lemma_game_value_is_best(rules, s);
        assert forall|i: int| #[trigger] model::legal(s, i) implies to_mover(
            s,
            i,
            game_value(rules, model::after(rules, s, i)),
        ) <= game_value(rules, s) by {
            assert(move_margin(rules, s, i) <= game_value(rules, s));
        }
        let i = choose|i: int|
            model::legal(s, i) && #[trigger] move_margin(rules, s, i) == game_value(rules, s);
        assert(model::legal(s, i));
    }
}

/// A search without an oracle: a finished game is worth its final margin, in hundredths of
/// a seed where the search goes to a depth; at the horizon of a search that does not play
/// out forcing moves the estimate stands; and before it no move leads to more than the
/// position is worth, and one leads to as much.
pub proof fn lemma_search(c: Setting, s: Seq<int>, depth: Option<int>)
    requires
        model::valid(s),
        (c.oracle)(layout(s)) is None,
    ensures
        model::over(s) ==> search_value(c, s, depth) == match depth {
            None => final_margin(s),
            Some(_) => 100 * final_margin(s),
        },
        !model::over(s) && depth == Some(0int) && !c.quiesce ==> search_value(c, s, depth)
            == estimate(s),
        !model::over(s) && depth == Some(0int) && c.quiesce ==> search_value(c, s, depth)
            == quiet_value(c, s),
        !model::over(s) && depth != Some(0int) ==> {
            let left = match depth {
                None => None,
                Some(d) => Some(d - 1),
            };
            &&& forall|i: int| #[trigger]
                model::legal(s, i) ==> to_mover(
                    s,
                    i,
                    search_value(c, model::after(c.rules, s, i), left),
                ) <= search_value(c, s, depth)
            &&& exists|i: int| #[trigger]
                model::legal(s, i) && to_mover(
                    s,
                    i,
                    search_value(c, model::after(c.rules, s, i), left),
                ) == search_value(c, s, depth)
        },
{
    if !model::over(s) && depth != Some(0int) {
        lemma_search_value_is_best(c, s, depth);
        assert forall|i: int| #[trigger] model::legal(s, i) implies to_mover(
            s,
            i,
            search_value(c, model::after(c.rules, s, i), deeper(depth)),
        ) == move_value(c, s, i, depth) by {
            model::lemma_extra_turn(s, i);
        }
        let i = choose|i: int|
            model::legal(s, i) && #[trigger] move_value(c, s, i, depth) == search_value(c, s, depth);
        assert(model::legal(s, i));
        assert forall|i: int| #[trigger] model::legal(s, i) implies to_mover(
            s,
            i,
            search_value(c, model::after(c.rules, s, i), deeper(depth)),
        ) <= search_value(c, s, depth) by {
            assert(move_value(c, s, i, depth) <= search_value(c, s, depth));
        }
    }
}

/// Where the oracle knows the future of the pits, a search takes it, on top of the lead.
pub proof fn lemma_search_known(c: Setting, s: Seq<int>, depth: Option<int>)
    requires
        model::valid(s),
        !model::over(s),
        (c.oracle)(layout(s)) is Some,
    ensures
        search_value(c, s, depth) == match depth {
            None => model::lead(s) + (c.oracle)(layout(s))->0,
            Some(_) => 100 * (model::lead(s) + (c.oracle)(layout(s))->0),
        },
        quiet_value(c, s) == 100 * (model::lead(s) + (c.oracle)(layout(s))->0),
{
}

/// At the horizon a search that plays out forcing moves, which are those that earn another
/// turn or capture, takes the best of them and of the estimate.
pub proof fn lemma_quiescence(c: Setting, s: Seq<int>)
    requires
        model::valid(s),
        !model::over(s),
        (c.oracle)(layout(s)) is None,
    ensures
        estimate(s) <= quiet_value(c, s),
        forall|i: int|
            model::legal(s, i) && ((i + s[i]) % (s.len() - 1) == s.len() / 2 - 1
                || #[trigger] model::captures(c.rules, s, i)) ==> to_mover(
                s,
                i,
                quiet_value(c, model::after(c.rules, s, i)),
            ) <= quiet_value(c, s),
        quiet_value(c, s) == estimate(s) || exists|i: int|
            model::legal(s, i) && ((i + s[i]) % (s.len() - 1) == s.len() / 2 - 1
                || #[trigger] model::captures(c.rules, s, i)) && to_mover(
                s,
                i,
                quiet_value(c, model::after(c.rules, s, i)),
            ) == quiet_value(c, s),
{
    lemma_quiet_value_is_best(c, s);
    assert forall|i: int| model::legal(s, i) implies #[trigger] quiet_move(c, s, i) == to_mover(
        s,
        i,
        quiet_value(c, model::after(c.rules, s, i)),
    ) && (model::extra_turn(s, i) <==> (i + s[i]) % (s.len() - 1) == s.len() / 2 - 1) by {
        model::lemma_extra_turn(s, i);
    }
    assert forall|i: int|
        model::legal(s, i) && ((i + s[i]) % (s.len() - 1) == s.len() / 2 - 1
            || #[trigger] model::captures(c.rules, s, i)) implies to_mover(
        s,
        i,
        quiet_value(c, model::after(c.rules, s, i)),
    ) <= quiet_value(c, s) by {
        assert(quiet_move(c, s, i) <= quiet_value(c, s));
    }
    if quiet_value(c, s) != estimate(s) {
        let i = choose|i: int|
            forcing(c.rules, s, i) && #[trigger] quiet_move(c, s, i) == quiet_value(c, s);
        let captures = model::captures(c.rules, s, i);
        assert(to_mover(s, i, quiet_value(c, model::after(c.rules, s, i))) == quiet_value(c, s));
    }
}

/// A layout is the pits without the stores: the mover's, then the other player's.
pub proof fn lemma_layout(s: Seq<int>)
    requires
        model::valid(s),
    ensures
        layout(s).len() == s.len() - 2,
        forall|j: int| 0 <= j < s.len() / 2 - 1 ==> #[trigger] layout(s)[j] == s[j],
        forall|j: int|
            s.len() / 2 - 1 <= j < s.len() - 2 ==> #[trigger] layout(s)[j] == s[j + 1],
{
}

} // verus!
