//! What a search cannot do without.
//!
//! A search with an open window that has learned nothing yet goes straight down one
//! line, the one of the moves that it tries first, and has to look at every move along
//! it. That gives a lower bound on the nodes of an analysis, and so on the budget that
//! an exact one takes.

use vstd::prelude::*;

use crate::board;
use crate::model;
use crate::searcher;
use crate::value;
use crate::value::Setting;

verus! {

/// The pit below `k` that is tried first where nothing was learned, or -1 if none is
/// legal.
pub open spec fn first_below(s: Seq<int>, k: int) -> int
    decreases k,
{
    if k <= 0 {
        -1
    } else {
        let rest = first_below(s, k - 1);
        if model::legal(s, k - 1) && (rest < 0 || searcher::move_score(s, k - 1, None, 0)
            < searcher::move_score(s, rest, None, 0)) {
            k - 1
        } else {
            rest
        }
    }
}

/// The pit that is tried first where nothing was learned.
pub open spec fn first_tried(s: Seq<int>) -> int {
    first_below(s, model::pits(s))
}

/// The number of legal pits below `k`.
pub open spec fn mobility_below(s: Seq<int>, k: int) -> int
    decreases k,
{
    if k <= 0 {
        0
    } else {
        mobility_below(s, k - 1) + if model::legal(s, k - 1) {
            1int
        } else {
            0
        }
    }
}

/// The number of legal pits.
pub open spec fn mobility(s: Seq<int>) -> int {
    mobility_below(s, model::pits(s))
}

/// The fewest nodes that an open search of a position visits when it has learned nothing
/// yet: the moves along the line of those that it tries first.
pub open spec fn descent(c: Setting, s: Seq<int>, depth: Option<int>) -> int
    decreases model::in_play(s), model::weight(s),
{
    let i = first_tried(s);
    if !value::branches(c, s, depth) || !model::legal(s, i) {
        1
    } else {
        proof {
            model::lemma_after(c.rules, s, i);
            model::lemma_bounds(s);
        }
        mobility(s) + descent(c, model::after(c.rules, s, i), value::deeper(depth))
    }
}

/// The fewest nodes that an analysis of a position visits when it has learned nothing
/// yet.
pub open spec fn least_nodes(c: Setting, s: Seq<int>, depth: Option<int>) -> int {
    if model::over(s) {
        0
    } else {
        mobility(s) - 1 + descent(
            c,
            model::after(c.rules, s, first_tried(s)),
            value::deeper(depth),
        )
    }
}

proof fn lemma_first_below(s: Seq<int>, k: int)
    requires
        0 <= k <= model::pits(s) <= board::MAX_PITS,
    ensures
        first_below(s, k) == -1 || (0 <= first_below(s, k) < k && model::legal(
            s,
            first_below(s, k),
        )),
        forall|j: int|
            0 <= j < k && #[trigger] model::legal(s, j) ==> first_below(s, k) >= 0
                && searcher::move_score(s, first_below(s, k), None, 0) <= searcher::move_score(
                s,
                j,
                None,
                0,
            ),
    decreases k,
{
    if k > 0 {
        lemma_first_below(s, k - 1);
    }
}

proof fn lemma_mobility_below(s: Seq<int>, k: int)
    ensures
        mobility_below(s, k) >= 0,
        forall|j: int| 0 <= j < k && #[trigger] model::legal(s, j) ==> mobility_below(s, k) >= 1,
    decreases k,
{
    if k > 0 {
        lemma_mobility_below(s, k - 1);
    }
}

/// Every search visits a node.
pub proof fn lemma_descent_positive(c: Setting, s: Seq<int>, depth: Option<int>)
    ensures
        descent(c, s, depth) >= 1,
    decreases model::in_play(s), model::weight(s),
{
    let i = first_tried(s);
    if value::branches(c, s, depth) && model::legal(s, i) {
        model::lemma_after(c.rules, s, i);
        model::lemma_bounds(s);
        lemma_descent_positive(c, model::after(c.rules, s, i), value::deeper(depth));
        lemma_mobility_below(s, model::pits(s));
    }
}

/// No analysis of a position that is not over comes for nothing.
pub proof fn lemma_least_positive(c: Setting, s: Seq<int>, depth: Option<int>)
    requires
        model::valid(s),
        !model::over(s),
    ensures
        least_nodes(c, s, depth) >= 1,
{
    model::lemma_has_move(s);
    let i = choose|i: int| model::legal(s, i);
    assert(model::legal(s, i));
    lemma_mobility_below(s, model::pits(s));
    lemma_descent_positive(
        c,
        model::after(c.rules, s, first_tried(s)),
        value::deeper(depth),
    );
}

/// Of moves that are ordered as where nothing was learned, the first is the one that is
/// tried first, and they are all there.
pub proof fn lemma_listed(s: Seq<int>, moves: Seq<u8>)
    requires
        model::valid(s),
        !model::over(s),
        model::pits(s) <= board::MAX_PITS,
        searcher::lists_moves(s, moves),
        forall|x: int, y: int|
            0 <= x < y < moves.len() ==> searcher::move_score(
                s,
                #[trigger] moves[x] as int,
                None,
                0,
            ) <= searcher::move_score(s, #[trigger] moves[y] as int, None, 0),
    ensures
        moves.len() > 0,
        moves[0] == first_tried(s),
        model::legal(s, first_tried(s)),
        moves.len() >= mobility(s),
{
    let n = model::pits(s);
    lemma_first_below(s, n);
    model::lemma_has_move(s);
    let i = choose|i: int| model::legal(s, i);
    assert(model::legal(s, i));
    let f = first_tried(s);
    assert(model::legal(s, f));
    let x = choose|x: int| 0 <= x < moves.len() && #[trigger] moves[x] == f;
    assert(model::legal(s, moves[0] as int));
    assert(searcher::move_score(s, f, None, 0) <= searcher::move_score(
        s,
        moves[0] as int,
        None,
        0,
    ));
    if x > 0 {
        assert(searcher::move_score(s, moves[0] as int, None, 0) <= searcher::move_score(
            s,
            moves[x] as int,
            None,
            0,
        ));
    }
    assert(moves[0] == f);
    assert forall|k: int| 0 <= k < moves.len() implies #[trigger] moves[k] < n by {
        assert(model::legal(s, moves[k] as int));
    }
    lemma_all_there(s, moves, n);
}

proof fn lemma_all_there(s: Seq<int>, moves: Seq<u8>, n: int)
    requires
        0 <= n,
        forall|j: int|
            0 <= j < n && #[trigger] model::legal(s, j) ==> exists|k: int|
                0 <= k < moves.len() && #[trigger] moves[k] == j,
    ensures
        moves.len() >= mobility_below(s, n),
    decreases n,
{
    if n > 0 {
        if model::legal(s, n - 1) {
            let k = choose|k: int| 0 <= k < moves.len() && #[trigger] moves[k] == n - 1;
            let rest = moves.remove(k);
            assert forall|j: int| 0 <= j < n - 1 && #[trigger] model::legal(s, j) implies exists|
                x: int,
            | 0 <= x < rest.len() && #[trigger] rest[x] == j by {
                let y = choose|y: int| 0 <= y < moves.len() && #[trigger] moves[y] == j;
                let x = if y < k {
                    y
                } else {
                    y - 1
                };
                assert(rest[x] == j);
            }
            lemma_all_there(s, rest, n - 1);
        } else {
            lemma_all_there(s, moves, n - 1);
        }
    }
}

} // verus!
