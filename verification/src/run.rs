//! A search as a function of what it starts from.
//!
//! A search that does not watch the clock leaves nothing open: which nodes it visits,
//! whether its budget lasts, and what it has learned in the end all follow from the
//! position, its limits and what it had learned before. This module says how.

use vstd::prelude::*;

use crate::analysis;
use crate::board::{Player, Seat};
use crate::keys;
use crate::model;
use crate::searcher;
use crate::searcher::INF;
use crate::tt;
use crate::tt::{Flag, Probe};
use crate::value;
use crate::value::Setting;

verus! {

/// What a search does not change: what it goes by, its budget, and whether it has a
/// transposition table and how far that grows.
pub struct Course {
    pub setting: Setting,
    pub budget: int,
    pub caching: bool,
    pub limit: int,
}

/// What a search has learned: the slots of its transposition table, the cutoffs of each
/// side and pit, and the nodes that it visited.
pub struct Mind {
    pub slots: Seq<u128>,
    pub history: Seq<u32>,
    pub nodes: int,
}

impl Mind {
    /// One more node. (The count stops at its largest value.)
    pub open spec fn ticked(self) -> Mind {
        Mind {
            nodes: if self.nodes < u64::MAX {
                self.nodes + 1
            } else {
                self.nodes
            },
            ..self
        }
    }

    /// With another count of nodes.
    pub open spec fn at(self, nodes: int) -> Mind {
        Mind { nodes, ..self }
    }

    /// One more cutoff of pit `i` for `p`.
    pub open spec fn rewarded(self, p: Player, i: int) -> Mind {
        let k = searcher::side(p) + i;
        if self.history[k] < u32::MAX {
            Mind { history: self.history.update(k, (self.history[k] + 1) as u32), ..self }
        } else {
            self
        }
    }

    /// With an entry for `key`, whose value is clamped to its range.
    pub open spec fn noted(self, limit: int, key: u128, v: int, flag: Flag, best: int) -> Mind {
        Mind {
            slots: tt::slots_after(
                self.slots,
                limit,
                key,
                (Probe { value: clamped(v) as i16, flag, best: Some(best as usize) }),
            ),
            ..self
        }
    }
}

/// The value in the range of an entry that is nearest to `v`.
pub open spec fn clamped(v: int) -> int {
    if v < i16::MIN {
        i16::MIN as int
    } else if v > i16::MAX {
        i16::MAX as int
    } else {
        v
    }
}

/// What is known of a position before its moves are tried.
pub open spec fn recalled(co: Course, m: Mind, s: Seq<int>, depth: Option<int>) -> Option<Probe> {
    if co.caching {
        match keys::cache_key(s, depth) {
            Some(k) => tt::found(m.slots, k, 0),
            None => None,
        }
    } else {
        None
    }
}

/// The part of the window that a cached bound leaves open.
pub open spec fn narrowed(entry: Option<Probe>, base: int, alpha: int, beta: int) -> (int, int) {
    match entry {
        None => (alpha, beta),
        Some(e) => match e.flag {
            Flag::Exact => (alpha, beta),
            Flag::Lower => (
                if e.value + base > alpha {
                    e.value + base
                } else {
                    alpha
                },
                beta,
            ),
            Flag::Upper => (
                alpha,
                if e.value + base < beta {
                    e.value + base
                } else {
                    beta
                },
            ),
        },
    }
}

/// The move that a cached entry hints at.
pub open spec fn hinted(entry: Option<Probe>) -> Option<usize> {
    match entry {
        Some(e) => e.best,
        None => None,
    }
}

/// How the best of the values relates to that of the position.
pub open spec fn flag_of(best: int, alpha: int, high: int) -> Flag {
    if best <= alpha {
        Flag::Upper
    } else if best >= high {
        Flag::Lower
    } else {
        Flag::Exact
    }
}

/// The search has learned that the position has this best value and move.
pub open spec fn noting(
    co: Course,
    m: Mind,
    s: Seq<int>,
    depth: Option<int>,
    best: int,
    choice: int,
    alpha: int,
    high: int,
) -> Mind {
    if co.caching {
        match keys::cache_key(s, depth) {
            Some(k) => m.noted(
                co.limit,
                k,
                best - searcher::cache_base(s, depth),
                flag_of(best, alpha, high),
                choice,
            ),
            None => m,
        }
    } else {
        m
    }
}

/// What comes of the moves of a position when they are tried.
pub open spec fn weighed(
    co: Course,
    s: Seq<int>,
    depth: Option<int>,
    alpha: int,
    high: int,
    tried: Option<(Mind, int, int)>,
) -> Option<(Mind, int)> {
    match tried {
        None => None,
        Some((m, best, choice)) => Some(
            (noting(co, m, s, depth, best, choice, alpha, high), best),
        ),
    }
}

/// The score of pit `i`, given the cutoffs so far.
pub open spec fn score(at: Seat, hint: Option<usize>, history: Seq<u32>, i: int) -> int {
    searcher::move_score(at.pos, i, hint, history[searcher::side(at.mover) + i] as int)
}

/// Pit `i` is tried before pit `j`: it has the lower score, or the same and is the lower
/// pit.
pub open spec fn before(
    at: Seat,
    hint: Option<usize>,
    history: Seq<u32>,
    i: int,
    j: int,
) -> bool {
    score(at, hint, history, i) < score(at, hint, history, j) || (score(at, hint, history, i)
        == score(at, hint, history, j) && i < j)
}

/// Of the legal pits below `k` the one that is tried next after `last`.
pub open spec fn next_below(
    at: Seat,
    hint: Option<usize>,
    history: Seq<u32>,
    last: Option<int>,
    k: int,
) -> Option<int>
    decreases k,
{
    if k <= 0 {
        None
    } else {
        let rest = next_below(at, hint, history, last, k - 1);
        if model::legal(at.pos, k - 1) && (last matches Some(l) ==> before(
            at,
            hint,
            history,
            l,
            k - 1,
        )) && (rest matches Some(r) ==> before(at, hint, history, k - 1, r)) {
            Some(k - 1)
        } else {
            rest
        }
    }
}

/// The pit that is tried next after `last`.
pub open spec fn next_move(
    at: Seat,
    hint: Option<usize>,
    history: Seq<u32>,
    last: Option<int>,
) -> Option<int> {
    next_below(at, hint, history, last, model::pits(at.pos))
}

proof fn lemma_next_below(
    at: Seat,
    hint: Option<usize>,
    history: Seq<u32>,
    last: Option<int>,
    k: int,
)
    ensures
        next_below(at, hint, history, last, k) matches Some(r) ==> 0 <= r < k && model::legal(
            at.pos,
            r,
        ) && (last matches Some(l) ==> before(at, hint, history, l, r)),
        forall|j: int|
            0 <= j < k && #[trigger] model::legal(at.pos, j) && (last matches Some(l) ==> before(
                at,
                hint,
                history,
                l,
                j,
            )) ==> (next_below(at, hint, history, last, k) matches Some(r) && (r == j || before(
                at,
                hint,
                history,
                r,
                j,
            ))),
    decreases k,
{
    if k > 0 {
        lemma_next_below(at, hint, history, last, k - 1);
    }
}

/// The moves are listed in the order in which they are tried.
pub open spec fn in_order(
    at: Seat,
    hint: Option<usize>,
    history: Seq<u32>,
    moves: Seq<u8>,
) -> bool {
    forall|x: int, y: int|
        0 <= x < y < moves.len() ==> before(
            at,
            hint,
            history,
            #[trigger] moves[x] as int,
            #[trigger] moves[y] as int,
        )
}

/// Moves that are listed in order are tried in that order.
pub proof fn lemma_next_move(
    at: Seat,
    hint: Option<usize>,
    history: Seq<u32>,
    moves: Seq<u8>,
    k: int,
)
    requires
        0 <= k <= moves.len(),
        searcher::lists_moves(at.pos, moves),
        in_order(at, hint, history, moves),
    ensures
        next_move(at, hint, history, last_of(moves, k)) == if k < moves.len() {
            Some(moves[k] as int)
        } else {
            None
        },
{
    let last = last_of(moves, k);
    lemma_next_below(at, hint, history, last, model::pits(at.pos));
    let r = next_move(at, hint, history, last);
    if k < moves.len() {
        assert(model::legal(at.pos, moves[k] as int));
        if k > 0 {
            assert(before(at, hint, history, moves[k - 1] as int, moves[k] as int));
        }
    }
    if r is Some {
        assert(model::legal(at.pos, r->0));
        let x = choose|x: int| 0 <= x < moves.len() && #[trigger] moves[x] == r->0;
        if k > 0 {
            assert(before(at, hint, history, moves[k - 1] as int, moves[x] as int));
            if x < k - 1 {
                assert(before(at, hint, history, moves[x] as int, moves[k - 1] as int));
            }
        }
        assert(x >= k);
        if x > k {
            assert(before(at, hint, history, moves[k] as int, moves[x] as int));
        }
    }
}

// ---------------------------------------------------------------------------
// Quiescence
// ---------------------------------------------------------------------------

/// A quiescence search that has visited `nodes`: the nodes afterwards and the value, or
/// nothing if the budget runs out.
#[verifier::opaque]
pub open spec fn quiet_run(
    co: Course,
    nodes: int,
    s: Seq<int>,
    alpha: int,
    beta: int,
) -> Option<(int, int)>
    decreases model::in_play(s), model::weight(s), model::pits(s) + 1,
{
    let nodes = if nodes < u64::MAX {
        nodes + 1
    } else {
        nodes
    };
    let stand = value::estimate(s);
    if nodes > co.budget || !model::valid(s) {
        None
    } else if model::over(s) {
        Some((nodes, value::final_margin(s) * value::STORE_WEIGHT))
    } else {
        match (co.setting.oracle)(value::layout(s)) {
            Some(g) => Some((nodes, (model::lead(s) + g) * value::STORE_WEIGHT)),
            None => if stand >= beta {
                Some((nodes, stand))
            } else {
                quiet_moves(
                    co,
                    nodes,
                    s,
                    0,
                    if stand > alpha {
                        stand
                    } else {
                        alpha
                    },
                    beta,
                )
            },
        }
    }
}

/// The forcing moves from pit `i` on.
#[verifier::opaque]
pub open spec fn quiet_moves(
    co: Course,
    nodes: int,
    s: Seq<int>,
    i: int,
    low: int,
    beta: int,
) -> Option<(int, int)>
    decreases model::in_play(s), model::weight(s), model::pits(s) - i,
{
    if i < 0 || i >= model::pits(s) || !model::valid(s) {
        Some((nodes, low))
    } else if !value::forcing(co.setting.rules, s, i) {
        quiet_moves(co, nodes, s, i + 1, low, beta)
    } else {
        proof {
            model::lemma_after(co.setting.rules, s, i);
            model::lemma_bounds(s);
        }
        let t = model::after(co.setting.rules, s, i);
        let done = if model::extra_turn(s, i) {
            quiet_run(co, nodes, t, low, beta)
        } else {
            match quiet_run(co, nodes, t, -beta, -low) {
                Some((n, v)) => Some((n, -v)),
                None => None,
            }
        };
        match done {
            None => None,
            Some((n, v)) => if v >= beta {
                Some((n, v))
            } else {
                quiet_moves(
                    co,
                    n,
                    s,
                    i + 1,
                    if v > low {
                        v
                    } else {
                        low
                    },
                    beta,
                )
            },
        }
    }
}

// ---------------------------------------------------------------------------
// Search
// ---------------------------------------------------------------------------

/// A search of a position: what it has learned then and the value, or nothing if the
/// budget runs out.
#[verifier::opaque]
pub open spec fn run(
    co: Course,
    m: Mind,
    at: Seat,
    alpha: int,
    beta: int,
    depth: Option<int>,
) -> Option<(Mind, int)>
    decreases model::in_play(at.pos), model::weight(at.pos), 2int, 0int,
{
    let m = m.ticked();
    let s = at.pos;
    if m.nodes > co.budget || !model::valid(s) {
        None
    } else if model::over(s) {
        Some((m, value::scaled(value::final_margin(s), depth)))
    } else {
        match (co.setting.oracle)(value::layout(s)) {
            Some(g) => Some((m, value::scaled(model::lead(s) + g, depth))),
            None => if depth == Some(0int) {
                if co.setting.quiesce {
                    match quiet_run(co, m.nodes, s, alpha, beta) {
                        Some((n, v)) => Some((m.at(n), v)),
                        None => None,
                    }
                } else {
                    Some((m, value::estimate(s)))
                }
            } else {
                expand_run(co, m, at, alpha, beta, depth)
            },
        }
    }
}

/// A search of a position by its moves, unless what is cached for it decides.
#[verifier::opaque]
pub open spec fn expand_run(
    co: Course,
    m: Mind,
    at: Seat,
    alpha: int,
    beta: int,
    depth: Option<int>,
) -> Option<(Mind, int)>
    decreases model::in_play(at.pos), model::weight(at.pos), 1int, 0int,
{
    let s = at.pos;
    let entry = recalled(co, m, s, depth);
    let base = searcher::cache_base(s, depth);
    let (low, high) = narrowed(entry, base, alpha, beta);
    if entry matches Some(e) && (e.flag == Flag::Exact || low >= high) {
        Some((m, entry->0.value + base))
    } else {
        weighed(
            co,
            s,
            depth,
            alpha,
            high,
            moves_run(co, m, at, hinted(entry), m.history, depth, first_trial(low), high),
        )
    }
}

/// How far the moves of a position are tried: the last one and their number, what the
/// next has to beat, and the best value and its move.
pub struct Trial {
    pub last: Option<int>,
    pub tried: int,
    pub floor: int,
    pub best: int,
    pub choice: int,
}

/// Before any move is tried.
pub open spec fn first_trial(floor: int) -> Trial {
    Trial { last: None, tried: 0, floor, best: -INF as int, choice: 0 }
}

impl Trial {
    /// After pit `i`, whose search returned `v`.
    pub open spec fn after(self, i: int, v: int) -> Trial {
        let better = v > self.best || self.tried == 0;
        Trial {
            last: Some(i),
            tried: self.tried + 1,
            floor: if v > self.floor {
                v
            } else {
                self.floor
            },
            best: if better {
                v
            } else {
                self.best
            },
            choice: if better {
                i
            } else {
                self.choice
            },
        }
    }
}

/// The moves that are still to be tried, in the order that the cutoffs in `history` give
/// them.
#[verifier::opaque]
pub open spec fn moves_run(
    co: Course,
    m: Mind,
    at: Seat,
    hint: Option<usize>,
    history: Seq<u32>,
    depth: Option<int>,
    t: Trial,
    high: int,
) -> Option<(Mind, int, int)>
    decreases model::in_play(at.pos), model::weight(at.pos), 0int, model::pits(at.pos) - t.tried,
{
    let s = at.pos;
    match next_move(at, hint, history, t.last) {
        Some(i) => if model::valid(s) && model::legal(s, i) && t.tried < model::pits(s) {
            proof {
                model::lemma_after(co.setting.rules, s, i);
                model::lemma_bounds(s);
            }
            match child_run(
                co,
                m,
                at.moved(co.setting.rules, i),
                model::extra_turn(s, i),
                t.tried == 0,
                t.floor,
                high,
                value::deeper(depth),
            ) {
                None => None,
                Some((m, v)) => {
                    let u = t.after(i, v);
                    if u.floor >= high {
                        Some((m.rewarded(at.mover, i), u.best, u.choice))
                    } else {
                        moves_run(co, m, at, hint, history, depth, u, high)
                    }
                },
            }
        } else {
            Some((m, t.best, t.choice))
        },
        None => Some((m, t.best, t.choice)),
    }
}

/// The next move of a run, from the list of its moves.
pub proof fn lemma_moves_run(
    co: Course,
    m: Mind,
    at: Seat,
    hint: Option<usize>,
    history: Seq<u32>,
    depth: Option<int>,
    t: Trial,
    high: int,
    moves: Seq<u8>,
)
    requires
        model::valid(at.pos),
        searcher::lists_moves(at.pos, moves),
        in_order(at, hint, history, moves),
        0 <= t.tried <= moves.len() <= model::pits(at.pos),
        t.last == last_of(moves, t.tried),
    ensures
        moves_run(co, m, at, hint, history, depth, t, high) == if t.tried < moves.len() {
            let i = moves[t.tried] as int;
            match child_run(
                co,
                m,
                at.moved(co.setting.rules, i),
                model::extra_turn(at.pos, i),
                t.tried == 0,
                t.floor,
                high,
                value::deeper(depth),
            ) {
                None => None,
                Some((m, v)) => {
                    let u = t.after(i, v);
                    if u.floor >= high {
                        Some((m.rewarded(at.mover, i), u.best, u.choice))
                    } else {
                        moves_run(co, m, at, hint, history, depth, u, high)
                    }
                },
            }
        } else {
            Some((m, t.best, t.choice))
        },
{
    reveal(run);
    reveal(expand_run);
    reveal(moves_run);
    reveal(turned_run);
    reveal(child_run);
    lemma_next_move(at, hint, history, moves, t.tried);
    if t.tried < moves.len() {
        assert(model::legal(at.pos, moves[t.tried] as int));
    }
}

/// A search of the position that a move leads to, for the player who moved.
#[verifier::opaque]
pub open spec fn turned_run(
    co: Course,
    m: Mind,
    child: Seat,
    extra_turn: bool,
    alpha: int,
    beta: int,
    depth: Option<int>,
) -> Option<(Mind, int)>
    decreases model::in_play(child.pos), model::weight(child.pos), 3int, 0int,
{
    if extra_turn {
        run(co, m, child, alpha, beta, depth)
    } else {
        match run(co, m, child, -beta, -alpha, depth) {
            Some((m, v)) => Some((m, -v)),
            None => None,
        }
    }
}

/// The search of a move: the first with the whole window, another with a null window
/// first.
#[verifier::opaque]
pub open spec fn child_run(
    co: Course,
    m: Mind,
    child: Seat,
    extra_turn: bool,
    first: bool,
    alpha: int,
    beta: int,
    depth: Option<int>,
) -> Option<(Mind, int)>
    decreases model::in_play(child.pos), model::weight(child.pos), 4int, 0int,
{
    if first {
        turned_run(co, m, child, extra_turn, alpha, beta, depth)
    } else {
        match turned_run(co, m, child, extra_turn, alpha, alpha + 1, depth) {
            None => None,
            Some((m, v)) => if v <= alpha || v >= beta {
                Some((m, v))
            } else {
                turned_run(co, m, child, extra_turn, alpha, beta, depth)
            },
        }
    }
}

/// A search, step by step.
pub proof fn lemma_run(
    co: Course,
    m: Mind,
    at: Seat,
    alpha: int,
    beta: int,
    depth: Option<int>,
)
    ensures
        run(co, m, at, alpha, beta, depth) == ({
            let m = m.ticked();
            let s = at.pos;
            if m.nodes > co.budget || !model::valid(s) {
                None
            } else if model::over(s) {
                Some((m, value::scaled(value::final_margin(s), depth)))
            } else {
                match (co.setting.oracle)(value::layout(s)) {
                    Some(g) => Some((m, value::scaled(model::lead(s) + g, depth))),
                    None => if depth == Some(0int) {
                        if co.setting.quiesce {
                            match quiet_run(co, m.nodes, s, alpha, beta) {
                                Some((n, v)) => Some((m.at(n), v)),
                                None => None,
                            }
                        } else {
                            Some((m, value::estimate(s)))
                        }
                    } else {
                        expand_run(co, m, at, alpha, beta, depth)
                    },
                }
            }
        }),
{
    reveal(run);
    reveal(expand_run);
    reveal(moves_run);
    reveal(turned_run);
    reveal(child_run);
}

/// A search of a position by its moves, step by step.
pub proof fn lemma_expand_run(
    co: Course,
    m: Mind,
    at: Seat,
    alpha: int,
    beta: int,
    depth: Option<int>,
)
    ensures
        expand_run(co, m, at, alpha, beta, depth) == ({
            let s = at.pos;
            let entry = recalled(co, m, s, depth);
            let base = searcher::cache_base(s, depth);
            let (low, high) = narrowed(entry, base, alpha, beta);
            if entry matches Some(e) && (e.flag == Flag::Exact || low >= high) {
                Some((m, entry->0.value + base))
            } else {
                weighed(
                    co,
                    s,
                    depth,
                    alpha,
                    high,
                    moves_run(co, m, at, hinted(entry), m.history, depth, first_trial(low), high),
                )
            }
        }),
{
    reveal(run);
    reveal(expand_run);
    reveal(moves_run);
    reveal(turned_run);
    reveal(child_run);
}

/// A search for the player who moved, step by step.
pub proof fn lemma_turned_run(
    co: Course,
    m: Mind,
    child: Seat,
    extra_turn: bool,
    alpha: int,
    beta: int,
    depth: Option<int>,
)
    ensures
        turned_run(co, m, child, extra_turn, alpha, beta, depth) == ({
            if extra_turn {
                run(co, m, child, alpha, beta, depth)
            } else {
                match run(co, m, child, -beta, -alpha, depth) {
                    Some((m, v)) => Some((m, -v)),
                    None => None,
                }
            }
        }),
{
    reveal(run);
    reveal(expand_run);
    reveal(moves_run);
    reveal(turned_run);
    reveal(child_run);
}

/// The search of a move, step by step.
pub proof fn lemma_child_run(
    co: Course,
    m: Mind,
    child: Seat,
    extra_turn: bool,
    first: bool,
    alpha: int,
    beta: int,
    depth: Option<int>,
)
    ensures
        child_run(co, m, child, extra_turn, first, alpha, beta, depth) == ({
            if first {
                turned_run(co, m, child, extra_turn, alpha, beta, depth)
            } else {
                match turned_run(co, m, child, extra_turn, alpha, alpha + 1, depth) {
                    None => None,
                    Some((m, v)) => if v <= alpha || v >= beta {
                        Some((m, v))
                    } else {
                        turned_run(co, m, child, extra_turn, alpha, beta, depth)
                    },
                }
            }
        }),
{
    reveal(run);
    reveal(expand_run);
    reveal(moves_run);
    reveal(turned_run);
    reveal(child_run);
}

/// An analysis of a position, from the move after `last` on: what it has learned in the
/// end, or nothing if the budget runs out, and the best value and its move as far as it
/// came.
#[verifier::opaque]
pub open spec fn root_run(
    co: Course,
    m: Mind,
    at: Seat,
    history: Seq<u32>,
    depth: Option<int>,
    last: Option<int>,
    tried: int,
    best: Option<(int, int)>,
) -> (Option<Mind>, Option<(int, int)>)
    decreases model::pits(at.pos) - tried,
{
    match next_move(at, None, history, last) {
        Some(i) => if tried < model::pits(at.pos) {
            match turned_run(
                co,
                m,
                at.moved(co.setting.rules, i),
                model::extra_turn(at.pos, i),
                floor_of(best),
                INF as int,
                value::deeper(depth),
            ) {
                None => (None, best),
                Some((m, v)) => root_run(
                    co,
                    m,
                    at,
                    history,
                    depth,
                    Some(i),
                    tried + 1,
                    bettered(best, v, i),
                ),
            }
        } else {
            (Some(m), best)
        },
        None => (Some(m), best),
    }
}

/// What the next move has to beat.
pub open spec fn floor_of(best: Option<(int, int)>) -> int {
    match best {
        Some((v, _)) => v,
        None => -INF as int,
    }
}

/// The best value and its move after pit `i`, whose search returned `v`.
pub open spec fn bettered(best: Option<(int, int)>, v: int, i: int) -> Option<(int, int)> {
    match best {
        None => Some((v, i)),
        Some((w, _)) => if v > w {
            Some((v, i))
        } else {
            best
        },
    }
}

/// The next move of an analysis, from the list of its moves.
pub proof fn lemma_root_run(
    co: Course,
    m: Mind,
    at: Seat,
    history: Seq<u32>,
    depth: Option<int>,
    tried: int,
    best: Option<(int, int)>,
    moves: Seq<u8>,
)
    requires
        searcher::lists_moves(at.pos, moves),
        in_order(at, None, history, moves),
        0 <= tried <= moves.len() <= model::pits(at.pos),
    ensures
        root_run(co, m, at, history, depth, last_of(moves, tried), tried, best) == if tried
            < moves.len() {
            let i = moves[tried] as int;
            match turned_run(
                co,
                m,
                at.moved(co.setting.rules, i),
                model::extra_turn(at.pos, i),
                floor_of(best),
                INF as int,
                value::deeper(depth),
            ) {
                None => (None, best),
                Some((m, v)) => root_run(
                    co,
                    m,
                    at,
                    history,
                    depth,
                    last_of(moves, tried + 1),
                    tried + 1,
                    bettered(best, v, i),
                ),
            }
        } else {
            (Some(m), best)
        },
{
    reveal(root_run);
    lemma_next_move(at, None, history, moves, tried);
}

/// The last of the first `k` moves.
pub open spec fn last_of(moves: Seq<u8>, k: int) -> Option<int> {
    if k <= 0 {
        None
    } else {
        Some(moves[k - 1] as int)
    }
}

/// An analysis of a position: what it has learned in the end, or nothing if the budget
/// runs out, and the best value and its move as far as it came.
pub open spec fn analysis_run(co: Course, m: Mind, at: Seat, depth: Option<int>) -> (
    Option<Mind>,
    Option<(int, int)>,
) {
    if model::over(at.pos) {
        (Some(m), None)
    } else {
        root_run(co, m, at, m.history, depth, None, 0, None)
    }
}

/// The deepest iteration of an iteratively deepening search.
pub const MAX_ITERATION: u32 = 64;

/// How far an iteratively deepening search came: the depth of an iteration, the best value
/// and its move, and what the search had learned after it, if it was not cut short.
pub struct Reached {
    pub depth: int,
    pub best: (int, int),
    pub mind: Option<Mind>,
}

/// An iteratively deepening search from depth `d` on, given how far it came before: to the
/// deepest iteration that the budget lasts for. A first iteration that the budget does not
/// last for is kept, if it has evaluated a move.
#[verifier::opaque]
pub open spec fn deepen_run(
    co: Course,
    m: Mind,
    at: Seat,
    d: int,
    kept: Option<Reached>,
) -> Option<Reached>
    decreases MAX_ITERATION + 1 - d,
{
    if d > MAX_ITERATION {
        kept
    } else {
        match analysis_run(co, m, at, Some(d)) {
            (Some(m), Some(best)) => deepen_run(
                co,
                m,
                at,
                d + 1,
                Some(Reached { depth: d, best, mind: Some(m) }),
            ),
            (None, Some(best)) => if kept is None {
                Some(Reached { depth: d, best, mind: None })
            } else {
                kept
            },
            (_, None) => kept,
        }
    }
}

// ---------------------------------------------------------------------------
// Budgets
// ---------------------------------------------------------------------------

impl Course {
    /// With another budget.
    pub open spec fn within(self, budget: int) -> Course {
        Course { budget, ..self }
    }
}

/// A quiescence search that is within its budget goes the same way within every budget
/// that its nodes are within.
proof fn lemma_quiet_budget(
    co: Course,
    nodes: int,
    s: Seq<int>,
    alpha: int,
    beta: int,
    budget: int,
)
    ensures
        quiet_run(co, nodes, s, alpha, beta) matches Some((n, v)) ==> nodes <= n && (n <= budget
            ==> quiet_run(co.within(budget), nodes, s, alpha, beta) == Some((n, v))),
    decreases model::in_play(s), model::weight(s), model::pits(s) + 1,
{
    reveal(quiet_run);
    reveal(quiet_moves);
    let next = if nodes < u64::MAX {
        nodes + 1
    } else {
        nodes
    };
    let stand = value::estimate(s);
    if next <= co.budget && model::valid(s) && !model::over(s) && (co.setting.oracle)(
        value::layout(s),
    ) is None && stand < beta {
        let low = if stand > alpha {
            stand
        } else {
            alpha
        };
        lemma_quiet_moves_budget(co, next, s, 0, low, beta, budget);
    }
}

proof fn lemma_quiet_moves_budget(
    co: Course,
    nodes: int,
    s: Seq<int>,
    i: int,
    low: int,
    beta: int,
    budget: int,
)
    ensures
        quiet_moves(co, nodes, s, i, low, beta) matches Some((n, v)) ==> nodes <= n && (n <= budget
            ==> quiet_moves(co.within(budget), nodes, s, i, low, beta) == Some((n, v))),
    decreases model::in_play(s), model::weight(s), model::pits(s) - i,
{
    reveal(quiet_run);
    reveal(quiet_moves);
    if 0 <= i < model::pits(s) && model::valid(s) {
        if !value::forcing(co.setting.rules, s, i) {
            lemma_quiet_moves_budget(co, nodes, s, i + 1, low, beta, budget);
        } else {
            model::lemma_after(co.setting.rules, s, i);
            model::lemma_bounds(s);
            let t = model::after(co.setting.rules, s, i);
            let done = if model::extra_turn(s, i) {
                lemma_quiet_budget(co, nodes, t, low, beta, budget);
                quiet_run(co, nodes, t, low, beta)
            } else {
                lemma_quiet_budget(co, nodes, t, -beta, -low, budget);
                match quiet_run(co, nodes, t, -beta, -low) {
                    Some((n, v)) => Some((n, -v)),
                    None => None,
                }
            };
            if let Some((n, v)) = done {
                if v < beta {
                    let next = if v > low {
                        v
                    } else {
                        low
                    };
                    lemma_quiet_moves_budget(co, n, s, i + 1, next, beta, budget);
                }
            }
        }
    }
}

/// A search that is within its budget goes the same way within every budget that its
/// nodes are within.
pub proof fn lemma_budget(
    co: Course,
    m: Mind,
    at: Seat,
    alpha: int,
    beta: int,
    depth: Option<int>,
    budget: int,
)
    ensures
        run(co, m, at, alpha, beta, depth) matches Some((n, v)) ==> m.nodes <= n.nodes && (n.nodes
            <= budget ==> run(co.within(budget), m, at, alpha, beta, depth) == Some((n, v))),
    decreases model::in_play(at.pos), model::weight(at.pos), 2int, 0int,
{
    lemma_run(co, m, at, alpha, beta, depth);
    lemma_run(co.within(budget), m, at, alpha, beta, depth);
    let next = m.ticked();
    if next.nodes <= co.budget && model::valid(at.pos) && !model::over(at.pos) && (
    co.setting.oracle)(value::layout(at.pos)) is None {
        if depth == Some(0int) {
            lemma_quiet_budget(co, next.nodes, at.pos, alpha, beta, budget);
        } else {
            lemma_expand_budget(co, next, at, alpha, beta, depth, budget);
        }
    }
}

proof fn lemma_expand_budget(
    co: Course,
    m: Mind,
    at: Seat,
    alpha: int,
    beta: int,
    depth: Option<int>,
    budget: int,
)
    ensures
        expand_run(co, m, at, alpha, beta, depth) matches Some((n, v)) ==> m.nodes <= n.nodes && (
        n.nodes <= budget ==> expand_run(co.within(budget), m, at, alpha, beta, depth) == Some(
            (n, v),
        )),
    decreases model::in_play(at.pos), model::weight(at.pos), 1int, 0int,
{
    lemma_expand_run(co, m, at, alpha, beta, depth);
    lemma_expand_run(co.within(budget), m, at, alpha, beta, depth);
    let entry = recalled(co, m, at.pos, depth);
    let base = searcher::cache_base(at.pos, depth);
    let (low, high) = narrowed(entry, base, alpha, beta);
    lemma_moves_budget(
        co,
        m,
        at,
        hinted(entry),
        m.history,
        depth,
        first_trial(low),
        high,
        budget,
    );
}

proof fn lemma_moves_budget(
    co: Course,
    m: Mind,
    at: Seat,
    hint: Option<usize>,
    history: Seq<u32>,
    depth: Option<int>,
    t: Trial,
    high: int,
    budget: int,
)
    ensures
        moves_run(co, m, at, hint, history, depth, t, high) matches Some((n, v, i)) ==> m.nodes
            <= n.nodes && (n.nodes <= budget ==> moves_run(
            co.within(budget),
            m,
            at,
            hint,
            history,
            depth,
            t,
            high,
        ) == Some((n, v, i))),
    decreases model::in_play(at.pos), model::weight(at.pos), 0int, model::pits(at.pos) - t.tried,
{
    reveal(run);
    reveal(expand_run);
    reveal(moves_run);
    reveal(turned_run);
    reveal(child_run);
    let s = at.pos;
    if let Some(i) = next_move(at, hint, history, t.last) {
        if model::valid(s) && model::legal(s, i) && t.tried < model::pits(s) {
            model::lemma_after(co.setting.rules, s, i);
            model::lemma_bounds(s);
            let child = at.moved(co.setting.rules, i);
            let extra_turn = model::extra_turn(s, i);
            lemma_child_budget(
                co,
                m,
                child,
                extra_turn,
                t.tried == 0,
                t.floor,
                high,
                value::deeper(depth),
                budget,
            );
            if let Some((n, v)) = child_run(
                co,
                m,
                child,
                extra_turn,
                t.tried == 0,
                t.floor,
                high,
                value::deeper(depth),
            ) {
                let u = t.after(i, v);
                if u.floor < high {
                    lemma_moves_budget(co, n, at, hint, history, depth, u, high, budget);
                }
            }
        }
    }
}

proof fn lemma_turned_budget(
    co: Course,
    m: Mind,
    child: Seat,
    extra_turn: bool,
    alpha: int,
    beta: int,
    depth: Option<int>,
    budget: int,
)
    ensures
        turned_run(co, m, child, extra_turn, alpha, beta, depth) matches Some((n, v)) ==> m.nodes
            <= n.nodes && (n.nodes <= budget ==> turned_run(
            co.within(budget),
            m,
            child,
            extra_turn,
            alpha,
            beta,
            depth,
        ) == Some((n, v))),
    decreases model::in_play(child.pos), model::weight(child.pos), 3int, 0int,
{
    lemma_turned_run(co, m, child, extra_turn, alpha, beta, depth);
    lemma_turned_run(co.within(budget), m, child, extra_turn, alpha, beta, depth);
    if extra_turn {
        lemma_budget(co, m, child, alpha, beta, depth, budget);
    } else {
        lemma_budget(co, m, child, -beta, -alpha, depth, budget);
    }
}

proof fn lemma_child_budget(
    co: Course,
    m: Mind,
    child: Seat,
    extra_turn: bool,
    first: bool,
    alpha: int,
    beta: int,
    depth: Option<int>,
    budget: int,
)
    ensures
        child_run(co, m, child, extra_turn, first, alpha, beta, depth) matches Some((n, v))
            ==> m.nodes <= n.nodes && (n.nodes <= budget ==> child_run(
            co.within(budget),
            m,
            child,
            extra_turn,
            first,
            alpha,
            beta,
            depth,
        ) == Some((n, v))),
    decreases model::in_play(child.pos), model::weight(child.pos), 4int, 0int,
{
    lemma_child_run(co, m, child, extra_turn, first, alpha, beta, depth);
    lemma_child_run(co.within(budget), m, child, extra_turn, first, alpha, beta, depth);
    if first {
        lemma_turned_budget(co, m, child, extra_turn, alpha, beta, depth, budget);
    } else {
        lemma_turned_budget(co, m, child, extra_turn, alpha, alpha + 1, depth, budget);
        if let Some((n, v)) = turned_run(co, m, child, extra_turn, alpha, alpha + 1, depth) {
            lemma_turned_budget(co, n, child, extra_turn, alpha, beta, depth, budget);
        }
    }
}

proof fn lemma_root_budget(
    co: Course,
    m: Mind,
    at: Seat,
    history: Seq<u32>,
    depth: Option<int>,
    last: Option<int>,
    tried: int,
    best: Option<(int, int)>,
    budget: int,
)
    ensures
        root_run(co, m, at, history, depth, last, tried, best).0 matches Some(n) ==> m.nodes
            <= n.nodes && (n.nodes <= budget ==> root_run(
            co.within(budget),
            m,
            at,
            history,
            depth,
            last,
            tried,
            best,
        ) == root_run(co, m, at, history, depth, last, tried, best)),
    decreases model::pits(at.pos) - tried,
{
    reveal(root_run);
    if let Some(i) = next_move(at, None, history, last) {
        if tried < model::pits(at.pos) {
            let child = at.moved(co.setting.rules, i);
            let extra_turn = model::extra_turn(at.pos, i);
            lemma_turned_budget(
                co,
                m,
                child,
                extra_turn,
                floor_of(best),
                INF as int,
                value::deeper(depth),
                budget,
            );
            if let Some((n, v)) = turned_run(
                co,
                m,
                child,
                extra_turn,
                floor_of(best),
                INF as int,
                value::deeper(depth),
            ) {
                lemma_root_budget(
                    co,
                    n,
                    at,
                    history,
                    depth,
                    Some(i),
                    tried + 1,
                    bettered(best, v, i),
                    budget,
                );
            }
        }
    }
}

/// An analysis that is within its budget goes the same way within every budget that its
/// nodes are within.
pub proof fn lemma_analysis_budget(
    co: Course,
    m: Mind,
    at: Seat,
    depth: Option<int>,
    budget: int,
)
    ensures
        analysis_run(co, m, at, depth).0 matches Some(n) ==> m.nodes <= n.nodes && (n.nodes
            <= budget ==> analysis_run(co.within(budget), m, at, depth) == analysis_run(
            co,
            m,
            at,
            depth,
        )),
{
    if !model::over(at.pos) {
        lemma_root_budget(co, m, at, m.history, depth, None, 0, None, budget);
    }
}

// ---------------------------------------------------------------------------
// Lines
// ---------------------------------------------------------------------------

/// The transposition table has no best move for a position with `depth` left: no exact
/// entry, and no lower bound that is the value of the position.
pub open spec fn lacks(co: Course, slots: Seq<u128>, s: Seq<int>, depth: Option<int>) -> bool {
    !co.caching || match keys::cache_key(s, depth) {
        None => true,
        Some(k) => match tt::found(slots, k, 0) {
            None => true,
            Some(p) => match p.flag {
                Flag::Exact => false,
                Flag::Lower => co.setting.modest() ==> p.value + searcher::cache_base(s, depth)
                    < value::search_value(co.setting, s, depth),
                Flag::Upper => true,
            },
        },
    }
}

/// A line ends where it has to: at the end of the game or of the depth, at its longest, or
/// where the transposition table has no best move.
pub open spec fn line_ends(
    co: Course,
    slots: Seq<u128>,
    s: Seq<int>,
    depth: Option<int>,
    line: Seq<usize>,
    cap: int,
) -> bool {
    let end = analysis::line_end(co.setting.rules, s, line);
    let left = analysis::depth_after(depth, line.len() as int);
    ||| model::over(end)
    ||| left == Some(0int)
    ||| line.len() == cap
    ||| lacks(co, slots, end, left)
}

// ---------------------------------------------------------------------------
// Laws of runs
// ---------------------------------------------------------------------------

/// Every search counts its position as a node, and gives up once the budget is used up. Of a
/// position that is over it returns the final margin, and of one that is known what is known
/// of it, in seeds if it goes to the end of the game and in scores of 100 for a seed
/// otherwise; at the horizon it returns the estimate, unless it goes on to quiescence.
pub proof fn lemma_first_node(
    co: Course,
    m: Mind,
    at: Seat,
    alpha: int,
    beta: int,
    depth: Option<int>,
)
    requires
        model::valid(at.pos),
        m.nodes < u64::MAX,
    ensures
        ({
            let s = at.pos;
            let known = (co.setting.oracle)(value::layout(s));
            let done = run(co, m, at, alpha, beta, depth);
            let scale: int = if depth is None {
                1
            } else {
                100
            };
            let one = Mind { nodes: m.nodes + 1, ..m };
            &&& m.nodes >= co.budget ==> done is None
            &&& m.nodes < co.budget && model::over(s) ==> done == Some(
                (one, scale * value::final_margin(s)),
            )
            &&& m.nodes < co.budget && !model::over(s) && known is Some ==> done == Some(
                (one, scale * (model::lead(s) + known->0)),
            )
            &&& m.nodes < co.budget && !model::over(s) && known is None && depth == Some(0int)
                && !co.setting.quiesce ==> done == Some((one, value::estimate(s)))
        }),
{
    reveal(run);
}

/// A position that is cached with its exact value costs one node: its moves are not tried.
pub proof fn lemma_cached_node(
    co: Course,
    m: Mind,
    at: Seat,
    alpha: int,
    beta: int,
    depth: Option<int>,
    key: u128,
    p: Probe,
)
    requires
        model::valid(at.pos),
        !model::over(at.pos),
        (co.setting.oracle)(value::layout(at.pos)) is None,
        depth != Some(0int),
        m.nodes < u64::MAX,
        m.nodes < co.budget,
        co.caching,
        keys::cache_key(at.pos, depth) == Some(key),
        tt::found(m.slots, key, 0) == Some(p),
        p.flag is Exact,
    ensures
        run(co, m, at, alpha, beta, depth) == Some(
            (
                Mind { nodes: m.nodes + 1, ..m },
                p.value + if depth is None {
                    model::lead(at.pos)
                } else {
                    0
                },
            ),
        ),
{
    reveal(run);
    reveal(expand_run);
}

/// A quiescence search counts each position that it looks at as a node, and stays within the
/// budget. It returns the final margin where the game is over, what is known of a position
/// that is known, and the estimate where that is enough for a cutoff.
pub proof fn lemma_quiet_node(co: Course, nodes: int, s: Seq<int>, alpha: int, beta: int)
    requires
        model::valid(s),
        nodes < u64::MAX,
    ensures
        ({
            let known = (co.setting.oracle)(value::layout(s));
            let done = quiet_run(co, nodes, s, alpha, beta);
            &&& nodes >= co.budget ==> done is None
            &&& nodes < co.budget && model::over(s) ==> done == Some(
                (nodes + 1, 100 * value::final_margin(s)),
            )
            &&& nodes < co.budget && !model::over(s) && known is Some ==> done == Some(
                (nodes + 1, 100 * (model::lead(s) + known->0)),
            )
            &&& nodes < co.budget && !model::over(s) && known is None && value::estimate(s) >= beta
                ==> done == Some((nodes + 1, value::estimate(s)))
            &&& done matches Some((n, v)) ==> nodes < n
        }),
{
    reveal(quiet_run);
    reveal(quiet_moves);
    if quiet_run(co, nodes, s, alpha, beta) is Some {
        lemma_quiet_forward(co, nodes + 1, s, 0, if value::estimate(s) > alpha {
            value::estimate(s)
        } else {
            alpha
        }, beta);
    }
}

/// The forcing moves only add to the nodes.
proof fn lemma_quiet_forward(co: Course, nodes: int, s: Seq<int>, i: int, low: int, beta: int)
    ensures
        quiet_moves(co, nodes, s, i, low, beta) matches Some((n, v)) ==> nodes <= n,
    decreases model::in_play(s), model::weight(s), model::pits(s) - i,
{
    reveal(quiet_run);
    reveal(quiet_moves);
    if i < 0 || i >= model::pits(s) || !model::valid(s) {
    } else if !value::forcing(co.setting.rules, s, i) {
        lemma_quiet_forward(co, nodes, s, i + 1, low, beta);
    } else {
        model::lemma_after(co.setting.rules, s, i);
        model::lemma_bounds(s);
        let t = model::after(co.setting.rules, s, i);
        let (a, b) = if model::extra_turn(s, i) {
            (low, beta)
        } else {
            (-beta, -low)
        };
        if quiet_run(co, nodes, t, a, b) is Some {
            let first = if nodes < u64::MAX {
                nodes + 1
            } else {
                nodes
            };
            lemma_quiet_forward(co, first, t, 0, if value::estimate(t) > a {
                value::estimate(t)
            } else {
                a
            }, b);
            let (n, w) = quiet_run(co, nodes, t, a, b)->0;
            let v = if model::extra_turn(s, i) {
                w
            } else {
                -w
            };
            lemma_quiet_forward(co, n, s, i + 1, if v > low {
                v
            } else {
                low
            }, beta);
        }
    }
}

/// An iteratively deepening search goes no deeper than 64 plies, and never falls behind what
/// it had. Only its first iteration is kept though it was cut short.
pub proof fn lemma_deepening(co: Course, m: Mind, at: Seat, d: int, kept: Option<Reached>)
    requires
        1 <= d,
        kept matches Some(k) ==> k.depth < d && k.mind is Some,
    ensures
        deepen_run(co, m, at, d, kept) matches Some(r) ==> {
            &&& r.depth <= 64 || kept == Some(r)
            &&& kept matches Some(k) ==> r.depth >= k.depth && r.mind is Some
            &&& r.mind is None ==> r.depth == d
        },
        kept is Some ==> deepen_run(co, m, at, d, kept) is Some,
    decreases MAX_ITERATION + 1 - d,
{
    reveal(deepen_run);
    if d <= MAX_ITERATION {
        let (done, best) = analysis_run(co, m, at, Some(d));
        if done is Some && best is Some {
            lemma_deepening(
                co,
                done->0,
                at,
                d + 1,
                Some(Reached { depth: d, best: best->0, mind: done }),
            );
        }
    }
}

/// What a search takes note of: a value as it is if it fits into an entry, and otherwise the
/// nearest that does; as exact if it lies inside the window, as an upper bound if no move
/// reached the window, and as a lower bound if one went beyond it.
pub proof fn lemma_notes(v: int, best: int, alpha: int, high: int)
    ensures
        -32768 <= clamped(v) <= 32767,
        -32768 <= v <= 32767 ==> clamped(v) == v,
        v < -32768 ==> clamped(v) == -32768,
        v > 32767 ==> clamped(v) == 32767,
        alpha < best < high <==> flag_of(best, alpha, high) is Exact,
        best <= alpha <==> flag_of(best, alpha, high) is Upper,
        best > alpha && best >= high <==> flag_of(best, alpha, high) is Lower,
{
}

/// A cutoff is credited to the pit that caused it, for the player who played it, and to no
/// other; the count stops at its largest value.
pub proof fn lemma_reward(m: Mind, p: Player, i: int, k: int)
    requires
        m.history.len() == 30,
        0 <= i < 15,
        0 <= k < 30,
    ensures
        ({
            let mine = match p {
                Player::P0 => i,
                Player::P1 => 15 + i,
            };
            let now = m.rewarded(p, i);
            &&& now.slots == m.slots && now.nodes == m.nodes
            &&& k != mine ==> now.history[k] == m.history[k]
            &&& m.history[mine] < u32::MAX ==> now.history[mine] == m.history[mine] + 1
            &&& m.history[mine] == u32::MAX ==> now.history[mine] == u32::MAX
        }),
{
}

} // verus!
