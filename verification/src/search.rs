//! The alpha-beta search.
//!
//! # Negamax with extra turns
//!
//! Mancala grants an extra turn when the last seed lands in your own store. The
//! search is a negamax that flips the sign only when the turn actually passes to
//! the opponent; an extra-turn move keeps the same perspective and the same
//! alpha-beta window, because it is the *same* player continuing to maximize.
//!
//! Exact values are measured in seeds (the final score margin from the side to
//! move). Values of a search to a depth are in hundredths of a seed. What they are
//! is said by [`value::search_value`].

use vstd::prelude::*;

use crate::board::{Board, MAX_PITS, MAX_SEEDS};
use crate::effort;
use crate::keys;
use crate::model;
use crate::run;
use crate::run::Mind;
use crate::searcher;
use crate::searcher::{Searcher, INF};
use crate::tt::{Flag, Probe};
use crate::value;
use crate::value::{Setting, STORE_WEIGHT};

verus! {

/// The result `r` of a search with the window from `alpha` to `beta` tells what it
/// should of the value `v`: inside the window it is the value, at its low end and
/// below it bounds the value from above, at its high end and above it bounds the
/// value from below.
pub open spec fn judged(r: int, v: int, alpha: int, beta: int) -> bool {
    &&& r <= alpha ==> v <= r
    &&& r >= beta ==> v >= r
    &&& alpha < r < beta ==> v == r
}

impl<'a> Searcher<'a> {
    /// Quiescence search: at the horizon, instead of trusting the estimate in the
    /// middle of a tactical sequence, keep searching the **forcing** moves (extra
    /// turns and captures) until the position is quiet. Both kinds strictly reduce
    /// the seeds in play, so this terminates. Quiet moves are not searched (the
    /// estimate is taken as a stand-pat floor).
    #[verifier::rlimit(40)]
    fn quiesce(&mut self, b: &Board, alpha: i32, beta: i32) -> (r: i32)
        requires
            old(self).wf(),
            !old(self).stopped(),
            b.pits() == old(self).terms().pits,
            -INF <= alpha < beta <= INF,
        ensures
            final(self).wf(),
            final(self).terms() == old(self).terms(),
            old(self).visited() <= final(self).visited(),
            final(self).visited() - old(self).visited() <= value::quiet_visits(
                old(self).terms().setting(),
                b.pos(),
            ),
            final(self).stopped() ==> old(self).terms().timed || final(self).visited() > old(
                self,
            ).terms().budget,
            !final(self).stopped() ==> judged(
                r as int,
                value::quiet_value(old(self).terms().setting(), b.pos()),
                alpha as int,
                beta as int,
            ),
            -INF < r < INF,
            final(self).mind() == old(self).mind().at(final(self).mind().nodes),
            !old(self).terms().timed ==> match run::quiet_run(
                old(self).terms().course(),
                old(self).mind().nodes,
                b.pos(),
                alpha as int,
                beta as int,
            ) {
                Some((n, v)) => !final(self).stopped() && r == v && final(self).mind().nodes == n,
                None => final(self).stopped(),
            },
        decreases model::in_play(b.pos()), model::weight(b.pos()),
    {
        let ghost terms = self.terms();
        let ghost c = terms.setting();
        let ghost s = b.pos();
        let ghost start = self.visited();
        let ghost first = self.mind();
        let ghost co = terms.course();
        let ghost goal = run::quiet_run(co, first.nodes, s, alpha as int, beta as int);
        proof {
            use_type_invariant(b);
            b.lemma_seen();
            model::lemma_bounds(s);
            value::lemma_quiet_positive(c, s);
            reveal(run::quiet_run);
            reveal(run::quiet_moves);
        }
        if !self.tick() {
            return 0;
        }
        if b.is_terminal() {
            return b.terminal_margin(b.turn()) * STORE_WEIGHT;
        }
        if let Some(v) = self.resolved(b, true) {
            return v;
        }
        let stand = Self::heuristic(b);
        proof {
            value::lemma_quiet_value_is_best(c, s);
        }
        if stand >= beta {
            return stand;
        }
        let mut low: i32 = if stand > alpha {
            stand
        } else {
            alpha
        };
        let p = b.turn();
        let n = b.pits_per_side();
        let mut i: usize = 0;
        while i < n
            invariant
                self.wf(),
                !self.stopped(),
                self.terms() == terms,
                c == terms.setting(),
                old(self).terms() == terms,
                b.pits() == terms.pits,
                b.wf(),
                n == b.pits(),
                n == model::pits(s),
                i <= n,
                s == b.pos(),
                p == b.mover(),
                model::valid(s),
                !model::over(s),
                old(self).visited() == start,
                start <= self.visited(),
                self.visited() - start <= 1 + value::quiet_moves(c, s, i as int),
                co == terms.course(),
                first == old(self).mind(),
                goal == run::quiet_run(co, first.nodes, s, alpha as int, beta as int),
                self.mind() == first.at(self.mind().nodes),
                !terms.timed ==> goal == run::quiet_moves(
                    co,
                    self.mind().nodes,
                    s,
                    i as int,
                    low as int,
                    beta as int,
                ),
                value::quiet_visits(c, s) == 1 + value::quiet_moves(c, s, model::pits(s)),
                -INF <= alpha <= low < beta <= INF,
                stand == value::estimate(s),
                stand <= low,
                low == alpha || low == stand || exists|j: int|
                    value::forcing(c.rules, s, j) && #[trigger] value::quiet_move(c, s, j)
                        == low,
                forall|j: int|
                    0 <= j < i && value::forcing(c.rules, s, j) ==> #[trigger] value::quiet_move(
                        c,
                        s,
                        j,
                    ) <= low,
                value::estimate(s) <= value::quiet_value(c, s),
                forall|j: int|
                    value::forcing(c.rules, s, j) ==> #[trigger] value::quiet_move(c, s, j)
                        <= value::quiet_value(c, s),
                value::quiet_value(c, s) == value::estimate(s) || exists|j: int|
                    value::forcing(c.rules, s, j) && #[trigger] value::quiet_move(c, s, j)
                        == value::quiet_value(c, s),
            decreases n - i,
        {
            proof {
                lemma_quiet_step(c, s, i as int);
                reveal(run::quiet_run);
                reveal(run::quiet_moves);
            }
            if b.pit(p, i) != 0 {
                let r = b.apply(&self.rules(), i);
                proof {
                    model::lemma_after(c.rules, s, i as int);
                    value::lemma_quiet_positive(c, r.board.pos());
                }
                if r.extra_turn || r.captured {
                    let ghost t = r.board.pos();
                    let v: i32 = if r.extra_turn {
                        self.quiesce(&r.board, low, beta)
                    } else {
                        -self.quiesce(&r.board, -beta, -low)
                    };
                    if self.is_stopped() {
                        proof {
                            lemma_quiet_rest(c, s, i + 1);
                        }
                        return 0;
                    }
                    assert(value::forcing(c.rules, s, i as int));
                    assert(judged(
                        v as int,
                        value::quiet_move(c, s, i as int),
                        low as int,
                        beta as int,
                    ));
                    if v >= beta {
                        proof {
                            lemma_quiet_rest(c, s, i + 1);
                        }
                        return v;
                    }
                    if v > low {
                        low = v;
                    }
                }
            }
            i = i + 1;
        }
        proof {
            reveal(run::quiet_run);
            reveal(run::quiet_moves);
        }
        low
    }

    /// Negamax with alpha-beta pruning. `depth == None` searches to the end of the
    /// game; `depth == Some(d)` searches `d` plies and then applies the estimate.
    #[verifier::rlimit(40)]
    pub(crate) fn search(&mut self, b: &Board, alpha: i32, beta: i32, depth: Option<u32>) -> (r:
        i32)
        requires
            old(self).wf(),
            !old(self).stopped(),
            b.pits() == old(self).terms().pits,
            -INF <= alpha < beta <= INF,
        ensures
            final(self).wf(),
            final(self).terms() == old(self).terms(),
            old(self).visited() <= final(self).visited(),
            final(self).visited() > old(self).visited() || final(self).visited() == u64::MAX,
            final(self).visited() - old(self).visited() <= value::visits(
                old(self).terms().setting(),
                b.pos(),
                keys::depth_int(depth),
            ),
            final(self).stopped() ==> old(self).terms().timed || final(self).visited() > old(
                self,
            ).terms().budget,
            !final(self).stopped() && old(self).terms().setting().modest() ==> judged(
                r as int,
                value::search_value(
                    old(self).terms().setting(),
                    b.pos(),
                    keys::depth_int(depth),
                ),
                alpha as int,
                beta as int,
            ),
            -INF < r < INF,
            !old(self).terms().timed ==> followed(
                *final(self),
                r as int,
                run::run(
                    old(self).terms().course(),
                    old(self).mind(),
                    b.seat(),
                    alpha as int,
                    beta as int,
                    keys::depth_int(depth),
                ),
            ),
            !final(self).stopped() && old(self).untouched() && alpha == -INF && beta == INF
                ==> final(self).visited() - old(self).visited() >= effort::descent(
                old(self).terms().setting(),
                b.pos(),
                keys::depth_int(depth),
            ) || final(self).visited() == u64::MAX,
        decreases model::in_play(b.pos()), model::weight(b.pos()), 3int,
    {
        let ghost terms = self.terms();
        let ghost c = terms.setting();
        let ghost s = b.pos();
        let ghost d = keys::depth_int(depth);
        proof {
            use_type_invariant(b);
            b.lemma_seen();
            model::lemma_bounds(s);
            value::lemma_visits_positive(c, s, d);
            run::lemma_run(terms.course(), self.mind(), b.seat(), alpha as int, beta as int, d);
        }
        if !self.tick() {
            return 0;
        }
        if b.is_terminal() {
            let margin = b.terminal_margin(b.turn());
            return match depth {
                None => margin,
                Some(_) => margin * STORE_WEIGHT,
            };
        }
        // Once few seeds remain, a resolved line is the proven outcome: return it
        // (scaled in a search to a depth), giving perfect endgame play without
        // recursing.
        if let Some(v) = self.resolved(b, depth.is_some()) {
            return v;
        }
        if let Some(left) = depth {
            if left == 0 {
                return if self.quiesces() {
                    self.quiesce(b, alpha, beta)
                } else {
                    Self::heuristic(b)
                };
            }
        }
        self.expand(b, alpha, beta, depth)
    }

    /// Search a position by its moves, unless what is cached for it decides. A cached
    /// bound that leaves part of the window open narrows it.
    fn expand(&mut self, b: &Board, alpha: i32, beta: i32, depth: Option<u32>) -> (r: i32)
        requires
            old(self).wf(),
            !old(self).stopped(),
            b.pits() == old(self).terms().pits,
            -INF <= alpha < beta <= INF,
            value::branches(old(self).terms().setting(), b.pos(), keys::depth_int(depth)),
        ensures
            final(self).wf(),
            final(self).terms() == old(self).terms(),
            old(self).visited() <= final(self).visited(),
            final(self).visited() - old(self).visited() <= value::move_visits(
                old(self).terms().setting(),
                b.pos(),
                model::pits(b.pos()),
                keys::depth_int(depth),
            ),
            final(self).stopped() ==> old(self).terms().timed || final(self).visited() > old(
                self,
            ).terms().budget,
            !final(self).stopped() && old(self).terms().setting().modest() ==> judged(
                r as int,
                value::search_value(
                    old(self).terms().setting(),
                    b.pos(),
                    keys::depth_int(depth),
                ),
                alpha as int,
                beta as int,
            ),
            -INF < r < INF,
            !old(self).terms().timed ==> followed(
                *final(self),
                r as int,
                run::expand_run(
                    old(self).terms().course(),
                    old(self).mind(),
                    b.seat(),
                    alpha as int,
                    beta as int,
                    keys::depth_int(depth),
                ),
            ),
            !final(self).stopped() && old(self).untouched() && alpha == -INF && beta == INF
                ==> final(self).visited() - old(self).visited() >= effort::least_nodes(
                old(self).terms().setting(),
                b.pos(),
                keys::depth_int(depth),
            ) && model::legal(b.pos(), effort::first_tried(b.pos())) || final(self).visited()
                == u64::MAX,
        decreases model::in_play(b.pos()), model::weight(b.pos()), 2int,
    {
        let ghost terms = self.terms();
        let ghost c = terms.setting();
        let ghost s = b.pos();
        let ghost d = keys::depth_int(depth);
        proof {
            use_type_invariant(b);
            b.lemma_seen();
            model::lemma_bounds(s);
            value::lemma_visits_positive(c, s, d);
            self.lemma_mind();
            run::lemma_expand_run(
                terms.course(),
                self.mind(),
                b.seat(),
                alpha as int,
                beta as int,
                d,
            );
        }
        let base = Self::cached_from(b, depth);
        let (key, entry) = self.recall(b, depth);
        let mut hint: Option<usize> = None;
        let mut low: i32 = alpha;
        let mut high: i32 = beta;
        if let Some(e) = entry {
            let v: i32 = e.value as i32 + base;
            match e.flag {
                Flag::Exact => {
                    return v;
                },
                Flag::Lower => {
                    if v > low {
                        low = v;
                    }
                },
                Flag::Upper => {
                    if v < high {
                        high = v;
                    }
                },
            }
            if low >= high {
                return v;
            }
            hint = e.best;
        }
        self.weigh(b, alpha, low, high, depth, key, hint, Ghost(beta as int), Ghost(entry))
    }

    /// Search a position by its moves in the window from `low` to `high`, the part that
    /// what is cached for it leaves open, and cache the result.
    #[verifier::rlimit(40)]
    fn weigh(
        &mut self,
        b: &Board,
        alpha: i32,
        low: i32,
        high: i32,
        depth: Option<u32>,
        key: Option<u128>,
        hint: Option<usize>,
        Ghost(beta): Ghost<int>,
        Ghost(entry): Ghost<Option<Probe>>,
    ) -> (r: i32)
        requires
            old(self).wf(),
            !old(self).stopped(),
            b.pits() == old(self).terms().pits,
            -INF <= alpha <= low < high <= INF,
            alpha < beta,
            value::branches(old(self).terms().setting(), b.pos(), keys::depth_int(depth)),
            key == if old(self).terms().caching {
                keys::cache_key(b.pos(), keys::depth_int(depth))
            } else {
                None
            },
            hint == run::hinted(entry),
            (low as int, high as int) == run::narrowed(
                entry,
                searcher::cache_base(b.pos(), keys::depth_int(depth)),
                alpha as int,
                beta,
            ),
            entry matches Some(e) ==> e.flag != Flag::Exact && searcher::entry_ok(
                old(self).terms().setting(),
                b.pos(),
                keys::depth_int(depth),
                e,
            ),
        ensures
            final(self).wf(),
            final(self).terms() == old(self).terms(),
            old(self).visited() <= final(self).visited(),
            final(self).visited() - old(self).visited() <= value::move_visits(
                old(self).terms().setting(),
                b.pos(),
                model::pits(b.pos()),
                keys::depth_int(depth),
            ),
            final(self).stopped() ==> old(self).terms().timed || final(self).visited() > old(
                self,
            ).terms().budget,
            !final(self).stopped() && old(self).terms().setting().modest() ==> judged(
                r as int,
                value::search_value(
                    old(self).terms().setting(),
                    b.pos(),
                    keys::depth_int(depth),
                ),
                alpha as int,
                beta,
            ),
            -INF < r < INF,
            !old(self).terms().timed ==> followed(
                *final(self),
                r as int,
                run::weighed(
                    old(self).terms().course(),
                    b.pos(),
                    keys::depth_int(depth),
                    alpha as int,
                    high as int,
                    run::moves_run(
                        old(self).terms().course(),
                        old(self).mind(),
                        b.seat(),
                        hint,
                        old(self).mind().history,
                        keys::depth_int(depth),
                        run::first_trial(low as int),
                        high as int,
                    ),
                ),
            ),
            !final(self).stopped() && old(self).untouched() && low == -INF && high == INF && hint
                is None ==> final(self).visited() - old(self).visited() >= effort::least_nodes(
                old(self).terms().setting(),
                b.pos(),
                keys::depth_int(depth),
            ) && model::legal(b.pos(), effort::first_tried(b.pos())) || final(self).visited()
                == u64::MAX,
        decreases model::in_play(b.pos()), model::weight(b.pos()), 1int,
    {
        let ghost c = self.terms().setting();
        let ghost s = b.pos();
        let ghost d = keys::depth_int(depth);
        proof {
            use_type_invariant(b);
            b.lemma_seen();
        }
        let base = Self::cached_from(b, depth);
        let (moves, count) = self.ordered_moves(b, hint);
        proof {
            lemma_listing(*self, *b, hint, moves@, count as int);
        }
        let (best, choice) = self.try_moves(b, depth, &moves, count, low, high, Ghost(hint));
        if self.is_stopped() {
            return 0;
        }
        proof {
            lemma_narrowed(
                c,
                s,
                d,
                entry,
                alpha as int,
                beta,
                best as int,
                choice,
                moves@[0] as int,
            );
        }
        if let Some(k) = key {
            let flag = if best <= alpha {
                Flag::Upper
            } else if best >= high {
                Flag::Lower
            } else {
                Flag::Exact
            };
            assert(flag == run::flag_of(best as int, alpha as int, high as int));
            self.remember(k, best - base, flag, choice, Ghost(s), Ghost(d));
        }
        best
    }

    /// Search the listed moves in turn until one reaches `high`. Returns the best
    /// value and the first move that has it.
    #[verifier::rlimit(50)]
    fn try_moves(
        &mut self,
        b: &Board,
        depth: Option<u32>,
        moves: &[u8; 15],
        count: usize,
        low: i32,
        high: i32,
        Ghost(hint): Ghost<Option<usize>>,
    ) -> (out: (i32, usize))
        requires
            old(self).wf(),
            !old(self).stopped(),
            b.pits() == old(self).terms().pits,
            -INF <= low < high <= INF,
            count <= b.pits(),
            searcher::lists_moves(b.pos(), moves@.take(count as int)),
            value::branches(old(self).terms().setting(), b.pos(), keys::depth_int(depth)),
            run::in_order(b.seat(), hint, old(self).mind().history, moves@.take(count as int)),
        ensures
            final(self).wf(),
            final(self).terms() == old(self).terms(),
            old(self).visited() <= final(self).visited(),
            final(self).visited() - old(self).visited() <= value::move_visits(
                old(self).terms().setting(),
                b.pos(),
                model::pits(b.pos()),
                keys::depth_int(depth),
            ),
            final(self).stopped() ==> old(self).terms().timed || final(self).visited() > old(
                self,
            ).terms().budget,
            !final(self).stopped() ==> sifted(
                old(self).terms().setting(),
                b.pos(),
                keys::depth_int(depth),
                out.0 as int,
                out.1 as int,
                low as int,
                high as int,
            ),
            !final(self).stopped() && old(self).terms().setting().modest() && count > 0 && out.0
                <= low && value::move_value(
                old(self).terms().setting(),
                b.pos(),
                moves@[0] as int,
                keys::depth_int(depth),
            ) >= low ==> out.1 == moves@[0],
            -INF < out.0 < INF,
            !old(self).terms().timed ==> match run::moves_run(
                old(self).terms().course(),
                old(self).mind(),
                b.seat(),
                hint,
                old(self).mind().history,
                keys::depth_int(depth),
                run::first_trial(low as int),
                high as int,
            ) {
                Some((m, best, choice)) => !final(self).stopped() && final(self).mind() == m
                    && out.0 == best && out.1 == choice,
                None => final(self).stopped(),
            },
            !final(self).stopped() && old(self).untouched() && low == -INF && high == INF && count
                > 0 ==> final(self).visited() - old(self).visited() >= count - 1 + effort::descent(
                old(self).terms().setting(),
                model::after(old(self).terms().rules, b.pos(), moves@[0] as int),
                value::deeper(keys::depth_int(depth)),
            ) || final(self).visited() == u64::MAX,
        decreases model::in_play(b.pos()), model::weight(b.pos()), 0int,
    {
        let ghost terms = self.terms();
        let ghost c = terms.setting();
        let ghost s = b.pos();
        let ghost d = keys::depth_int(depth);
        let ghost listed = moves@.take(count as int);
        let ghost start = self.visited();
        proof {
            use_type_invariant(b);
            b.lemma_seen();
            model::lemma_bounds(s);
            lemma_spent_bound(c, s, d, listed, model::pits(s));
            assert(listed.take(0) =~= Seq::<u8>::empty());
        }
        let ghost co = terms.course();
        let ghost at = b.seat();
        let ghost history = self.mind().history;
        let ghost goal = run::moves_run(
            co,
            self.mind(),
            at,
            hint,
            history,
            d,
            run::first_trial(low as int),
            high as int,
        );
        let ghost mut trial = run::first_trial(low as int);
        let ghost open = self.untouched() && low == -INF && high == INF;
        let ghost line = effort::descent(
            c,
            model::after(c.rules, s, moves@[0] as int),
            value::deeper(d),
        );
        let child_depth: Option<u32> = match depth {
            None => None,
            Some(left) => Some((left - 1) as u32),
        };
        let mut best: i32 = -INF;
        let mut choice: usize = 0;
        let mut floor: i32 = low;
        let mut k: usize = 0;
        while k < count
            invariant
                self.wf(),
                !self.stopped(),
                self.terms() == terms,
                old(self).terms() == terms,
                c == terms.setting(),
                b.pits() == terms.pits,
                b.wf(),
                s == b.pos(),
                model::valid(s),
                model::pits(s) == b.pits(),
                b.pits() <= MAX_PITS,
                d == keys::depth_int(depth),
                value::branches(c, s, d),
                keys::depth_int(child_depth) == value::deeper(d),
                listed == moves@.take(count as int),
                listed.len() == count,
                count <= model::pits(s),
                searcher::lists_moves(s, listed),
                k <= count,
                old(self).visited() == start,
                start <= self.visited(),
                self.visited() - start <= spent(c, s, d, listed.take(k as int)),
                spent(c, s, d, listed) <= value::move_visits(c, s, model::pits(s), d),
                -INF <= low <= floor < high <= INF,
                -INF <= best < INF,
                k > 0 ==> -INF < best,
                floor == low || floor == best,
                best <= floor,
                k == 0 ==> floor == low,
                co == terms.course(),
                at == b.seat(),
                at.pos == s,
                history == old(self).mind().history,
                run::in_order(at, hint, history, listed),
                goal == run::moves_run(
                    co,
                    old(self).mind(),
                    at,
                    hint,
                    history,
                    d,
                    run::first_trial(low as int),
                    high as int,
                ),
                trial.last == run::last_of(listed, k as int),
                trial.tried == k,
                trial.floor == floor,
                trial.best == best,
                trial.choice == choice,
                !terms.timed ==> goal == run::moves_run(
                    co,
                    self.mind(),
                    at,
                    hint,
                    history,
                    d,
                    trial,
                    high as int,
                ),
                open == (old(self).untouched() && low == -INF && high == INF),
                open && k == 0 ==> self.untouched(),
                open && k > 0 ==> self.visited() - start >= k - 1 + line || self.visited()
                    == u64::MAX,
                line == effort::descent(
                    c,
                    model::after(c.rules, s, moves@[0] as int),
                    value::deeper(d),
                ),
                k > 0 ==> model::legal(s, choice as int),
                c.modest() && k > 0 && best > low ==> value::move_value(c, s, choice as int, d)
                    == best,
                c.modest() && k > 0 && best <= low && value::move_value(
                    c,
                    s,
                    moves@[0] as int,
                    d,
                ) >= low ==> choice == moves@[0] && best == low,
                c.modest() ==> forall|x: int|
                    0 <= x < k ==> value::move_value(c, s, #[trigger] listed[x] as int, d) <= best,
            decreases count - k,
        {
            let mv: usize = moves[k] as usize;
            proof {
                assert(listed[k as int] == mv);
                assert(model::legal(s, mv as int));
                model::lemma_after(c.rules, s, mv as int);
                assert(listed.take(k + 1).drop_last() =~= listed.take(k as int));
                lemma_spent_rest(c, s, d, listed, k + 1);
                run::lemma_moves_run(
                    co,
                    self.mind(),
                    at,
                    hint,
                    history,
                    d,
                    trial,
                    high as int,
                    listed,
                );
            }
            let r = b.apply(&self.rules(), mv);
            let v = self.child_value(&r.board, r.extra_turn, k == 0, floor, high, child_depth);
            if self.is_stopped() {
                return (0, 0);
            }
            proof {
                trial = trial.after(mv as int, v as int);
            }
            let ghost w = value::move_value(c, s, mv as int, d);
            assert(c.modest() ==> judged(v as int, w, floor as int, high as int));
            if v > best || k == 0 {
                best = v;
                choice = mv;
            }
            if v > floor {
                floor = v;
            }
            if floor >= high {
                // Beta cutoff: reward this move in the history table.
                self.reward(b.turn(), mv);
                proof {
                    value::lemma_search_value_is_best(c, s, d);
                }
                return (best, choice);
            }
            k = k + 1;
        }
        assert(listed.take(count as int) =~= listed);
        assert(sifted(c, s, d, best as int, choice as int, low as int, high as int)) by {
            value::lemma_search_value_is_best(c, s, d);
            let i = choose|i: int|
                model::legal(s, i) && #[trigger] value::move_value(c, s, i, d)
                    == value::search_value(c, s, d);
            assert(model::legal(s, i));
            let x = choose|x: int| 0 <= x < listed.len() && #[trigger] listed[x] == i;
            assert(c.modest() ==> value::move_value(c, s, listed[x] as int, d) <= best);
        }
        assert(!terms.timed ==> goal == Some((self.mind(), best as int, choice as int))) by {
            run::lemma_moves_run(
                co,
                self.mind(),
                at,
                hint,
                history,
                d,
                trial,
                high as int,
                listed,
            );
        }
        (best, choice)
    }

    /// The value of a move, from the position `child` that it leads to. Principal
    /// variation search: the first move is searched with the full window; the rest
    /// are probed with a null window and only the few that beat `alpha` are
    /// searched again. For extra-turn moves the same player continues, so the
    /// perspective and the window are not negated.
    fn child_value(
        &mut self,
        child: &Board,
        extra_turn: bool,
        first: bool,
        alpha: i32,
        beta: i32,
        depth: Option<u32>,
    ) -> (v: i32)
        requires
            old(self).wf(),
            !old(self).stopped(),
            child.pits() == old(self).terms().pits,
            -INF <= alpha < beta <= INF,
        ensures
            final(self).wf(),
            final(self).terms() == old(self).terms(),
            old(self).visited() <= final(self).visited(),
            final(self).visited() - old(self).visited() <= 2 * value::visits(
                old(self).terms().setting(),
                child.pos(),
                keys::depth_int(depth),
            ),
            final(self).stopped() ==> old(self).terms().timed || final(self).visited() > old(
                self,
            ).terms().budget,
            !final(self).stopped() && old(self).terms().setting().modest() ==> judged(
                v as int,
                if extra_turn {
                    value::search_value(
                        old(self).terms().setting(),
                        child.pos(),
                        keys::depth_int(depth),
                    )
                } else {
                    -value::search_value(
                        old(self).terms().setting(),
                        child.pos(),
                        keys::depth_int(depth),
                    )
                },
                alpha as int,
                beta as int,
            ),
            -INF < v < INF,
            !old(self).terms().timed ==> followed(
                *final(self),
                v as int,
                run::child_run(
                    old(self).terms().course(),
                    old(self).mind(),
                    child.seat(),
                    extra_turn,
                    first,
                    alpha as int,
                    beta as int,
                    keys::depth_int(depth),
                ),
            ),
            final(self).visited() > old(self).visited() || final(self).visited() == u64::MAX,
            !final(self).stopped() && first && old(self).untouched() && alpha == -INF && beta
                == INF ==> final(self).visited() - old(self).visited() >= effort::descent(
                old(self).terms().setting(),
                child.pos(),
                keys::depth_int(depth),
            ) || final(self).visited() == u64::MAX,
        decreases model::in_play(child.pos()), model::weight(child.pos()), 4int,
    {
        let ghost co = self.terms().course();
        let ghost d = keys::depth_int(depth);
        proof {
            value::lemma_visits_positive(self.terms().setting(), child.pos(), d);
            run::lemma_child_run(
                co,
                self.mind(),
                child.seat(),
                extra_turn,
                first,
                alpha as int,
                beta as int,
                d,
            );
        }
        if !first {
            proof {
                run::lemma_turned_run(
                    co,
                    self.mind(),
                    child.seat(),
                    extra_turn,
                    alpha as int,
                    alpha + 1,
                    d,
                );
            }
            let probe: i32 = if extra_turn {
                self.search(child, alpha, alpha + 1, depth)
            } else {
                -self.search(child, -alpha - 1, -alpha, depth)
            };
            if self.is_stopped() || probe <= alpha || probe >= beta {
                return probe;
            }
        }
        proof {
            run::lemma_turned_run(
                co,
                self.mind(),
                child.seat(),
                extra_turn,
                alpha as int,
                beta as int,
                d,
            );
        }
        if extra_turn {
            self.search(child, alpha, beta, depth)
        } else {
            -self.search(child, -beta, -alpha, depth)
        }
    }
}

/// The searcher has gone as a run goes: it has learned what the run has and returns its
/// value, or both ran out of budget.
pub open spec fn followed(search: Searcher, v: int, course: Option<(Mind, int)>) -> bool {
    match course {
        Some((m, w)) => !search.stopped() && search.mind() == m && v == w,
        None => search.stopped(),
    }
}

/// Moves are listed in the order in which a run tries them.
pub proof fn lemma_in_order(search: Searcher, b: Board, hint: Option<usize>, listed: Seq<u8>)
    requires
        forall|x: int, y: int|
            0 <= x < y < listed.len() ==> search.score_of(&b, hint, #[trigger] listed[x] as int)
                <= search.score_of(&b, hint, #[trigger] listed[y] as int),
        forall|x: int, y: int|
            0 <= x < y < listed.len() && search.score_of(&b, hint, listed[x] as int)
                == search.score_of(&b, hint, listed[y] as int) ==> #[trigger] listed[x]
                < #[trigger] listed[y],
    ensures
        run::in_order(b.seat(), hint, search.mind().history, listed),
{
    search.lemma_mind();
    let at = b.seat();
    let history = search.mind().history;
    assert forall|x: int, y: int| 0 <= x < y < listed.len() implies run::before(
        at,
        hint,
        history,
        #[trigger] listed[x] as int,
        #[trigger] listed[y] as int,
    ) by {
        assert(search.score_of(&b, hint, listed[x] as int) == run::score(
            at,
            hint,
            history,
            listed[x] as int,
        ));
        assert(search.score_of(&b, hint, listed[y] as int) == run::score(
            at,
            hint,
            history,
            listed[y] as int,
        ));
    }
}

/// What the order of the moves tells.
proof fn lemma_listing(
    search: Searcher,
    b: Board,
    hint: Option<usize>,
    moves: Seq<u8>,
    count: int,
)
    requires
        b.wf(),
        !model::over(b.pos()),
        0 <= count <= moves.len(),
        hint matches Some(m) ==> model::legal(b.pos(), m as int),
        searcher::lists_moves(b.pos(), moves.take(count)),
        forall|x: int, y: int|
            0 <= x < y < count ==> search.score_of(&b, hint, #[trigger] moves[x] as int)
                <= search.score_of(&b, hint, #[trigger] moves[y] as int),
        forall|x: int, y: int|
            0 <= x < y < count && search.score_of(&b, hint, moves[x] as int) == search.score_of(
                &b,
                hint,
                moves[y] as int,
            ) ==> #[trigger] moves[x] < #[trigger] moves[y],
    ensures
        run::in_order(b.seat(), hint, search.mind().history, moves.take(count)),
        count > 0,
        hint matches Some(m) ==> moves[0] == m,
        search.untouched() && hint is None ==> moves[0] == effort::first_tried(b.pos())
            && model::legal(b.pos(), moves[0] as int) && count >= effort::mobility(b.pos()),
{
    let listed = moves.take(count);
    assert forall|x: int, y: int| 0 <= x < y < listed.len() implies search.score_of(
        &b,
        hint,
        #[trigger] listed[x] as int,
    ) <= search.score_of(&b, hint, #[trigger] listed[y] as int) by {
        assert(moves[x] == listed[x] && moves[y] == listed[y]);
    }
    assert forall|x: int, y: int|
        0 <= x < y < listed.len() && search.score_of(&b, hint, listed[x] as int)
            == search.score_of(&b, hint, listed[y] as int) implies #[trigger] listed[x]
        < #[trigger] listed[y] by {
        assert(moves[x] == listed[x] && moves[y] == listed[y]);
    }
    lemma_in_order(search, b, hint, listed);
    b.lemma_seen();
    model::lemma_has_move(b.pos());
    let i = choose|i: int| model::legal(b.pos(), i);
    assert(model::legal(b.pos(), i));
    let x = choose|x: int| 0 <= x < listed.len() && #[trigger] listed[x] == i;
    if hint is Some {
        lemma_hint_first(search, b, hint->0, listed);
    } else if search.untouched() {
        lemma_first_move(search, b, listed);
    }
}

/// What trying the moves in the window that a cached bound leaves open tells of the whole
/// window, and that it is right to cache it.
proof fn lemma_narrowed(
    c: Setting,
    s: Seq<int>,
    depth: Option<int>,
    entry: Option<Probe>,
    alpha: int,
    beta: int,
    best: int,
    choice: usize,
    first: int,
)
    requires
        value::branches(c, s, depth),
        model::total(s) <= MAX_SEEDS,
        alpha < beta,
        entry matches Some(e) ==> e.flag != Flag::Exact && searcher::entry_ok(c, s, depth, e)
            && (e.best matches Some(m) && m == first),
        ({
            let base = searcher::cache_base(s, depth);
            let (low, high) = run::narrowed(entry, base, alpha, beta);
            &&& low < high
            &&& sifted(c, s, depth, best, choice as int, low, high)
            &&& c.modest() && best <= low && value::move_value(c, s, first, depth) >= low
                ==> choice == first
        }),
    ensures
        c.modest() ==> judged(best, value::search_value(c, s, depth), alpha, beta),
        ({
            let base = searcher::cache_base(s, depth);
            let (low, high) = run::narrowed(entry, base, alpha, beta);
            searcher::entry_ok(
                c,
                s,
                depth,
                (Probe {
                    value: run::clamped(best - base) as i16,
                    flag: run::flag_of(best, alpha, high),
                    best: Some(choice),
                }),
            )
        }),
{
    value::lemma_search_value_is_best(c, s, depth);
    let base = searcher::cache_base(s, depth);
    let (low, high) = run::narrowed(entry, base, alpha, beta);
    let full = value::search_value(c, s, depth);
    assert(value::move_value(c, s, choice as int, depth) <= full);
    if c.modest() {
        value::lemma_modest_bound(c, s, depth);
        model::lemma_after(c.rules, s, choice as int);
        value::lemma_modest_bound(
            c,
            model::after(c.rules, s, choice as int),
            value::deeper(depth),
        );
        value::lemma_leaf_bound(s);
    }
    if c.modest() && alpha < best <= low {
        // Then `low` is a cached bound, which the hinted move reaches.
        assert(low == entry->0.value + base);
        assert(full == best);
        assert(choice == first);
    }
}

/// The hinted move is listed first.
proof fn lemma_hint_first(search: Searcher, b: Board, hint: usize, listed: Seq<u8>)
    requires
        b.wf(),
        model::legal(b.pos(), hint as int),
        searcher::lists_moves(b.pos(), listed),
        forall|x: int, y: int|
            0 <= x < y < listed.len() ==> search.score_of(
                &b,
                Some(hint),
                #[trigger] listed[x] as int,
            ) <= search.score_of(&b, Some(hint), #[trigger] listed[y] as int),
    ensures
        listed.len() > 0,
        listed[0] == hint,
{
    b.lemma_seen();
    let x = choose|x: int| 0 <= x < listed.len() && #[trigger] listed[x] == hint;
    assert(model::legal(b.pos(), listed[0] as int));
    if x > 0 {
        assert(listed[0] != listed[x]);
        assert(search.score_of(&b, Some(hint), listed[0] as int) <= search.score_of(
            &b,
            Some(hint),
            listed[x] as int,
        ));
    }
}

/// A searcher that has learned nothing lists first the move that is tried first.
pub proof fn lemma_first_move(search: Searcher, b: Board, listed: Seq<u8>)
    requires
        search.untouched(),
        b.wf(),
        !model::over(b.pos()),
        searcher::lists_moves(b.pos(), listed),
        forall|x: int, y: int|
            0 <= x < y < listed.len() ==> search.score_of(&b, None, #[trigger] listed[x] as int)
                <= search.score_of(&b, None, #[trigger] listed[y] as int),
    ensures
        listed.len() > 0,
        listed[0] == effort::first_tried(b.pos()),
        model::legal(b.pos(), listed[0] as int),
        listed.len() >= effort::mobility(b.pos()),
{
    b.lemma_seen();
    let s = b.pos();
    assert forall|x: int, y: int| 0 <= x < y < listed.len() implies searcher::move_score(
        s,
        #[trigger] listed[x] as int,
        None,
        0,
    ) <= searcher::move_score(s, #[trigger] listed[y] as int, None, 0) by {
        assert(model::legal(s, listed[x] as int));
        assert(model::legal(s, listed[y] as int));
        search.lemma_untouched(&b, None, listed[x] as int);
        search.lemma_untouched(&b, None, listed[y] as int);
    }
    effort::lemma_listed(s, listed);
}

/// What trying the moves of a position tells: the best value is judged by the window,
/// inside the window it is that of the chosen move, and beyond the window the chosen move
/// reaches it.
pub open spec fn sifted(
    c: Setting,
    s: Seq<int>,
    depth: Option<int>,
    best: int,
    choice: int,
    low: int,
    high: int,
) -> bool {
    &&& model::legal(s, choice)
    &&& c.modest() ==> judged(best, value::search_value(c, s, depth), low, high)
    &&& c.modest() && low < best < high ==> value::move_value(c, s, choice, depth) == best
    &&& c.modest() && best >= high ==> value::move_value(c, s, choice, depth) >= best
}

/// The nodes that the listed moves can account for.
pub open spec fn spent(c: Setting, s: Seq<int>, depth: Option<int>, moves: Seq<u8>) -> int
    decreases moves.len(),
{
    if moves.len() == 0 {
        0
    } else {
        spent(c, s, depth, moves.drop_last()) + 2 * value::visits(
            c,
            model::after(c.rules, s, moves.last() as int),
            value::deeper(depth),
        )
    }
}

proof fn lemma_spent_remove(c: Setting, s: Seq<int>, depth: Option<int>, moves: Seq<u8>, k: int)
    requires
        0 <= k < moves.len(),
    ensures
        spent(c, s, depth, moves) == spent(c, s, depth, moves.remove(k)) + 2 * value::visits(
            c,
            model::after(c.rules, s, moves[k] as int),
            value::deeper(depth),
        ),
    decreases moves.len(),
{
    if k == moves.len() - 1 {
        assert(moves.remove(k) =~= moves.drop_last());
    } else {
        lemma_spent_remove(c, s, depth, moves.drop_last(), k);
        assert(moves.remove(k).drop_last() =~= moves.drop_last().remove(k));
        assert(moves.remove(k).last() == moves.last());
    }
}

pub proof fn lemma_spent_rest(c: Setting, s: Seq<int>, depth: Option<int>, moves: Seq<u8>, k: int)
    requires
        0 <= k <= moves.len(),
    ensures
        spent(c, s, depth, moves.take(k)) <= spent(c, s, depth, moves),
    decreases moves.len() - k,
{
    if k < moves.len() {
        lemma_spent_rest(c, s, depth, moves, k + 1);
        assert(moves.take(k + 1).drop_last() =~= moves.take(k));
        value::lemma_visits_positive(
            c,
            model::after(c.rules, s, moves[k] as int),
            value::deeper(depth),
        );
    } else {
        assert(moves.take(k) =~= moves);
    }
}

/// However they are ordered, the moves account for no more nodes than all legal
/// pits do.
pub proof fn lemma_spent_bound(c: Setting, s: Seq<int>, depth: Option<int>, moves: Seq<u8>, n: int)
    requires
        model::valid(s),
        0 <= n <= model::pits(s),
        forall|k: int|
            0 <= k < moves.len() ==> #[trigger] moves[k] < n && model::legal(s, moves[k] as int),
        forall|x: int, y: int|
            0 <= x < y < moves.len() ==> #[trigger] moves[x] != #[trigger] moves[y],
    ensures
        spent(c, s, depth, moves) <= value::move_visits(c, s, n, depth),
    decreases n,
{
    if n == 0 {
        if moves.len() > 0 {
            assert(moves[0] < n);
        }
    } else {
        lemma_move_visits_step(c, s, depth, n - 1);
        if exists|k: int| 0 <= k < moves.len() && #[trigger] moves[k] == n - 1 {
            let k = choose|k: int| 0 <= k < moves.len() && #[trigger] moves[k] == n - 1;
            let rest = moves.remove(k);
            assert forall|x: int| 0 <= x < rest.len() implies #[trigger] rest[x] < n - 1
                && model::legal(s, rest[x] as int) by {
                let y = if x < k { x } else { x + 1 };
                assert(rest[x] == moves[y]);
                assert(moves[y] != moves[k]);
            }
            assert forall|x: int, y: int| 0 <= x < y < rest.len() implies #[trigger] rest[x]
                != #[trigger] rest[y] by {
                let x0 = if x < k { x } else { x + 1 };
                let y0 = if y < k { y } else { y + 1 };
                assert(moves[x0] != moves[y0]);
            }
            lemma_spent_bound(c, s, depth, rest, n - 1);
            lemma_spent_remove(c, s, depth, moves, k);
        } else {
            lemma_spent_bound(c, s, depth, moves, n - 1);
        }
    }
}

/// What the next pit adds to the nodes that may be visited.
proof fn lemma_move_visits_step(c: Setting, s: Seq<int>, depth: Option<int>, i: int)
    requires
        model::valid(s),
        0 <= i,
    ensures
        value::move_visits(c, s, i + 1, depth) == value::move_visits(c, s, i, depth)
            + if model::legal(s, i) {
            2 * value::visits(c, model::after(c.rules, s, i), value::deeper(depth))
        } else {
            0
        },
        value::move_visits(c, s, i, depth) <= value::move_visits(c, s, i + 1, depth),
{
    value::lemma_visits_positive(c, model::after(c.rules, s, i), value::deeper(depth));
}

/// What the next pit adds to the nodes that a quiescence search may visit.
proof fn lemma_quiet_step(c: Setting, s: Seq<int>, i: int)
    requires
        model::valid(s),
        0 <= i,
    ensures
        value::quiet_moves(c, s, i + 1) == value::quiet_moves(c, s, i) + if value::forcing(
            c.rules,
            s,
            i,
        ) {
            value::quiet_visits(c, model::after(c.rules, s, i))
        } else {
            0
        },
        value::quiet_moves(c, s, i) <= value::quiet_moves(c, s, i + 1),
{
    value::lemma_quiet_positive(c, model::after(c.rules, s, i));
}

proof fn lemma_quiet_rest(c: Setting, s: Seq<int>, i: int)
    requires
        model::valid(s),
        0 <= i <= model::pits(s),
    ensures
        value::quiet_moves(c, s, i) <= value::quiet_moves(c, s, model::pits(s)),
    decreases model::pits(s) - i,
{
    if i < model::pits(s) {
        lemma_quiet_step(c, s, i);
        lemma_quiet_rest(c, s, i + 1);
    }
}

} // verus!
