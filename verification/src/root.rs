//! The root of a search: every move of a position evaluated, and the line of best play
//! that follows.

use vstd::prelude::*;

use crate::analysis;
use crate::analysis::{Analysis, Ranking};
use crate::board::{Board, MAX_PITS};
use crate::effort;
use crate::keys;
use crate::model;
use crate::run;
use crate::run::Mind;
use crate::search;
use crate::searcher;
use crate::searcher::{Searcher, INF};
use crate::tablebase::Tablebase;
use crate::tt;
use crate::tt::Flag;
use crate::value;
use crate::value::{Setting, STORE_WEIGHT};

verus! {

/// The value of a position that the game or the tablebase settles, for the player
/// to move.
#[verifier::opaque]
spec fn settled(c: Setting, s: Seq<int>) -> int {
    if model::over(s) {
        value::final_margin(s)
    } else {
        model::lead(s) + (c.oracle)(value::layout(s))->0
    }
}

/// The value of a move that leads to a settled position.
#[verifier::opaque]
spec fn settled_move(c: Setting, s: Seq<int>, i: int) -> int {
    if model::extra_turn(s, i) {
        settled(c, model::after(c.rules, s, i))
    } else {
        -settled(c, model::after(c.rules, s, i))
    }
}

proof fn lemma_settled_move(c: Setting, s: Seq<int>, i: int, depth: Option<int>)
    requires
        model::valid(s),
        model::legal(s, i),
        ({
            let t = model::after(c.rules, s, i);
            model::over(t) || (c.oracle)(value::layout(t)) is Some
        }),
    ensures
        value::move_value(c, s, i, depth) == value::scaled(settled_move(c, s, i), depth),
{
    reveal(settled);
    reveal(settled_move);
    model::lemma_after(c.rules, s, i);
}

/// The best value and its move so far.
spec fn best_of(ranks: Ranking) -> Option<(int, int)> {
    match ranks.best_move {
        Some(m) => Some((ranks.best as int, m as int)),
        None => None,
    }
}

/// The analysis reports this best value and its move.
pub open spec fn reports(a: Analysis, best: Option<(int, int)>) -> bool {
    match best {
        Some((v, i)) => a.value == v && (a.best_move matches Some(m) && m == i),
        None => a.best_move is None,
    }
}

/// The searcher has gone as a run goes.
spec fn went(
    search: Searcher,
    ranks: Ranking,
    course: (Option<Mind>, Option<(int, int)>),
) -> bool {
    &&& best_of(ranks) == course.1
    &&& match course.0 {
        Some(m) => !search.stopped() && search.mind() == m,
        None => search.stopped(),
    }
}

/// Where a search goes by the moves of a position, the position is worth `v`.
spec fn worth_of(c: Setting, s: Seq<int>, depth: Option<int>, v: int) -> bool {
    c.modest() && value::branches(c, s, depth) ==> value::search_value(c, s, depth) == v
}

impl<'a> Searcher<'a> {
    /// The value of pit `i` at a position covered by the tablebase.
    fn value_via_tb(&self, b: &Board, tb: &Tablebase, i: usize) -> (v: i32)
        requires
            self.wf(),
            self.terms().tb == Some(tb),
            tb.pits() == b.pits(),
            model::legal(b.pos(), i as int),
            model::in_play(b.pos()) <= tb.limit(),
        ensures
            v == settled_move(self.terms().setting(), b.pos(), i as int),
            ({
                let t = model::after(self.terms().rules, b.pos(), i as int);
                model::over(t) || (self.terms().setting().oracle)(value::layout(t)) is Some
            }),
    {
        let r = b.apply(&self.rules(), i);
        let ghost t = r.board.pos();
        proof {
            reveal(settled);
            reveal(settled_move);
            use_type_invariant(b);
            b.lemma_seen();
            model::lemma_after(self.terms().rules, b.pos(), i as int);
            tb.lemma_knows(t);
            r.board.lemma_seen();
            model::lemma_flip(t);
            model::lemma_bounds(t);
        }
        let q = r.board.turn();
        let x: i32 = if r.board.is_terminal() {
            r.board.terminal_margin(q)
        } else {
            let g: i16 = match tb.lookup(&r.board) {
                Some(g) => g,
                None => 0,
            };
            r.board.store(q) as i32 - r.board.store(q.other()) as i32 + g as i32
        };
        if r.extra_turn {
            x
        } else {
            -x
        }
    }

    /// Best move at a position covered by the tablebase, by evaluating each child.
    /// `None` if there is no tablebase or the position is outside its cap.
    fn best_move_via_tb(&self, b: &Board) -> (m: Option<usize>)
        requires
            self.wf(),
            b.pits() == self.terms().pits,
            !model::over(b.pos()),
        ensures
            match m {
                Some(m) => (forall|depth: Option<int>| #[trigger]
                    analysis::is_best(self.terms().setting(), b.pos(), m as int, depth))
                    && self.terms().tb is Some && (self.terms().setting().oracle)(
                    value::layout(b.pos()),
                ) is Some && {
                    let t = model::after(self.terms().rules, b.pos(), m as int);
                    model::over(t) || (self.terms().setting().oracle)(value::layout(t)) is Some
                },
                None => self.terms().tb is None || self.terms().tb->0.knows(
                    value::layout(b.pos()),
                ) is None,
            },
    {
        proof {
            use_type_invariant(b);
            b.lemma_seen();
            self.lemma_table_size();
        }
        let tb = match self.tablebase() {
            Some(tb) => tb,
            None => {
                return None;
            },
        };
        let ghost c = self.terms().setting();
        let ghost s = b.pos();
        proof {
            tb.lemma_knows(s);
        }
        if b.seeds_in_play() > tb.cap() {
            return None;
        }
        let p = b.turn();
        let n = b.pits_per_side();
        let mut best_v: i32 = 0;
        let mut best_m: Option<usize> = None;
        let mut i: usize = 0;
        while i < n
            invariant
                self.wf(),
                self.terms().tb == Some(tb),
                c == self.terms().setting(),
                s == b.pos(),
                b.wf(),
                p == b.mover(),
                n == b.pits(),
                tb.pits() == n,
                n == model::pits(s),
                model::valid(s),
                model::in_play(s) <= tb.limit(),
                i <= n,
                best_m matches Some(m) ==> model::legal(s, m as int) && best_v == settled_move(
                    c,
                    s,
                    m as int,
                ),
                forall|j: int|
                    0 <= j < i && #[trigger] model::legal(s, j) ==> best_m is Some && settled_move(
                        c,
                        s,
                        j,
                    ) <= best_v,
                forall|j: int|
                    0 <= j < i && model::legal(s, j) ==> {
                        let t = #[trigger] model::after(c.rules, s, j);
                        model::over(t) || (c.oracle)(value::layout(t)) is Some
                    },
            decreases n - i,
        {
            if b.pit(p, i) != 0 {
                let v = self.value_via_tb(b, tb, i);
                let better = match best_m {
                    None => true,
                    Some(_) => v > best_v,
                };
                if better {
                    best_v = v;
                    best_m = Some(i);
                }
            }
            i = i + 1;
        }
        proof {
            model::lemma_has_move(s);
            let j = choose|j: int| model::legal(s, j);
            assert(settled_move(c, s, j) <= best_v);
            let m = best_m->0 as int;
            assert forall|depth: Option<int>| #[trigger] analysis::is_best(c, s, m, depth) by {
                assert forall|j: int| model::legal(s, j) implies #[trigger] value::move_value(
                    c,
                    s,
                    j,
                    depth,
                ) <= value::move_value(c, s, m, depth) by {
                    let t = model::after(c.rules, s, j);
                    let u = model::after(c.rules, s, m);
                    lemma_settled_move(c, s, j, depth);
                    lemma_settled_move(c, s, m, depth);
                    assert(settled_move(c, s, j) <= best_v);
                }
            }
        }
        best_m
    }

    /// The transposition table has no best move for a position with `depth` left: no
    /// exact entry, and no lower bound that is the value of the position.
    pub open spec fn lacks(&self, s: Seq<int>, depth: Option<int>) -> bool {
        run::lacks(self.terms().course(), self.mind().slots, s, depth)
    }

    /// A line ends where it has to: at the end of the game or of the depth, at its
    /// longest, or where the transposition table has no best move.
    pub open spec fn line_ends(
        &self,
        s: Seq<int>,
        depth: Option<int>,
        line: Seq<usize>,
        cap: int,
    ) -> bool {
        run::line_ends(self.terms().course(), self.mind().slots, s, depth, line, cap)
    }

    /// A best move at `b`, if the transposition table or the tablebase has one. Above
    /// the tablebase `worth` is the value of the position.
    fn line_move(&self, b: &Board, depth: Option<u32>, worth: i32) -> (m: Option<usize>)
        requires
            self.wf(),
            b.pits() == self.terms().pits,
            !model::over(b.pos()),
            worth_of(self.terms().setting(), b.pos(), keys::depth_int(depth), worth as int),
        ensures
            match m {
                Some(m) => analysis::is_best(
                    self.terms().setting(),
                    b.pos(),
                    m as int,
                    keys::depth_int(depth),
                ),
                None => (self.terms().tb is None || self.terms().tb->0.knows(
                    value::layout(b.pos()),
                ) is None) && self.lacks(b.pos(), keys::depth_int(depth)),
            },
            !self.lacks(b.pos(), keys::depth_int(depth)) ==> m == tt::found(
                self.cache().contents(),
                keys::cache_key(b.pos(), keys::depth_int(depth))->0,
                0,
            )->0.best,
            m matches Some(m) ==> worth_of(
                self.terms().setting(),
                model::after(self.terms().rules, b.pos(), m as int),
                value::deeper(keys::depth_int(depth)),
                if model::extra_turn(b.pos(), m as int) {
                    worth as int
                } else {
                    -worth
                },
            ),
    {
        let ghost c = self.terms().setting();
        let ghost s = b.pos();
        let ghost d = keys::depth_int(depth);
        proof {
            self.lemma_mind();
        }
        if let (_, Some(e)) = self.recall(b, depth) {
            let best = match e.flag {
                Flag::Exact => true,
                Flag::Lower => e.value as i32 + Self::cached_from(b, depth) >= worth,
                Flag::Upper => false,
            };
            if best {
                proof {
                    value::lemma_search_value_is_best(c, s, d);
                }
                return e.best;
            }
        }
        let m = self.best_move_via_tb(b);
        assert(m is Some ==> analysis::is_best(c, s, m->0 as int, d));
        m
    }

    /// Follow best moves from `start`: those of the transposition table above the
    /// endgame and those of the tablebase within it, so that with a tablebase the line
    /// extends to the end of the game.
    fn follow_pv(&self, start: &Board, depth: Option<u32>, worth: i32, cap: usize) -> (pv: Vec<
        usize,
    >)
        requires
            self.wf(),
            start.pits() == self.terms().pits,
            -INF < worth < INF,
            worth_of(self.terms().setting(), start.pos(), keys::depth_int(depth), worth as int),
        ensures
            analysis::best_line(self.terms().setting(), start.pos(), pv@, keys::depth_int(depth)),
            pv@.len() <= cap,
            depth matches Some(d) ==> pv@.len() <= d,
            self.line_ends(start.pos(), keys::depth_int(depth), pv@, cap as int),
            analysis::cut_off(
                self.terms().rules,
                self.terms().tb,
                start.pos(),
                keys::depth_int(depth),
                pv@,
                cap as int,
            ),
    {
        let ghost c = self.terms().setting();
        let ghost s = start.pos();
        let ghost d = keys::depth_int(depth);
        let mut pv: Vec<usize> = Vec::new();
        let mut cur: Board = *start;
        let mut left: Option<u32> = depth;
        let mut worth: i32 = worth;
        let mut stop = false;
        proof {
            use_type_invariant(start);
        }
        while !stop
            invariant
                self.wf(),
                c == self.terms().setting(),
                s == start.pos(),
                d == keys::depth_int(depth),
                cur.wf(),
                cur.pits() == self.terms().pits,
                cur.pos() == analysis::line_end(c.rules, s, pv@),
                -INF < worth < INF,
                worth_of(c, cur.pos(), keys::depth_int(left), worth as int),
                keys::depth_int(left) == analysis::depth_after(d, pv@.len() as int),
                analysis::best_line(c, s, pv@, d),
                pv@.len() <= cap,
                stop ==> analysis::cut_off(
                    self.terms().rules,
                    self.terms().tb,
                    s,
                    d,
                    pv@,
                    cap as int,
                ),
                stop ==> self.line_ends(s, d, pv@, cap as int),
            decreases
                    cap - pv@.len() + if stop {
                        0int
                    } else {
                        1
                    },
        {
            let spent = match left {
                Some(l) => l == 0,
                None => false,
            };
            if pv.len() >= cap || spent || cur.is_terminal() {
                stop = true;
            } else {
                match self.line_move(&cur, left, worth) {
                    None => {
                        stop = true;
                    },
                    Some(mv) => {
                        let ghost before = pv@;
                        pv.push(mv);
                        assert(pv@.drop_last() =~= before);
                        let r = cur.apply(&self.rules(), mv);
                        cur = r.board;
                        worth = if r.extra_turn {
                            worth
                        } else {
                            -worth
                        };
                        left = match left {
                            Some(l) => Some((l - 1) as u32),
                            None => None,
                        };
                    },
                }
            }
        }
        pv
    }

    /// Evaluate the listed moves of `b` in turn, each against the best so far. Stops
    /// early when the search does.
    fn rank_moves(&mut self, b: &Board, depth: Option<u32>, moves: &[u8; 15], count: usize) -> (r:
        Ranking)
        requires
            old(self).wf(),
            !old(self).stopped(),
            b.pits() == old(self).terms().pits,
            !model::over(b.pos()),
            depth != Some(0u32),
            count <= b.pits(),
            searcher::lists_moves(b.pos(), moves@.take(count as int)),
            run::in_order(b.seat(), None, old(self).mind().history, moves@.take(count as int)),
        ensures
            final(self).wf(),
            final(self).terms() == old(self).terms(),
            !old(self).terms().timed ==> went(
                *final(self),
                r,
                run::root_run(
                    old(self).terms().course(),
                    old(self).mind(),
                    b.seat(),
                    old(self).mind().history,
                    keys::depth_int(depth),
                    None,
                    0,
                    None,
                ),
            ),
            old(self).visited() <= final(self).visited(),
            final(self).visited() - old(self).visited() <= value::root_visits(
                old(self).terms().setting(),
                b.pos(),
                keys::depth_int(depth),
            ),
            !final(self).stopped() ==> final(self).visited() >= old(self).visited() + count
                || final(self).visited() == u64::MAX,
            final(self).stopped() ==> old(self).terms().timed || final(self).visited() > old(
                self,
            ).terms().budget,
            !final(self).stopped() && old(self).untouched() && count > 0 ==> final(self).visited()
                - old(self).visited() >= count - 1 + effort::descent(
                old(self).terms().setting(),
                model::after(old(self).terms().rules, b.pos(), moves@[0] as int),
                value::deeper(keys::depth_int(depth)),
            ) || final(self).visited() == u64::MAX,
            exists|k: int|
                0 <= k <= count && #[trigger] r.of(
                    old(self).terms().setting(),
                    b.pos(),
                    keys::depth_int(depth),
                    moves@.take(count as int),
                    k,
                ),
            !final(self).stopped() ==> r.of(
                old(self).terms().setting(),
                b.pos(),
                keys::depth_int(depth),
                moves@.take(count as int),
                count as int,
            ),
    {
        let ghost terms = self.terms();
        let ghost c = terms.setting();
        let ghost s = b.pos();
        let ghost d = keys::depth_int(depth);
        let ghost listed = moves@.take(count as int);
        let ghost start = self.visited();
        let ghost fresh = self.untouched();
        let ghost co = terms.course();
        let ghost at = b.seat();
        let ghost history = self.mind().history;
        let ghost goal = run::root_run(co, self.mind(), at, history, d, None, 0, None);
        let ghost line = effort::descent(
            c,
            model::after(c.rules, s, moves@[0] as int),
            value::deeper(d),
        );
        proof {
            use_type_invariant(b);
            b.lemma_seen();
            self.lemma_table_size();
            search::lemma_spent_bound(c, s, d, listed, model::pits(s));
            assert(listed.take(0) =~= Seq::<u8>::empty());
        }
        let child_depth: Option<u32> = match depth {
            None => None,
            Some(left) => Some((left - 1) as u32),
        };
        let mut ranks = Ranking::new(Ghost(c), Ghost(s), Ghost(d), Ghost(listed));
        let mut k: usize = 0;
        proof {
            ranks.lemma_of(c, s, d, listed, 0);
        }
        while k < count
            invariant
                co == terms.course(),
                at == b.seat(),
                at.pos == s,
                history == old(self).mind().history,
                run::in_order(at, None, history, listed),
                goal == run::root_run(co, old(self).mind(), at, history, d, None, 0, None),
                !terms.timed ==> goal == run::root_run(
                    co,
                    self.mind(),
                    at,
                    history,
                    d,
                    run::last_of(listed, k as int),
                    k as int,
                    best_of(ranks),
                ),
                self.wf(),
                !self.stopped(),
                self.terms() == terms,
                old(self).terms() == terms,
                c == terms.setting(),
                c.bounded(),
                b.pits() == terms.pits,
                b.wf(),
                s == b.pos(),
                model::valid(s),
                model::total(s) <= 255,
                model::pits(s) == b.pits(),
                b.pits() <= MAX_PITS,
                d == keys::depth_int(depth),
                depth != Some(0u32),
                keys::depth_int(child_depth) == value::deeper(d),
                listed == moves@.take(count as int),
                listed.len() == count,
                count <= model::pits(s),
                searcher::lists_moves(s, listed),
                k <= count,
                old(self).visited() == start,
                start <= self.visited(),
                self.visited() >= start + k || self.visited() == u64::MAX,
                fresh == old(self).untouched(),
                fresh && k == 0 ==> self.untouched(),
                fresh && k > 0 ==> self.visited() - start >= k - 1 + line || self.visited()
                    == u64::MAX,
                line == effort::descent(
                    c,
                    model::after(c.rules, s, moves@[0] as int),
                    value::deeper(d),
                ),
                self.visited() - start <= search::spent(c, s, d, listed.take(k as int)),
                search::spent(c, s, d, listed) <= value::root_visits(c, s, d),
                ranks.of(c, s, d, listed, k as int),
            decreases count - k,
        {
            let mv: usize = moves[k] as usize;
            proof {
                assert(listed[k as int] == mv);
                assert(model::legal(s, mv as int));
                model::lemma_after(c.rules, s, mv as int);
                assert(listed.take(k + 1).drop_last() =~= listed.take(k as int));
                search::lemma_spent_rest(c, s, d, listed, k + 1);
                ranks.lemma_of(c, s, d, listed, k as int);
                run::lemma_root_run(
                    co,
                    self.mind(),
                    at,
                    history,
                    d,
                    k as int,
                    best_of(ranks),
                    listed,
                );
            }
            let r = b.apply(&self.rules(), mv);
            proof {
                value::lemma_visits_positive(c, r.board.pos(), value::deeper(d));
            }
            let alpha = ranks.alpha();
            proof {
                run::lemma_turned_run(
                    co,
                    self.mind(),
                    r.board.seat(),
                    r.extra_turn,
                    alpha as int,
                    INF as int,
                    value::deeper(d),
                );
            }
            // There is no cutoff at the root, so a child only ever fails low; a
            // returned value that does not exceed `alpha` is an upper bound.
            let v: i32 = if r.extra_turn {
                self.search(&r.board, alpha, INF, child_depth)
            } else {
                -self.search(&r.board, -INF, -alpha, child_depth)
            };
            if self.is_stopped() {
                return ranks;
            }
            ranks.note(
                mv,
                v,
                r.extra_turn,
                r.captured,
                Ghost(c),
                Ghost(s),
                Ghost(d),
                Ghost(listed),
                Ghost(k as int),
            );
            k = k + 1;
        }
        assert(listed.take(count as int) =~= listed);
        proof {
            run::lemma_root_run(
                co,
                self.mind(),
                at,
                history,
                d,
                k as int,
                best_of(ranks),
                listed,
            );
        }
        ranks
    }

    /// Solve the position with a single alpha-beta pass over the root moves.
    ///
    /// Moves are tried best-ordered first; the window narrows as better moves are
    /// found. Once a move establishes the best value, inferior moves fail low
    /// against the raised window and yield an *upper bound* rather than an exact
    /// value; they are flagged `bound`. This avoids the cost of proving an exact
    /// value for every move while keeping the value, the best move, and the
    /// principal variation exact.
    ///
    /// Of several best moves, the one that is tried first is reported. If the search
    /// is stopped, the analysis covers the moves that were evaluated until then.
    #[verifier::rlimit(60)]
    pub(crate) fn analyze_root(&mut self, b: &Board, depth: Option<u32>) -> (a: Analysis)
        requires
            old(self).wf(),
            !old(self).stopped(),
            b.pits() == old(self).terms().pits,
            depth == Some(0u32) ==> model::over(b.pos()),
        ensures
            final(self).wf(),
            final(self).terms() == old(self).terms(),
            old(self).visited() <= final(self).visited(),
            final(self).visited() - old(self).visited() <= value::root_visits(
                old(self).terms().setting(),
                b.pos(),
                keys::depth_int(depth),
            ),
            final(self).stopped() ==> old(self).terms().timed || final(self).visited() > old(
                self,
            ).terms().budget,
            !final(self).stopped() ==> final(self).visited() >= old(self).visited()
                + a.move_evals@.len() || final(self).visited() == u64::MAX,
            !final(self).stopped() && old(self).untouched() ==> final(self).visited() - old(
                self,
            ).visited() >= effort::least_nodes(
                old(self).terms().setting(),
                b.pos(),
                keys::depth_int(depth),
            ) || final(self).visited() == u64::MAX,
            !old(self).terms().timed ==> ({
                let (done, best) = run::analysis_run(
                    old(self).terms().course(),
                    old(self).mind(),
                    b.seat(),
                    keys::depth_int(depth),
                );
                &&& reports(a, best)
                &&& match done {
                    Some(m) => !final(self).stopped() && final(self).mind() == m && a.nodes
                        == m.nodes,
                    None => final(self).stopped(),
                }
            }),
            model::over(b.pos()) ==> final(self).visited() == old(self).visited(),
            a.nodes == final(self).visited(),
            a.move_evals@.len() <= b.pits(),
            a.depth == depth,
            a.exact == (depth is None),
            a.side_to_move == b.mover(),
            depth matches Some(d) ==> a.pv@.len() <= d,
            !model::over(b.pos()) ==> (a.best_move matches Some(m) ==> final(self).line_ends(
                model::after(old(self).terms().rules, b.pos(), m as int),
                value::deeper(keys::depth_int(depth)),
                a.pv@.skip(1),
                analysis::line_cap(b.pos()),
            )),
            model::over(b.pos()) ==> !final(self).stopped() && analysis::finished(
                b.pos(),
                keys::depth_int(depth),
                a,
            ),
            !model::over(b.pos()) ==> {
                let c = old(self).terms().setting();
                let s = b.pos();
                let d = keys::depth_int(depth);
                &&& analysis::sound(c, s, d, a)
                &&& analysis::principal(c, old(self).terms().tb, s, d, a)
                &&& !final(self).stopped() ==> analysis::complete(s, a)
                &&& !final(self).stopped() && c.modest() ==> forall|j: int|
                    model::legal(s, j) && #[trigger] value::move_value(c, s, j, d) == a.value
                        ==> old(self).score_of(b, None, a.best_move->0 as int) <= old(
                        self,
                    ).score_of(b, None, j)
            },
    {
        let ghost terms = self.terms();
        let ghost c = terms.setting();
        let ghost s = b.pos();
        let ghost d = keys::depth_int(depth);
        let side_to_move = b.turn();
        proof {
            use_type_invariant(b);
            b.lemma_seen();
            value::lemma_visits_positive(c, s, d);
            self.lemma_mind();
        }
        if b.is_terminal() {
            let margin = b.terminal_margin(side_to_move);
            return Analysis {
                exact: depth.is_none(),
                side_to_move,
                value: match depth {
                    None => margin,
                    Some(_) => margin * STORE_WEIGHT,
                },
                best_move: None,
                move_evals: Vec::new(),
                pv: Vec::new(),
                nodes: self.nodes(),
                depth,
            };
        }
        // The likely-best move goes first, so that its subtree warms the
        // transposition table and its siblings fail low quickly.
        let (moves, count) = self.ordered_moves(b, None);
        let ghost listed = moves@.take(count as int);
        proof {
            if self.untouched() {
                search::lemma_first_move(*self, *b, listed);
            }
            search::lemma_in_order(*self, *b, None, listed);
        }
        let ranks = self.rank_moves(b, depth, &moves, count);
        let ghost k = if self.stopped() {
            choose|k: int| 0 <= k <= count && #[trigger] ranks.of(c, s, d, listed, k)
        } else {
            count as int
        };
        proof {
            ranks.lemma_of(c, s, d, listed, k);
        }
        let pv = match ranks.best_move {
            None => Vec::new(),
            Some(mv) => self.variation(b, depth, mv, ranks.best),
        };
        let a = Analysis {
            exact: depth.is_none(),
            side_to_move,
            value: ranks.best,
            best_move: ranks.best_move,
            move_evals: ranks.evals,
            pv,
            nodes: self.nodes(),
            depth,
        };
        proof {
            self.lemma_mind();
            assert(analysis::sound(c, s, d, a));
            assert(analysis::principal(c, terms.tb, s, d, a));
            if !self.stopped() {
                lemma_all_covered(s, listed, a);
                model::lemma_has_move(s);
                let i = choose|i: int| model::legal(s, i);
                assert(model::legal(s, i));
                assert(listed.take(count as int) =~= listed);
                assert forall|x: int, y: int| 0 <= x < y < listed.len() implies old(self).score_of(
                    b,
                    None,
                    #[trigger] listed[x] as int,
                ) <= old(self).score_of(b, None, #[trigger] listed[y] as int) by {
                    assert(moves@[x] == listed[x]);
                    assert(moves@[y] == listed[y]);
                }
                old(self).lemma_first_tried(
                    b,
                    c,
                    d,
                    listed,
                    a.value as int,
                    a.best_move->0 as int,
                );
            }
        }
        a
    }

    /// Of several best moves, the ranking reports the one that is listed first.
    proof fn lemma_first_tried(
        &self,
        b: &Board,
        c: Setting,
        d: Option<int>,
        listed: Seq<u8>,
        best: int,
        m: int,
    )
        requires
            searcher::lists_moves(b.pos(), listed),
            forall|x: int, y: int|
                0 <= x < y < listed.len() ==> self.score_of(b, None, #[trigger] listed[x] as int)
                    <= self.score_of(b, None, #[trigger] listed[y] as int),
            exists|at: int|
                0 <= at < listed.len() && listed[at] == m && #[trigger] analysis::first_best(
                    c,
                    b.pos(),
                    d,
                    listed,
                    best,
                    at,
                ),
        ensures
            c.modest() ==> forall|j: int|
                model::legal(b.pos(), j) && #[trigger] value::move_value(c, b.pos(), j, d) == best
                    ==> self.score_of(b, None, m) <= self.score_of(b, None, j),
    {
        let s = b.pos();
        let at = choose|at: int|
            0 <= at < listed.len() && listed[at] == m && #[trigger] analysis::first_best(
                c,
                s,
                d,
                listed,
                best,
                at,
            );
        assert forall|j: int|
            c.modest() && model::legal(s, j) && #[trigger] value::move_value(c, s, j, d)
                == best implies self.score_of(b, None, m) <= self.score_of(b, None, j) by {
            reveal(analysis::first_best);
            let x = choose|x: int| 0 <= x < listed.len() && #[trigger] listed[x] == j;
            if x < at {
                assert(value::move_value(c, s, listed[x] as int, d) < best);
            } else if x > at {
                assert(self.score_of(b, None, listed[at] as int) <= self.score_of(
                    b,
                    None,
                    listed[x] as int,
                ));
            }
        }
    }

    /// The longest line that is followed.
    fn line_limit(b: &Board) -> (cap: usize)
        ensures
            cap == analysis::line_cap(b.pos()),
    {
        proof {
            use_type_invariant(b);
            b.lemma_seen();
            model::lemma_total_parts(b.pos());
            model::lemma_flip(b.pos());
            model::lemma_bounds(b.pos());
        }
        let p = b.turn();
        let stores: usize = b.store(p) as usize + b.store(p.other()) as usize;
        4 * (b.total_cells() + (b.seeds_in_play() as usize + stores))
    }

    /// The principal variation: the best move `mv`, which is worth `worth`, and the line
    /// that follows it.
    fn variation(&self, b: &Board, depth: Option<u32>, mv: usize, worth: i32) -> (pv: Vec<usize>)
        requires
            self.wf(),
            b.pits() == self.terms().pits,
            model::legal(b.pos(), mv as int),
            depth != Some(0u32),
            -INF < worth < INF,
            self.terms().setting().modest() ==> worth == value::move_value(
                self.terms().setting(),
                b.pos(),
                mv as int,
                keys::depth_int(depth),
            ),
        ensures
            pv@.len() > 0,
            pv@[0] == mv,
            analysis::best_line(
                self.terms().setting(),
                model::after(self.terms().rules, b.pos(), mv as int),
                pv@.skip(1),
                value::deeper(keys::depth_int(depth)),
            ),
            pv@.skip(1).len() <= analysis::line_cap(b.pos()),
            depth matches Some(d) ==> pv@.len() <= d,
            self.line_ends(
                model::after(self.terms().rules, b.pos(), mv as int),
                value::deeper(keys::depth_int(depth)),
                pv@.skip(1),
                analysis::line_cap(b.pos()),
            ),
            analysis::cut_off(
                self.terms().rules,
                self.terms().tb,
                model::after(self.terms().rules, b.pos(), mv as int),
                value::deeper(keys::depth_int(depth)),
                pv@.skip(1),
                analysis::line_cap(b.pos()),
            ),
    {
        proof {
            use_type_invariant(b);
            b.lemma_seen();
        }
        let r = b.apply(&self.rules(), mv);
        let child_depth: Option<u32> = match depth {
            None => None,
            Some(left) => Some((left - 1) as u32),
        };
        let cap = Self::line_limit(b);
        let next: i32 = if r.extra_turn {
            worth
        } else {
            -worth
        };
        let mut tail = self.follow_pv(&r.board, child_depth, next, cap);
        let ghost followed = tail@;
        let mut pv: Vec<usize> = vec![mv];
        pv.append(&mut tail);
        assert(pv@.skip(1) =~= followed);
        pv
    }
}

/// With every listed move evaluated, every legal one is.
proof fn lemma_all_covered(s: Seq<int>, listed: Seq<u8>, a: Analysis)
    requires
        searcher::lists_moves(s, listed),
        forall|x: int|
            0 <= x < listed.len() ==> analysis::evaluates(
                a.move_evals@,
                #[trigger] listed[x] as int,
            ),
    ensures
        analysis::complete(s, a),
{
    assert forall|i: int| #[trigger] model::legal(s, i) implies analysis::evaluates(
        a.move_evals@,
        i,
    ) by {
        let x = choose|x: int| 0 <= x < listed.len() && #[trigger] listed[x] == i;
        assert(analysis::evaluates(a.move_evals@, listed[x] as int));
    }
}

} // verus!
