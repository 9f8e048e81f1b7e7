//! The state of a search: its terms, its limits, and what it has learned.

use vstd::prelude::*;

use crate::board::{Board, Player, Rules, MAX_PITS};
use crate::clock::Deadline;
use crate::counting;
use crate::endgame::Endgame;
use crate::keys;
use crate::model;
use crate::run;
use crate::run::{Course, Mind};
use crate::tablebase::Tablebase;
use crate::tt;
use crate::tt::{Flag, Probe, Tt};
use crate::value;
use crate::value::{Setting, STORE_WEIGHT};

verus! {

/// A large finite value used as the open alpha-beta window bound.
pub const INF: i32 = 10_000_000;

/// The clock is looked at once in so many nodes.
pub const CLOCK_PERIOD: u64 = 1024;

// ---------------------------------------------------------------------------
// What a search knows
// ---------------------------------------------------------------------------

/// The position with the pits of a layout and nothing in the stores.
pub open spec fn bare(l: Seq<int>) -> Seq<int> {
    let n = (l.len() / 2) as int;
    l.subrange(0, n).push(0) + l.subrange(n, 2 * n).push(0)
}

/// What the lazy endgame table says of a layout: its future, if it has at most
/// `cutoff` seeds.
pub open spec fn lazy_claim(rules: Rules, cutoff: int, l: Seq<int>) -> Option<int> {
    if l.len() >= 2 && l.len() % 2 == 0 && counting::is_layout(l, l.len() as int, cutoff) {
        Some(value::future(rules, bare(l)))
    } else {
        None
    }
}

/// What a search knows of a layout: what the tablebase says, if there is one, and
/// otherwise what the lazy endgame table says.
pub open spec fn claim(
    rules: Rules,
    tb: Option<&Tablebase>,
    cutoff: int,
    l: Seq<int>,
) -> Option<int> {
    match tb {
        Some(t) => t.knows(l),
        None => lazy_claim(rules, cutoff, l),
    }
}

/// What a search with this tablebase, or with a lazy endgame table up to `cutoff`
/// seeds, goes by.
pub open spec fn setting(
    rules: Rules,
    tb: Option<&Tablebase>,
    cutoff: int,
    quiesce: bool,
) -> Setting {
    Setting { rules, oracle: |l: Seq<int>| claim(rules, tb, cutoff, l), quiesce }
}

proof fn lemma_bare(s: Seq<int>)
    requires
        model::valid(s),
    ensures
        model::valid(bare(value::layout(s))),
        value::layout(bare(value::layout(s))) == value::layout(s),
        forall|j: int| 0 <= j < value::layout(s).len() ==> #[trigger] value::layout(s)[j] >= 0,
{
    let l = value::layout(s);
    let n = model::pits(s);
    assert(l.len() == 2 * n);
    assert forall|j: int| 0 <= j < l.len() implies #[trigger] l[j] >= 0 by {
        if j < n {
            assert(l[j] == s[j]);
        } else {
            assert(l[j] == s[j + 1]);
        }
    }
    let t = bare(l);
    assert(t.len() == 2 * n + 2);
    assert forall|r: int| 0 <= r < t.len() implies #[trigger] t[r] >= 0 by {
        if r < n {
            assert(t[r] == l[r]);
        } else if n < r <= 2 * n {
            assert(t[r] == l[r - 1]);
        }
    }
    assert(value::layout(t) =~= l);
}

/// What the lazy endgame table says of a position is its future.
pub proof fn lemma_lazy_claim(rules: Rules, cutoff: int, s: Seq<int>)
    requires
        model::valid(s),
    ensures
        lazy_claim(rules, cutoff, value::layout(s)) == if model::in_play(s) <= cutoff {
            Some(value::future(rules, s))
        } else {
            None
        },
{
    lemma_bare(s);
    value::lemma_layout_total(s);
    let l = value::layout(s);
    assert(l.len() == 2 * model::pits(s));
    value::lemma_future_ignores_stores(rules, bare(l), s);
}

/// What a search knows is within the range of a table entry.
pub proof fn lemma_setting_bounded(
    rules: Rules,
    tb: Option<&Tablebase>,
    cutoff: int,
    quiesce: bool,
)
    requires
        cutoff <= value::MAX_CLAIM,
    ensures
        setting(rules, tb, cutoff, quiesce).bounded(),
{
    let c = setting(rules, tb, cutoff, quiesce);
    assert forall|l: Seq<int>| (#[trigger] (c.oracle)(l)) is Some implies -value::MAX_CLAIM <= (
    c.oracle)(l)->0 <= value::MAX_CLAIM by {
        if tb is None {
            let s = bare(l);
            let n = (l.len() / 2) as int;
            assert(s.len() == 2 * n + 2);
            assert forall|r: int| 0 <= r < s.len() implies #[trigger] s[r] >= 0 by {
                if r < n {
                    assert(s[r] == l[r]);
                } else if n < r <= 2 * n {
                    assert(s[r] == l[r - 1]);
                }
            }
            assert(value::layout(s) =~= l);
            value::lemma_layout_total(s);
            value::lemma_future_bound(rules, s);
        }
    }
}

/// Without a tablebase, or with a correct one, what a search knows is true.
pub proof fn lemma_setting_truthful(
    rules: Rules,
    tb: Option<&Tablebase>,
    cutoff: int,
    quiesce: bool,
)
    requires
        tb matches Some(t) ==> t.correct(rules),
    ensures
        setting(rules, tb, cutoff, quiesce).truthful(),
{
    let c = setting(rules, tb, cutoff, quiesce);
    assert forall|s: Seq<int>| model::valid(s) implies ((#[trigger] (c.oracle)(
        value::layout(s),
    )) matches Some(g) ==> g == value::future(rules, s)) by {
        match tb {
            Some(t) => {
                t.lemma_knows(s);
            },
            None => {
                lemma_lazy_claim(rules, cutoff, s);
            },
        }
    }
}

/// What a search knows is true if its tablebase, should it have one, is correct.
pub proof fn lemma_setting_truthful_if(
    rules: Rules,
    tb: Option<&Tablebase>,
    cutoff: int,
    quiesce: bool,
)
    ensures
        (tb matches Some(t) ==> t.correct(rules)) ==> setting(rules, tb, cutoff, quiesce).truthful(),
{
    if tb matches Some(t) ==> t.correct(rules) {
        lemma_setting_truthful(rules, tb, cutoff, quiesce);
    }
}

/// What a search knows is modest if its tablebase, should it have one, is correct.
pub proof fn lemma_setting_modest(
    rules: Rules,
    tb: Option<&Tablebase>,
    cutoff: int,
    quiesce: bool,
)
    requires
        tb matches Some(t) ==> t.correct(rules),
    ensures
        setting(rules, tb, cutoff, quiesce).modest(),
{
    lemma_setting_truthful(rules, tb, cutoff, quiesce);
    value::lemma_truth_is_modest(setting(rules, tb, cutoff, quiesce));
}

// ---------------------------------------------------------------------------
// What a search returns
// ---------------------------------------------------------------------------

/// What is added to a cached value: the lead when the search goes to the end of
/// the game, whose cached values leave the stores out.
pub open spec fn cache_base(s: Seq<int>, depth: Option<int>) -> int {
    match depth {
        None => model::lead(s),
        Some(_) => 0,
    }
}

/// A cached entry is right for a position: its move is legal and, by a modest oracle, its
/// value relates to that of the position as it says, the move of an exact entry has that
/// value, and that of a lower bound reaches it.
pub open spec fn entry_ok(c: Setting, s: Seq<int>, depth: Option<int>, p: Probe) -> bool {
    let v = p.value + cache_base(s, depth);
    let full = value::search_value(c, s, depth);
    &&& value::branches(c, s, depth)
    &&& p.best matches Some(m) && model::legal(s, m as int) && (c.modest() ==> match p.flag {
        Flag::Exact => full == v && value::move_value(c, s, m as int, depth) == v,
        Flag::Lower => full >= v && value::move_value(c, s, m as int, depth) >= v,
        Flag::Upper => full <= v,
    })
}

/// A cached entry is right for every position of the board size with its key.
#[verifier::opaque]
pub open spec fn entry_right(c: Setting, n: int, key: u128, p: Probe) -> bool {
    forall|s: Seq<int>, depth: Option<int>|
        model::valid(s) && model::pits(s) == n && #[trigger] keys::cache_key(s, depth) == Some(key)
            ==> entry_ok(c, s, depth, p)
}

/// Every cached entry is right.
#[verifier::opaque]
pub open spec fn cache_right(cache: Tt, c: Setting, n: int) -> bool {
    forall|key: u128, p: Probe| #[trigger] cache.holds(key, p) ==> entry_right(c, n, key, p)
}

/// No key is found in the cache, and no pit has caused a cutoff.
#[verifier::opaque]
pub open spec fn nothing_learned(cache: Tt, history: Seq<u32>) -> bool {
    &&& forall|key: u128| (#[trigger] tt::found(cache.contents(), key, 0)) is None
    &&& forall|k: int| 0 <= k < 2 * MAX_PITS ==> #[trigger] history[k] == 0
}

/// An entry that is right for one position is right for every position that shares
/// its key.
proof fn lemma_entry_right(c: Setting, s: Seq<int>, depth: Option<int>, p: Probe)
    requires
        model::valid(s),
        keys::cache_key(s, depth) is Some,
        entry_ok(c, s, depth, p),
    ensures
        entry_right(c, model::pits(s), keys::cache_key(s, depth)->0, p),
{
    reveal(entry_right);
    let key = keys::cache_key(s, depth)->0;
    assert forall|t: Seq<int>, d: Option<int>|
        model::valid(t) && model::pits(t) == model::pits(s) && #[trigger] keys::cache_key(t, d)
            == Some(key) implies entry_ok(c, t, d, p) by {
        keys::lemma_cache_key_injective(s, t, depth, d);
        if depth is None {
            value::lemma_search_ignores_stores(c, s, t);
            value::lemma_same_layout(s, t);
            let m = p.best->0 as int;
            assert(model::legal(t, m));
        }
    }
}

proof fn lemma_entry_used(c: Setting, s: Seq<int>, depth: Option<int>, key: u128, p: Probe)
    requires
        model::valid(s),
        keys::cache_key(s, depth) == Some(key),
        entry_right(c, model::pits(s), key, p),
    ensures
        entry_ok(c, s, depth, p),
{
    reveal(entry_right);
}

// ---------------------------------------------------------------------------
// The searcher
// ---------------------------------------------------------------------------

/// A search in progress: its limits, and what it has learned.
pub struct Searcher<'a> {
    rules: Rules,
    tt: Tt,
    /// Whether the transposition table is used.
    use_tt: bool,
    /// History heuristic: beta cutoffs per side and pit, used to order quiet
    /// moves. Coarse but cheap.
    history: Vec<u32>,
    /// Lazily-built in-memory endgame table, used when no precomputed tablebase is
    /// supplied.
    endgame: Endgame,
    /// Optional precomputed offline tablebase; when present it overrides the lazy
    /// endgame.
    tb: Option<&'a Tablebase>,
    /// When true, a search to a depth runs a quiescence search at the horizon
    /// (extending forcing moves) instead of evaluating immediately.
    quiesce: bool,
    nodes: u64,
    budget: u64,
    deadline: Option<Deadline>,
    aborted: bool,
    /// Pits per side of the boards that are searched.
    pits: Ghost<int>,
}

/// What a searcher is made for.
pub struct Terms<'a> {
    pub rules: Rules,
    pub tb: Option<&'a Tablebase>,
    /// The seeds in play up to which the lazy endgame table is consulted.
    pub cutoff: u32,
    pub quiesce: bool,
    /// Pits per side.
    pub pits: int,
    pub budget: u64,
    /// Whether the search watches the clock.
    pub timed: bool,
    /// Whether the transposition table is used.
    pub caching: bool,
    /// The slots up to which the transposition table grows.
    pub slots: usize,
}

impl<'a> Terms<'a> {
    /// What the searcher goes by.
    pub open spec fn setting(self) -> Setting {
        setting(self.rules, self.tb, self.cutoff as int, self.quiesce)
    }

    /// What a run of the searcher does not change.
    pub open spec fn course(self) -> Course {
        Course {
            setting: self.setting(),
            budget: self.budget as int,
            caching: self.caching,
            limit: self.slots as int,
        }
    }
}

impl<'a> Searcher<'a> {
    /// What the searcher is made for.
    pub closed spec fn terms(&self) -> Terms<'a> {
        Terms {
            rules: self.rules,
            tb: self.tb,
            cutoff: self.endgame.limit(),
            quiesce: self.quiesce,
            pits: self.pits@,
            budget: self.budget,
            timed: self.deadline is Some,
            caching: self.use_tt,
            slots: self.tt.limit(),
        }
    }

    /// What the searcher has learned, but for its endgame table, which only repeats what
    /// the rules say.
    pub closed spec fn mind(&self) -> Mind {
        Mind { slots: self.tt.contents(), history: self.history@, nodes: self.nodes as int }
    }

    /// What the searcher has learned is right to its parts.
    pub proof fn lemma_mind(&self)
        ensures
            self.mind().slots == self.cache().contents(),
            self.mind().nodes == self.visited(),
            forall|p: Player, i: int| #[trigger]
                self.cutoffs(p, i) == self.mind().history[side(p) + i],
    {
    }

    /// The transposition table.
    pub closed spec fn cache(&self) -> Tt {
        self.tt
    }

    /// The lazily-built endgame table.
    pub closed spec fn lazy(&self) -> Endgame {
        self.endgame
    }

    /// The nodes visited so far.
    pub closed spec fn visited(&self) -> u64 {
        self.nodes
    }

    /// The search ran out of its budget or its time.
    pub closed spec fn stopped(&self) -> bool {
        self.aborted
    }

    /// The cutoffs that playing pit `i` has caused for `p`.
    pub closed spec fn cutoffs(&self, p: Player, i: int) -> u32 {
        self.history@[side(p) + i]
    }

    /// The searcher has learned nothing yet: no key is found in its transposition table,
    /// and no pit has caused a cutoff.
    pub closed spec fn untouched(&self) -> bool {
        nothing_learned(self.tt, self.history@)
    }

    /// Where nothing was learned, moves are ordered by their position alone.
    pub proof fn lemma_untouched(&self, b: &Board, hint: Option<usize>, i: int)
        requires
            self.untouched(),
            0 <= i < MAX_PITS,
        ensures
            self.score_of(b, hint, i) == move_score(b.pos(), i, hint, 0),
    {
        reveal(nothing_learned);
    }

    /// What the searcher has learned is right, and it stops when its budget is
    /// used up.
    pub closed spec fn wf(&self) -> bool {
        &&& self.tt.wf()
        &&& self.endgame.wf()
        &&& self.endgame.plays() == self.rules
        &&& self.endgame.limit() <= 255
        &&& self.history@.len() == 2 * MAX_PITS
        &&& self.tb matches Some(t) ==> t.pits() == self.pits@
        &&& !self.aborted ==> self.nodes <= self.budget
        &&& cache_right(self.tt, self.terms().setting(), self.pits@)
    }

    /// The tablebase is for the boards that are searched.
    pub proof fn lemma_table_size(&self)
        requires
            self.wf(),
        ensures
            self.terms().tb matches Some(t) ==> t.pits() == self.terms().pits,
            self.terms().cutoff <= 255,
            !self.stopped() ==> self.visited() <= self.terms().budget,
            self.terms().setting().bounded(),
    {
        lemma_setting_bounded(self.rules, self.tb, self.endgame.limit() as int, self.quiesce);
    }

    /// A searcher for boards of `pits` pits per side.
    pub(crate) fn new(
        rules: Rules,
        budget: u64,
        cutoff: u32,
        tb: Option<&'a Tablebase>,
        tt_max_slots: usize,
        quiesce: bool,
        use_tt: bool,
        deadline: Option<Deadline>,
        Ghost(pits): Ghost<int>,
    ) -> (s: Searcher<'a>)
        requires
            cutoff <= 255,
            tb matches Some(t) ==> t.pits() == pits,
            tt::MIN_SLOTS <= tt_max_slots <= tt::MAX_SLOTS,
        ensures
            s.wf(),
            !s.stopped(),
            s.visited() == 0,
            s.terms() == (Terms {
                rules,
                tb,
                cutoff,
                quiesce,
                pits,
                budget,
                timed: deadline is Some,
                caching: use_tt,
                slots: tt_max_slots,
            }),
            s.mind() == fresh_mind(tt_max_slots as int),
            forall|key: u128, p: Probe| !#[trigger] s.cache().holds(key, p),
            forall|p: Player, i: int| 0 <= i < MAX_PITS ==> #[trigger] s.cutoffs(p, i) == 0,
            s.untouched(),
    {
        proof {
            reveal(cache_right);
            reveal(nothing_learned);
        }
        let tt = Tt::new(tt_max_slots);
        let history: Vec<u32> = vec![0u32; 2 * MAX_PITS];
        proof {
            assert(tt.contents() =~= fresh_mind(tt_max_slots as int).slots);
            assert(history@ =~= fresh_mind(tt_max_slots as int).history);
        }
        Searcher {
            rules,
            tt,
            use_tt,
            history,
            endgame: Endgame::new(rules, cutoff),
            tb,
            quiesce,
            nodes: 0,
            budget,
            deadline,
            aborted: false,
            pits: Ghost(pits),
        }
    }

    /// Count a node. Returns `false`, and stops the search, when it is one too
    /// many or the time is up.
    pub(crate) fn tick(&mut self) -> (on: bool)
        requires
            old(self).wf(),
            !old(self).stopped(),
        ensures
            final(self).wf(),
            final(self).terms() == old(self).terms(),
            final(self).stopped() == !on,
            final(self).cache() == old(self).cache(),
            final(self).untouched() == old(self).untouched(),
            final(self).mind() == old(self).mind().ticked(),
            !old(self).terms().timed ==> on == (final(self).mind().nodes <= old(
                self,
            ).terms().budget),
            old(self).visited() <= final(self).visited() <= old(self).visited() + 1,
            final(self).visited() > old(self).visited() || final(self).visited() == u64::MAX,
            !on ==> old(self).terms().timed || final(self).visited() > old(self).terms().budget,
    {
        if self.nodes < u64::MAX {
            self.nodes = self.nodes + 1;
        }
        if self.nodes > self.budget {
            self.aborted = true;
            return false;
        }
        if self.nodes % CLOCK_PERIOD == 0 {
            let late = match &self.deadline {
                Some(d) => d.passed(),
                None => false,
            };
            if late {
                self.aborted = true;
                return false;
            }
        }
        true
    }

    /// The static estimate of a position, for the side to move.
    pub(crate) fn heuristic(b: &Board) -> (v: i32)
        ensures
            v == value::estimate(b.pos()),
            -INF < v < INF,
    {
        let p = b.turn();
        let o = p.other();
        proof {
            use_type_invariant(b);
            b.lemma_seen();
            model::lemma_flip(b.pos());
            model::lemma_bounds(b.pos());
        }
        let store_diff: i32 = b.store(p) as i32 - b.store(o) as i32;
        store_diff * STORE_WEIGHT + (b.pit_seeds(p) as i32 - b.pit_seeds(o) as i32)
    }

    /// If the tablebase (or the lazy endgame table) covers `b`, return its exact
    /// margin from the side to move, times [`STORE_WEIGHT`] when `scaled` (to match
    /// the units of the estimate), otherwise the raw seed margin.
    pub(crate) fn resolved(&mut self, b: &Board, scaled: bool) -> (r: Option<i32>)
        requires
            old(self).wf(),
            b.pits() == old(self).terms().pits,
        ensures
            final(self).wf(),
            final(self).terms() == old(self).terms(),
            final(self).stopped() == old(self).stopped(),
            final(self).visited() == old(self).visited(),
            final(self).cache() == old(self).cache(),
            final(self).untouched() == old(self).untouched(),
            final(self).mind() == old(self).mind(),
            ({
                let known = (old(self).terms().setting().oracle)(value::layout(b.pos()));
                match r {
                    Some(v) => {
                        &&& known matches Some(g)
                        &&& v == if scaled {
                            (model::lead(b.pos()) + g) * STORE_WEIGHT
                        } else {
                            model::lead(b.pos()) + g
                        }
                        &&& -INF < v < INF
                    },
                    None => known is None,
                }
            }),
    {
        let p = b.turn();
        proof {
            use_type_invariant(b);
            b.lemma_seen();
            model::lemma_flip(b.pos());
            model::lemma_bounds(b.pos());
            lemma_lazy_claim(self.rules, self.endgame.limit() as int, b.pos());
        }
        let g: i16 = match self.tb {
            Some(tb) => match tb.lookup(b) {
                Some(g) => g,
                None => {
                    return None;
                },
            },
            None => {
                if b.seeds_in_play() > self.endgame.cutoff() {
                    return None;
                }
                self.endgame.g(b)
            },
        };
        let margin: i32 = (b.store(p) as i32 - b.store(p.other()) as i32) + g as i32;
        if scaled {
            Some(margin * STORE_WEIGHT)
        } else {
            Some(margin)
        }
    }

    /// The legal moves for the side to move, ordered to improve alpha-beta pruning,
    /// and their number. The order is that of [`move_score`], lowest first:
    ///   1. the move `hint`,
    ///   2. moves that land their last seed in the store on the first lap (an
    ///      extra turn): `seeds == distance_to_store`,
    ///   3. remaining pits, those with more cutoffs first and then those nearer
    ///      the store.
    ///
    /// The single-lap extra-turn test is exact for the common case and only ever
    /// affects ordering (never correctness), so multi-lap cases are ignored.
    pub(crate) fn ordered_moves(&self, b: &Board, hint: Option<usize>) -> (out: ([u8; 15], usize))
        requires
            self.wf(),
        ensures
            out.1 <= b.pits(),
            lists_moves(b.pos(), out.0@.take(out.1 as int)),
            forall|x: int, y: int|
                0 <= x < y < out.1 ==> self.score_of(b, hint, #[trigger] out.0@[x] as int)
                    <= self.score_of(b, hint, #[trigger] out.0@[y] as int),
            forall|x: int, y: int|
                0 <= x < y < out.1 && self.score_of(b, hint, out.0@[x] as int) == self.score_of(
                    b,
                    hint,
                    out.0@[y] as int,
                ) ==> #[trigger] out.0@[x] < #[trigger] out.0@[y],
    {
        proof {
            use_type_invariant(b);
            b.lemma_seen();
        }
        let ghost s = b.pos();
        let p = b.turn();
        let n = b.pits_per_side();
        let base: usize = match p {
            Player::P0 => 0,
            Player::P1 => MAX_PITS,
        };
        // Score each legal move once (lower score = tried earlier) and insert it
        // into the few moves that are already in order.
        let mut moves: [u8; 15] = [0u8;15];
        let mut scores: [i32; 15] = [0i32;15];
        let mut count: usize = 0;
        let mut i: usize = 0;
        while i < n
            invariant
                self.wf(),
                s == b.pos(),
                b.wf(),
                p == b.mover(),
                base == side(p),
                n == b.pits(),
                n == model::pits(s),
                n <= MAX_PITS,
                i <= n,
                count <= i,
                forall|k: int|
                    0 <= k < count ==> {
                        &&& #[trigger] moves@[k] < i
                        &&& model::legal(s, moves@[k] as int)
                        &&& scores@[k] == self.score_of(b, hint, moves@[k] as int)
                    },
                forall|j: int|
                    j < i && #[trigger] model::legal(s, j) ==> exists|k: int|
                        0 <= k < count && #[trigger] moves@[k] == j,
                forall|x: int, y: int|
                    0 <= x < y < count ==> #[trigger] moves@[x] != #[trigger] moves@[y],
                forall|x: int, y: int|
                    0 <= x < y < count ==> #[trigger] scores@[x] <= #[trigger] scores@[y],
                forall|x: int, y: int|
                    0 <= x < y < count && scores@[x] == scores@[y] ==> #[trigger] moves@[x]
                        < #[trigger] moves@[y],
            decreases n - i,
        {
            let seeds: usize = b.pit(p, i) as usize;
            if seeds != 0 {
                let mut score: i32 = -(i as i32);
                if let Some(m) = hint {
                    if i == m {
                        score = score - 1_000_000;
                    }
                }
                if seeds == n - i {
                    score = score - 10_000;
                }
                let cutoffs: u32 = self.history[base + i];
                score = score - (if cutoffs < 8_000 {
                    cutoffs as i32
                } else {
                    8_000
                });
                assert(score == self.score_of(b, hint, i as int));
                let ghost old_moves = moves@;
                let ghost old_scores = scores@;
                let mut j: usize = count;
                while j > 0 && scores[j - 1] > score
                    invariant
                        j <= count,
                        count <= i,
                        i < n,
                        n <= MAX_PITS,
                        forall|k: int|
                            0 <= k < j ==> #[trigger] moves@[k] == old_moves[k] && scores@[k]
                                == old_scores[k],
                        forall|k: int|
                            0 <= k < j ==> #[trigger] scores@[k] == old_scores[k],
                        forall|k: int|
                            j < k <= count ==> #[trigger] moves@[k] == old_moves[k - 1]
                                && scores@[k] == old_scores[k - 1],
                        forall|k: int|
                            j < k <= count ==> #[trigger] scores@[k] > score && scores@[k]
                                == old_scores[k - 1],
                    decreases j,
                {
                    scores[j] = scores[j - 1];
                    moves[j] = moves[j - 1];
                    j = j - 1;
                }
                scores[j] = score;
                moves[j] = i as u8;
                proof {
                    assert forall|m: int| m < i + 1 && #[trigger] model::legal(s, m) implies exists|
                        k: int,
                    |
                        0 <= k < count + 1 && #[trigger] moves@[k] == m by {
                        if m == i {
                            assert(moves@[j as int] == m);
                        } else {
                            let k = choose|k: int| 0 <= k < count && #[trigger] old_moves[k] == m;
                            if k < j {
                                assert(moves@[k] == m);
                            } else {
                                assert(moves@[k + 1] == m);
                            }
                        }
                    }
                    assert forall|x: int, y: int| 0 <= x < y < count + 1 implies #[trigger] scores@[x]
                        <= #[trigger] scores@[y] by {
                        if y < j {
                            assert(old_scores[x] <= old_scores[y]);
                        } else if y == j {
                            assert(j > 0);
                            assert(old_scores[x] <= old_scores[j - 1]);
                            assert(scores@[j - 1] == old_scores[j - 1]);
                        } else if x < j {
                            assert(old_scores[x] <= old_scores[y - 1]);
                        } else if x > j {
                            assert(old_scores[x - 1] <= old_scores[y - 1]);
                        }
                    }
                    assert forall|x: int, y: int| 0 <= x < y < count + 1 implies #[trigger] moves@[x]
                        != #[trigger] moves@[y] by {
                        let x0 = if x < j { x } else { x - 1 };
                        let y0 = if y < j { y } else { y - 1 };
                        if x != j && y != j {
                            assert(old_moves[x0] != old_moves[y0]);
                        } else if x == j {
                            assert(old_moves[y0] < i);
                        } else {
                            assert(old_moves[x0] < i);
                        }
                    }
                    assert forall|x: int, y: int|
                        0 <= x < y < count + 1 && scores@[x] == scores@[y] implies #[trigger] moves@[x]
                        < #[trigger] moves@[y] by {
                        let x0 = if x < j { x } else { x - 1 };
                        let y0 = if y < j { y } else { y - 1 };
                        if x != j && y != j {
                            assert(old_moves[x0] < old_moves[y0]);
                        } else if x == j {
                            assert(scores@[y] > score);
                        } else {
                            assert(old_moves[x0] < i);
                        }
                    }
                    assert forall|k: int| 0 <= k < count + 1 implies {
                        &&& #[trigger] moves@[k] < i + 1
                        &&& model::legal(s, moves@[k] as int)
                        &&& scores@[k] == self.score_of(b, hint, moves@[k] as int)
                    } by {
                        let k0 = if k < j { k } else { k - 1 };
                        if k != j {
                            assert(old_moves[k0] < i);
                        }
                    }
                }
                count = count + 1;
            }
            i = i + 1;
        }
        proof {
            let listed = moves@.take(count as int);
            assert forall|j: int| #[trigger] model::legal(s, j) implies exists|k: int|
                0 <= k < listed.len() && #[trigger] listed[k] == j by {
                let k = choose|k: int| 0 <= k < count && #[trigger] moves@[k] == j;
                assert(listed[k] == j);
            }
            assert forall|x: int, y: int| 0 <= x < y < count implies self.score_of(
                b,
                hint,
                #[trigger] moves@[x] as int,
            ) <= self.score_of(b, hint, #[trigger] moves@[y] as int) by {
                assert(scores@[x] <= scores@[y]);
            }
        }
        (moves, count)
    }

    /// What is added to a cached value of `b`. A search to the end of the game
    /// caches the store-independent part of a value: adding the lead back gives the
    /// position's true margin. A search to a depth caches values as they are.
    pub(crate) fn cached_from(b: &Board, depth: Option<u32>) -> (base: i32)
        ensures
            base == cache_base(b.pos(), keys::depth_int(depth)),
            -255 <= base <= 255,
    {
        match depth {
            None => {
                proof {
                    use_type_invariant(b);
                    b.lemma_seen();
                    model::lemma_flip(b.pos());
                }
                b.store(b.turn()) as i32 - b.store(b.turn().other()) as i32
            },
            Some(_) => 0,
        }
    }

    /// The key under which `b` is cached, if it is, and what is cached for it.
    pub(crate) fn recall(&self, b: &Board, depth: Option<u32>) -> (out: (
        Option<u128>,
        Option<Probe>,
    ))
        requires
            self.wf(),
            b.pits() == self.terms().pits,
        ensures
            out.0 == if self.terms().caching {
                keys::cache_key(b.pos(), keys::depth_int(depth))
            } else {
                None
            },
            self.untouched() ==> out.1 is None,
            out.1 == match out.0 {
                Some(k) => tt::found(self.cache().contents(), k, 0),
                None => None,
            },
            out.1 matches Some(e) ==> out.0 is Some && entry_ok(
                self.terms().setting(),
                b.pos(),
                keys::depth_int(depth),
                e,
            ),
    {
        proof {
            reveal(nothing_learned);
        }
        if !self.use_tt {
            return (None, None);
        }
        match keys::search_key(b, depth) {
            None => (None, None),
            Some(k) => match self.tt.get(k) {
                None => (Some(k), None),
                Some(e) => {
                    proof {
                        use_type_invariant(b);
                        b.lemma_seen();
                        reveal(cache_right);
                        assert(self.tt.holds(k, e));
                        lemma_entry_used(
                            self.terms().setting(),
                            b.pos(),
                            keys::depth_int(depth),
                            k,
                            e,
                        );
                    }
                    (Some(k), Some(e))
                },
            },
        }
    }

    /// The rules of the game.
    pub(crate) fn rules(&self) -> (rules: Rules)
        ensures
            rules == self.terms().rules,
    {
        self.rules
    }

    /// Whether forcing moves are played out at the depth horizon.
    pub(crate) fn quiesces(&self) -> (q: bool)
        ensures
            q == self.terms().quiesce,
    {
        self.quiesce
    }

    /// The precomputed tablebase, if there is one.
    pub(crate) fn tablebase(&self) -> (tb: Option<&'a Tablebase>)
        ensures
            tb == self.terms().tb,
    {
        self.tb
    }

    /// Count nodes anew, keeping what was learned.
    pub(crate) fn restart(&mut self)
        requires
            old(self).wf(),
        ensures
            final(self).wf(),
            final(self).terms() == old(self).terms(),
            final(self).visited() == 0,
            !final(self).stopped(),
            final(self).cache() == old(self).cache(),
            final(self).lazy() == old(self).lazy(),
            forall|p: Player, i: int| #[trigger] final(self).cutoffs(p, i) == old(self).cutoffs(p, i),
    {
        self.nodes = 0;
        self.aborted = false;
    }

    /// The nodes visited so far.
    pub(crate) fn nodes(&self) -> (n: u64)
        ensures
            n == self.visited(),
    {
        self.nodes
    }

    /// Cache the value of a position, clamped to the range of an entry.
    pub(crate) fn remember(
        &mut self,
        key: u128,
        v: i32,
        flag: Flag,
        best: usize,
        Ghost(s): Ghost<Seq<int>>,
        Ghost(depth): Ghost<Option<int>>,
    )
        requires
            old(self).wf(),
            model::valid(s),
            model::pits(s) == old(self).terms().pits,
            model::pits(s) <= MAX_PITS,
            keys::cache_key(s, depth) == Some(key),
            entry_ok(
                old(self).terms().setting(),
                s,
                depth,
                (Probe { value: run::clamped(v as int) as i16, flag, best: Some(best) }),
            ),
        ensures
            final(self).wf(),
            final(self).terms() == old(self).terms(),
            final(self).visited() == old(self).visited(),
            final(self).stopped() == old(self).stopped(),
            final(self).lazy() == old(self).lazy(),
            final(self).mind() == old(self).mind().noted(
                old(self).terms().slots as int,
                key,
                v as int,
                flag,
                best as int,
            ),
            forall|p: Player, i: int| #[trigger]
                final(self).cutoffs(p, i) == old(self).cutoffs(p, i),
            tt::stored(
                old(self).cache(),
                final(self).cache(),
                key,
                (Probe { value: run::clamped(v as int) as i16, flag, best: Some(best) }),
            ),
    {
        let w: i16 = if v < i16::MIN as i32 {
            i16::MIN
        } else if v > i16::MAX as i32 {
            i16::MAX
        } else {
            v as i16
        };
        let p = Probe { value: w, flag, best: Some(best) };
        let ghost c = self.terms().setting();
        let ghost n = self.pits@;
        proof {
            keys::lemma_cache_key_range(s, depth);
            lemma_entry_right(c, s, depth, p);
        }
        let ghost before = self.tt;
        self.tt.store(key, p);
        assert(cache_right(self.tt, c, n)) by {
            reveal(cache_right);
            assert forall|k: u128, q: Probe| #[trigger] self.tt.holds(k, q) implies entry_right(
                c,
                n,
                k,
                q,
            ) by {
                if k != key {
                    assert(before.holds(k, q));
                } else if q != p {
                    assert(before.holds(key, q));
                }
            }
        }
    }

    /// Count a beta cutoff of pit `i`.
    pub(crate) fn reward(&mut self, p: Player, i: usize)
        requires
            old(self).wf(),
            i < MAX_PITS,
        ensures
            final(self).wf(),
            final(self).terms() == old(self).terms(),
            final(self).visited() == old(self).visited(),
            final(self).stopped() == old(self).stopped(),
            final(self).cache() == old(self).cache(),
            final(self).lazy() == old(self).lazy(),
            final(self).mind() == old(self).mind().rewarded(p, i as int),
            final(self).cutoffs(p, i as int) == if old(self).cutoffs(p, i as int) < u32::MAX {
                old(self).cutoffs(p, i as int) + 1
            } else {
                u32::MAX as int
            },
            forall|q: Player, j: int|
                0 <= j < MAX_PITS && (q != p || j != i) ==> #[trigger] final(self).cutoffs(q, j)
                    == old(self).cutoffs(q, j),
    {
        let at: usize = match p {
            Player::P0 => i,
            Player::P1 => MAX_PITS + i,
        };
        let cutoffs: u32 = self.history[at];
        if cutoffs < u32::MAX {
            self.history.set(at, cutoffs + 1);
        }
    }

    /// The score by which the searcher orders pit `i` on board `b`.
    pub open spec fn score_of(&self, b: &Board, hint: Option<usize>, i: int) -> int {
        move_score(b.pos(), i, hint, self.cutoffs(b.mover(), i) as int)
    }

    /// Whether the search ran out of its budget or its time.
    pub fn is_stopped(&self) -> (stopped: bool)
        ensures
            stopped == self.stopped(),
    {
        self.aborted
    }
}

/// What a searcher starts with.
pub open spec fn fresh_mind(limit: int) -> Mind {
    Mind {
        slots: Seq::new(
            (if tt::START_SLOTS < limit {
                tt::START_SLOTS as int
            } else {
                limit
            }) as nat,
            |i: int| 0u128,
        ),
        history: Seq::new((2 * MAX_PITS) as nat, |i: int| 0u32),
        nodes: 0,
    }
}

/// The score by which pit `i` is ordered, given the move `hint` to try first and the
/// cutoffs that the pit has caused: lower scores are tried earlier.
pub open spec fn move_score(s: Seq<int>, i: int, hint: Option<usize>, cutoffs: int) -> int {
    -i - (if hint matches Some(m) && m == i {
        1_000_000int
    } else {
        0
    }) - (if s[i] == model::pits(s) - i {
        10_000int
    } else {
        0
    }) - (if cutoffs < 8_000 {
        cutoffs
    } else {
        8_000
    })
}

/// The legal moves of a position, each once.
pub open spec fn lists_moves(s: Seq<int>, moves: Seq<u8>) -> bool {
    &&& forall|k: int| 0 <= k < moves.len() ==> model::legal(s, #[trigger] moves[k] as int)
    &&& forall|i: int| #[trigger]
        model::legal(s, i) ==> exists|k: int| 0 <= k < moves.len() && #[trigger] moves[k] == i
    &&& forall|x: int, y: int|
        0 <= x < y < moves.len() ==> #[trigger] moves[x] != #[trigger] moves[y]
}

/// Where the history of a player starts.
pub open spec fn side(p: Player) -> int {
    match p {
        Player::P0 => 0,
        Player::P1 => MAX_PITS as int,
    }
}

// ---------------------------------------------------------------------------
// Laws of move order
// ---------------------------------------------------------------------------

/// The order in which moves are tried: the hinted move before all others; then those whose
/// seeds just reach the store; and among moves that are alike in this, those with more
/// cutoffs, of which no more than 8000 count, and nearer to the store, a cutoff being worth
/// as much as a pit.
pub proof fn lemma_move_order(
    s: Seq<int>,
    i: int,
    j: int,
    hint: Option<usize>,
    cutoffs_i: int,
    cutoffs_j: int,
)
    requires
        0 <= i < s.len() / 2 - 1,
        0 <= j < s.len() / 2 - 1,
        i != j,
        s.len() <= 32,
        cutoffs_i >= 0,
        cutoffs_j >= 0,
    ensures
        ({
            let n = s.len() as int / 2 - 1;
            let a = move_score(s, i, hint, cutoffs_i);
            let b = move_score(s, j, hint, cutoffs_j);
            let hinted_i = hint matches Some(m) && m == i;
            let hinted_j = hint matches Some(m) && m == j;
            &&& hinted_i ==> a < b
            &&& !hinted_i && !hinted_j && i + s[i] == n && j + s[j] != n ==> a < b
            &&& !hinted_i && !hinted_j && (i + s[i] == n <==> j + s[j] == n) && cutoffs_i <= 8000
                && cutoffs_j <= 8000 ==> (a < b <==> i + cutoffs_i > j + cutoffs_j)
            &&& !hinted_i && !hinted_j && (i + s[i] == n <==> j + s[j] == n) && cutoffs_i >= 8000
                && cutoffs_j >= 8000 ==> (a < b <==> i > j)
        }),
{
}

/// The lazy endgame table knows exactly the positions with few seeds in play, and knows the
/// truth of them; a tablebase overrides it.
pub proof fn lemma_claims(rules: Rules, tb: Option<&Tablebase>, cutoff: int, quiesce: bool, s: Seq<int>)
    requires
        model::valid(s),
    ensures
        tb is None && model::in_play(s) <= cutoff ==> (setting(rules, tb, cutoff, quiesce).oracle)(
            value::layout(s),
        ) == Some(value::game_value(rules, s) - model::lead(s)),
        tb is None && model::in_play(s) > cutoff ==> (setting(rules, tb, cutoff, quiesce).oracle)(
            value::layout(s),
        ) is None,
        tb matches Some(t) ==> (setting(rules, tb, cutoff, quiesce).oracle)(value::layout(s))
            == t.knows(value::layout(s)),
        setting(rules, tb, cutoff, quiesce).rules == rules,
        setting(rules, tb, cutoff, quiesce).quiesce == quiesce,
{
    lemma_lazy_claim(rules, cutoff, s);
}

} // verus!
