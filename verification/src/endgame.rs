//! Store-independent endgame database.
//!
//! The optimal *future* store differential of a position, [`value::future`],
//! depends only on the seed counts in the **pits** and the side to move, never
//! on the seeds already banked in the two stores (those are a sunk constant
//! added to the final margin). For any position:
//!
//! ```text
//! optimal_margin = (my_store - opp_store) + future(pits, side_to_move)
//! ```
//!
//! Every position that shares the same pit layout therefore collapses to a
//! single entry. The future is computed by a memoised negamax where each move's
//! immediate reward is the number of seeds it banks into the mover's own store.
//! The recursion terminates because each move lowers the seeds in play or, with
//! those unchanged, the distance that they have yet to travel.

use vstd::prelude::*;

use crate::board::{Board, Rules};
use crate::hash;
use crate::hash::U128Map;
use crate::keys;
use crate::model;
use crate::value;

verus! {

/// The key of a position in the memo: its pits, and the size of the board.
pub open spec fn memo_key(s: Seq<int>) -> u128 {
    (keys::packed(value::layout(s)) * 16 + model::pits(s)) as u128
}

/// Positions with the same key have the same future.
proof fn lemma_memo_key(rules: Rules, s: Seq<int>, t: Seq<int>)
    requires
        model::valid(s),
        model::valid(t),
        keys::packable(s),
        keys::packable(t),
        memo_key(s) == memo_key(t),
    ensures
        value::future(rules, s) == value::future(rules, t),
{
    lemma_memo_key_fits(s);
    lemma_memo_key_fits(t);
    let x = keys::packed(value::layout(s));
    let y = keys::packed(value::layout(t));
    assert(x * 16 + model::pits(s) == y * 16 + model::pits(t));
    assert(x == y && model::pits(s) == model::pits(t));
    keys::lemma_packed_injective(value::layout(s), value::layout(t));
    value::lemma_future_ignores_stores(rules, s, t);
}

proof fn lemma_memo_key_fits(s: Seq<int>)
    requires
        model::valid(s),
        keys::packable(s),
    ensures
        0 <= keys::packed(value::layout(s)) * 16 + model::pits(s) <= u128::MAX,
        memo_key(s) as int == keys::packed(value::layout(s)) * 16 + model::pits(s),
        value::layout(s).len() == 2 * model::pits(s),
        1 <= model::pits(s) <= 10,
{
    keys::lemma_packed_bound(value::layout(s));
    keys::lemma_rows();
    assert(keys::rows(value::layout(s).len()) <= keys::rows(20));
}

/// A lazily-built table of optimal futures, keyed on pit layout.
pub struct Endgame {
    rules: Rules,
    /// Maximum seeds-in-play this table is consulted for.
    cutoff: u32,
    memo: U128Map<i16>,
}

impl Endgame {
    /// The rules that the table is for.
    pub closed spec fn plays(&self) -> Rules {
        self.rules
    }

    /// The seeds in play up to which the table is consulted.
    pub closed spec fn limit(&self) -> u32 {
        self.cutoff
    }

    /// The number of positions that are memoised.
    pub closed spec fn size(&self) -> nat {
        self.memo.in_order().len()
    }

    /// A key is memoised.
    pub closed spec fn remembers(&self, key: u128) -> bool {
        self.memo.has(key)
    }

    /// What is memoised for a key.
    pub closed spec fn recalls(&self, key: u128) -> i16 {
        self.memo.value_of(key)
    }

    /// What is memoised is right.
    pub closed spec fn wf(&self) -> bool {
        &&& self.memo.wf()
        &&& forall|s: Seq<int>|
            model::valid(s) && keys::packable(s) && self.memo.has(#[trigger] memo_key(s))
                ==> self.memo.value_of(memo_key(s)) == value::future(self.rules, s)
    }

    /// An empty table.
    pub fn new(rules: Rules, cutoff: u32) -> (e: Endgame)
        ensures
            e.wf(),
            e.plays() == rules,
            e.limit() == cutoff,
            e.size() == 0,
            forall|key: u128| !#[trigger] e.remembers(key),
    {
        Endgame { rules, cutoff, memo: U128Map::new() }
    }

    /// The seeds in play up to which the table is consulted.
    pub fn cutoff(&self) -> (c: u32)
        ensures
            c == self.limit(),
    {
        self.cutoff
    }

    /// The number of positions that are memoised.
    pub fn len(&self) -> (n: usize)
        ensures
            n == self.size(),
    {
        self.memo.len()
    }

    /// Whether no position is memoised.
    pub fn is_empty(&self) -> (empty: bool)
        ensures
            empty == (self.size() == 0),
    {
        self.memo.is_empty()
    }

    /// The memo key of a position: mover's pits first, stores excluded, so both
    /// mirrors of a layout and every store filling share one entry. `None` if
    /// the layout is too large to pack.
    fn key(b: &Board) -> (key: Option<u128>)
        ensures
            match key {
                Some(k) => keys::packable(b.pos()) && k == memo_key(b.pos()),
                None => !keys::packable(b.pos()),
            },
    {
        match keys::layout_key(b) {
            None => None,
            Some(k) => {
                proof {
                    use_type_invariant(b);
                    b.lemma_seen();
                    lemma_memo_key_fits(b.pos());
                }
                Some(k * 16 + b.pits_per_side() as u128)
            },
        }
    }

    /// Memoise the future `v` of position `s` under its key, while there is room.
    fn remember(&mut self, key: u128, v: i16, Ghost(s): Ghost<Seq<int>>)
        requires
            old(self).wf(),
            model::valid(s),
            keys::packable(s),
            key == memo_key(s),
            v == value::future(old(self).rules, s),
        ensures
            final(self).wf(),
            final(self).rules == old(self).rules,
            final(self).cutoff == old(self).cutoff,
            old(self).size() >= hash::MAX_ENTRIES ==> *final(self) == *old(self),
            old(self).size() < hash::MAX_ENTRIES ==> final(self).remembers(key)
                && final(self).recalls(key) == v,
            old(self).size() < hash::MAX_ENTRIES && !old(self).remembers(key)
                ==> final(self).size() == old(self).size() + 1,
            old(self).remembers(key) ==> final(self).size() == old(self).size(),
            forall|k: u128|
                k != key ==> #[trigger] final(self).remembers(k) == old(self).remembers(k),
            forall|k: u128|
                k != key && old(self).remembers(k) ==> #[trigger] final(self).recalls(k) == old(
                    self,
                ).recalls(k),
            forall|k: u128| old(self).remembers(k) ==> #[trigger] final(self).remembers(k),
    {
        if self.memo.len() < hash::MAX_ENTRIES {
            let ghost rules = self.rules;
            let ghost before = self.memo;
            self.memo.insert(key, v);
            proof {
                assert forall|t: Seq<int>|
                    model::valid(t) && keys::packable(t) && self.memo.has(
                        #[trigger] memo_key(t),
                    ) implies self.memo.value_of(memo_key(t)) == value::future(rules, t) by {
                    if memo_key(t) == key {
                        lemma_memo_key(rules, s, t);
                    } else {
                        assert(before.has(memo_key(t)));
                    }
                }
                assert forall|k: u128| before.has(k) implies #[trigger] self.memo.has(k) by {
                    if k != key {
                        assert(self.memo.has(k) == before.has(k));
                    }
                }
            }
        }
    }

    /// Optimal future store differential (mover minus opponent) from `b`,
    /// independent of the current store contents.
    pub fn g(&mut self, b: &Board) -> (g: i16)
        requires
            old(self).wf(),
        ensures
            g == value::future(old(self).plays(), b.pos()),
            -model::in_play(b.pos()) <= g <= model::in_play(b.pos()),
            -255 <= g <= 255,
            final(self).wf(),
            final(self).plays() == old(self).plays(),
            final(self).limit() == old(self).limit(),
            forall|key: u128|
                old(self).remembers(key) ==> #[trigger] final(self).remembers(key),
            model::over(b.pos()) ==> *final(self) == *old(self),
            !model::over(b.pos()) && keys::packable(b.pos()) ==> final(self).remembers(
                memo_key(b.pos()),
            ) || final(self).size() >= hash::MAX_ENTRIES,
        decreases model::in_play(b.pos()), model::weight(b.pos()),
    {
        let ghost rules = self.rules;
        let ghost s = b.pos();
        let p = b.turn();
        proof {
            use_type_invariant(b);
            b.lemma_seen();
            model::lemma_bounds(s);
            value::lemma_future_bound(rules, s);
            model::lemma_flip(b.seen_by(crate::board::Player::P0));
        }
        if b.is_terminal() {
            // Game over: each side sweeps its own remaining pit seeds.
            return b.pit_seeds(p) as i16 - b.pit_seeds(p.other()) as i16;
        }
        let key = Self::key(b);
        if let Some(k) = key {
            if let Some(v) = self.memo.get(k) {
                return v;
            }
        }
        let n = b.pits_per_side();
        let store_before = b.store(p) as i16;
        let mut best: i16 = i16::MIN;
        let mut i: usize = 0;
        proof {
            value::lemma_game_value_is_best(rules, s);
        }
        while i < n
            invariant
                n == b.pits(),
                n == model::pits(s),
                i <= n,
                s == b.pos(),
                p == b.mover(),
                model::valid(s),
                model::total(s) <= 255,
                store_before == model::bank(s),
                self.wf(),
                self.rules == rules,
                old(self).rules == rules,
                self.cutoff == old(self).cutoff,
                forall|key: u128| old(self).remembers(key) ==> #[trigger] self.remembers(key),
                best == i16::MIN || exists|j: int|
                    model::legal(s, j) && #[trigger] value::move_margin(rules, s, j)
                        - model::lead(s) == best,
                forall|j: int|
                    0 <= j < i && model::legal(s, j) ==> #[trigger] value::move_margin(rules, s, j)
                        - model::lead(s) <= best,
            decreases n - i,
        {
            if b.pit(p, i) != 0 {
                proof {
                    model::lemma_played(rules, s, i as int);
                    model::lemma_after(rules, s, i as int);
                    model::lemma_bounds(s);
                    model::lemma_bounds(model::played(rules, s, i as int));
                    value::lemma_future_recursion(rules, s, i as int);
                }
                let r = b.apply(&self.rules, i);
                // Seeds banked by this move.
                let gain: i16 = r.board.store(p) as i16 - store_before;
                let child = self.g(&r.board);
                let v: i16 = if r.extra_turn {
                    gain + child
                } else {
                    gain - child
                };
                assert(v == value::move_margin(rules, s, i as int) - model::lead(s));
                if v > best {
                    best = v;
                }
            }
            i = i + 1;
        }
        proof {
            let j = choose|j: int|
                model::legal(s, j) && #[trigger] value::move_margin(rules, s, j)
                    == value::game_value(rules, s);
            assert(best >= value::game_value(rules, s) - model::lead(s));
            assert(best != i16::MIN);
            assert(best == value::future(rules, s));
        }
        if let Some(k) = key {
            self.remember(k, best, Ghost(s));
        }
        best
    }
}

} // verus!
