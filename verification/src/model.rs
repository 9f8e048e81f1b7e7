//! The rules of Kalah over mathematical sequences.
//!
//! A position is modelled as one player sees it: a sequence of `2n + 2` seed
//! counts holding, in order, that player's `n` pits, that player's store, the
//! other player's `n` pits and the other player's store. Seeds travel towards
//! higher indices and wrap around. Because both players see the board in the
//! same way, one set of definitions serves them both, and passing the turn is
//! the exchange of the two halves ([`flip`]).

use vstd::prelude::*;

use crate::board::Rules;

verus! {

// ---------------------------------------------------------------------------
// Rows and positions
// ---------------------------------------------------------------------------

/// The number of seeds in a row of cells.
pub open spec fn total(row: Seq<int>) -> int
    decreases row.len(),
{
    if row.len() == 0 {
        0
    } else {
        total(row.drop_last()) + row.last()
    }
}

/// Pits per side of a position.
pub open spec fn pits(s: Seq<int>) -> int {
    s.len() / 2 - 1
}

/// A sequence is a position when it has two equally long halves, each made of
/// at least one pit and a store, and holds no negative count.
pub open spec fn valid(s: Seq<int>) -> bool {
    &&& s.len() >= 4
    &&& s.len() % 2 == 0
    &&& forall|r: int| 0 <= r < s.len() ==> #[trigger] s[r] >= 0
}

/// The pits of the player who sees the position.
pub open spec fn mine(s: Seq<int>) -> Seq<int> {
    s.subrange(0, pits(s))
}

/// The pits of the other player.
pub open spec fn theirs(s: Seq<int>) -> Seq<int> {
    s.subrange(pits(s) + 1, 2 * pits(s) + 1)
}

/// The store of the player who sees the position.
pub open spec fn bank(s: Seq<int>) -> int {
    s[pits(s)]
}

/// The store of the other player.
pub open spec fn their_bank(s: Seq<int>) -> int {
    s[2 * pits(s) + 1]
}

/// How far ahead the player's store is.
pub open spec fn lead(s: Seq<int>) -> int {
    bank(s) - their_bank(s)
}

/// Seeds that are still in the pits of either side.
pub open spec fn in_play(s: Seq<int>) -> int {
    total(mine(s)) + total(theirs(s))
}

/// The same position as the other player sees it.
pub open spec fn flip(s: Seq<int>) -> Seq<int> {
    Seq::new(
        s.len(),
        |r: int|
            if r <= pits(s) {
                s[r + pits(s) + 1]
            } else {
                s[r - pits(s) - 1]
            },
    )
}

/// A row without a single seed.
pub open spec fn empty_row(row: Seq<int>) -> bool {
    forall|j: int| 0 <= j < row.len() ==> #[trigger] row[j] == 0
}

/// The game is over when either side has no seed in its pits.
pub open spec fn over(s: Seq<int>) -> bool {
    empty_row(mine(s)) || empty_row(theirs(s))
}

/// Pit `i` may be played: it is one of the player's own and holds a seed.
pub open spec fn legal(s: Seq<int>, i: int) -> bool {
    0 <= i < pits(s) && s[i] > 0
}

/// The legal pits below `k`, ascending.
pub open spec fn legal_below(s: Seq<int>, k: int) -> Seq<int>
    decreases k,
{
    if k <= 0 {
        Seq::empty()
    } else if legal(s, k - 1) {
        legal_below(s, k - 1).push(k - 1)
    } else {
        legal_below(s, k - 1)
    }
}

/// The legal pits, ascending.
pub open spec fn legal_pits(s: Seq<int>) -> Seq<int> {
    legal_below(s, pits(s))
}

// ---------------------------------------------------------------------------
// Moves
// ---------------------------------------------------------------------------

/// The cell that follows `at` when sowing with `n` pits per side: the next one
/// counterclockwise, passing over the other player's store.
pub open spec fn step(n: int, at: int) -> int {
    if at == 2 * n {
        0
    } else {
        at + 1
    }
}

/// Sow `k` seeds, one per cell, into the cells that follow `at`.
pub open spec fn sow(s: Seq<int>, at: int, k: int) -> Seq<int>
    decreases k,
{
    if k <= 0 {
        s
    } else {
        let r = step(pits(s), at);
        sow(s.update(r, s[r] + 1), r, k - 1)
    }
}

/// The cell that takes the last of `k` seeds sown after `at`.
pub open spec fn landing(n: int, at: int, k: int) -> int
    decreases k,
{
    if k <= 0 {
        at
    } else {
        landing(n, step(n, at), k - 1)
    }
}

/// The position after the seeds of pit `i` are sown and before any capture.
pub open spec fn sown(s: Seq<int>, i: int) -> Seq<int> {
    sow(s.update(i, 0), i, s[i])
}

/// The cell that takes the last seed of pit `i`.
pub open spec fn last_cell(s: Seq<int>, i: int) -> int {
    landing(pits(s), i, s[i])
}

/// The last seed of pit `i` lands in the player's own store.
pub open spec fn extra_turn(s: Seq<int>, i: int) -> bool {
    last_cell(s, i) == pits(s)
}

/// The last seed of pit `i` lands in an own pit that was empty, and the rules
/// let it take the pit across the board.
pub open spec fn captures(rules: Rules, s: Seq<int>, i: int) -> bool {
    let t = sown(s, i);
    let e = last_cell(s, i);
    &&& 0 <= e < pits(s)
    &&& t[e] == 1
    &&& (t[2 * pits(s) - e] > 0 || !rules.capture_requires_nonempty_opposite)
}

/// The position after pit `i` is played, as the player who moved sees it.
pub open spec fn played(rules: Rules, s: Seq<int>, i: int) -> Seq<int> {
    let t = sown(s, i);
    let e = last_cell(s, i);
    if captures(rules, s, i) {
        let across = 2 * pits(s) - e;
        t.update(e, 0).update(across, 0).update(pits(s), t[pits(s)] + t[e] + t[across])
    } else {
        t
    }
}

/// The position after pit `i` is played, as the player whose turn it then is
/// sees it.
pub open spec fn after(rules: Rules, s: Seq<int>, i: int) -> Seq<int> {
    if extra_turn(s, i) {
        played(rules, s, i)
    } else {
        flip(played(rules, s, i))
    }
}

/// Seeds that playing pit `i` adds to the player's own store.
pub open spec fn gain(rules: Rules, s: Seq<int>, i: int) -> int {
    bank(played(rules, s, i)) - bank(s)
}

// ---------------------------------------------------------------------------
// Rows: sums and weights
// ---------------------------------------------------------------------------

pub proof fn lemma_total_nonneg(row: Seq<int>)
    requires
        forall|j: int| 0 <= j < row.len() ==> #[trigger] row[j] >= 0,
    ensures
        total(row) >= 0,
        forall|j: int| 0 <= j < row.len() ==> #[trigger] row[j] <= total(row),
    decreases row.len(),
{
    if row.len() > 0 {
        lemma_total_nonneg(row.drop_last());
        assert forall|j: int| 0 <= j < row.len() implies #[trigger] row[j] <= total(row) by {
            if j < row.len() - 1 {
                assert(row.drop_last()[j] == row[j]);
            }
        }
    }
}

pub proof fn lemma_total_update(row: Seq<int>, j: int, v: int)
    requires
        0 <= j < row.len(),
    ensures
        total(row.update(j, v)) == total(row) - row[j] + v,
    decreases row.len(),
{
    let u = row.update(j, v);
    if j == row.len() - 1 {
        assert(u.drop_last() =~= row.drop_last());
    } else {
        assert(u.drop_last() =~= row.drop_last().update(j, v));
        lemma_total_update(row.drop_last(), j, v);
    }
}

pub proof fn lemma_total_concat(a: Seq<int>, b: Seq<int>)
    ensures
        total(a + b) == total(a) + total(b),
    decreases b.len(),
{
    if b.len() == 0 {
        assert(a + b =~= a);
    } else {
        assert((a + b).drop_last() =~= a + b.drop_last());
        lemma_total_concat(a, b.drop_last());
    }
}

pub proof fn lemma_total_zero(row: Seq<int>)
    requires
        empty_row(row),
    ensures
        total(row) == 0,
    decreases row.len(),
{
    if row.len() > 0 {
        assert(row[row.len() - 1] == 0);
        assert forall|j: int| 0 <= j < row.drop_last().len() implies #[trigger] row.drop_last()[j]
            == 0 by {
            assert(row[j] == 0);
        }
        lemma_total_zero(row.drop_last());
    }
}

/// Seeds weighted by their distance to the store at the end of the row.
pub open spec fn row_weight(row: Seq<int>) -> int
    decreases row.len(),
{
    if row.len() == 0 {
        0
    } else {
        row.len() * row.first() + row_weight(row.drop_first())
    }
}

/// The distance that the seeds in play still have to travel, each to the store
/// of the side that it lies on.
pub open spec fn weight(s: Seq<int>) -> int {
    row_weight(mine(s)) + row_weight(theirs(s))
}

proof fn lemma_row_weight_nonneg(row: Seq<int>)
    requires
        forall|j: int| 0 <= j < row.len() ==> #[trigger] row[j] >= 0,
    ensures
        row_weight(row) >= 0,
    decreases row.len(),
{
    if row.len() > 0 {
        assert forall|j: int| 0 <= j < row.drop_first().len() implies #[trigger] row.drop_first()[j]
            >= 0 by {
            assert(row.drop_first()[j] == row[j + 1]);
        }
        lemma_row_weight_nonneg(row.drop_first());
        assert(row[0] >= 0);
        assert(row.len() * row.first() >= 0) by (nonlinear_arith)
            requires
                row.len() >= 0,
                row.first() >= 0,
        ;
    }
}

proof fn lemma_row_weight_update(row: Seq<int>, j: int, v: int)
    requires
        0 <= j < row.len(),
    ensures
        row_weight(row.update(j, v)) == row_weight(row) + (row.len() - j) * (v - row[j]),
    decreases row.len(),
{
    let u = row.update(j, v);
    if j == 0 {
        assert(u.drop_first() =~= row.drop_first());
        assert(row.len() * v == row.len() * row[0] + (row.len() - j) * (v - row[j]))
            by (nonlinear_arith)
            requires
                j == 0,
        ;
    } else {
        assert(u.drop_first() =~= row.drop_first().update(j - 1, v));
        lemma_row_weight_update(row.drop_first(), j - 1, v);
        assert(row.drop_first()[j - 1] == row[j]);
        assert((row.drop_first().len() - (j - 1)) == row.len() - j);
    }
}


// ---------------------------------------------------------------------------
// Positions: what one changed cell does
// ---------------------------------------------------------------------------

proof fn lemma_update_mine(s: Seq<int>, r: int, v: int)
    requires
        valid(s),
        0 <= r < pits(s),
    ensures
        mine(s.update(r, v)) == mine(s).update(r, v),
        theirs(s.update(r, v)) == theirs(s),
        in_play(s.update(r, v)) == in_play(s) - s[r] + v,
        weight(s.update(r, v)) == weight(s) + (pits(s) - r) * (v - s[r]),
{
    assert(mine(s.update(r, v)) =~= mine(s).update(r, v));
    assert(theirs(s.update(r, v)) =~= theirs(s));
    lemma_total_update(mine(s), r, v);
    lemma_row_weight_update(mine(s), r, v);
}

proof fn lemma_update_theirs(s: Seq<int>, r: int, v: int)
    requires
        valid(s),
        pits(s) < r <= 2 * pits(s),
    ensures
        mine(s.update(r, v)) == mine(s),
        theirs(s.update(r, v)) == theirs(s).update(r - pits(s) - 1, v),
        in_play(s.update(r, v)) == in_play(s) - s[r] + v,
{
    assert(mine(s.update(r, v)) =~= mine(s));
    assert(theirs(s.update(r, v)) =~= theirs(s).update(r - pits(s) - 1, v));
    lemma_total_update(theirs(s), r - pits(s) - 1, v);
}

proof fn lemma_update_store(s: Seq<int>, r: int, v: int)
    requires
        valid(s),
        r == pits(s) || r == 2 * pits(s) + 1,
    ensures
        mine(s.update(r, v)) == mine(s),
        theirs(s.update(r, v)) == theirs(s),
{
    assert(mine(s.update(r, v)) =~= mine(s));
    assert(theirs(s.update(r, v)) =~= theirs(s));
}

/// All seeds of a position: those in play and those in the stores.
pub proof fn lemma_total_parts(s: Seq<int>)
    requires
        valid(s),
    ensures
        total(s) == in_play(s) + bank(s) + their_bank(s),
{
    let n = pits(s);
    let a = mine(s);
    let b = seq![bank(s)];
    let c = theirs(s);
    let d = seq![their_bank(s)];
    assert(s =~= a + b + c + d);
    lemma_total_concat(a + b + c, d);
    lemma_total_concat(a + b, c);
    lemma_total_concat(a, b);
    reveal_with_fuel(total, 2);
    assert(b.drop_last() =~= Seq::<int>::empty());
    assert(d.drop_last() =~= Seq::<int>::empty());
}

/// The parts of a position are bounded by what it holds.
pub proof fn lemma_bounds(s: Seq<int>)
    requires
        valid(s),
    ensures
        0 <= in_play(s) <= total(s),
        0 <= total(mine(s)) <= in_play(s),
        0 <= total(theirs(s)) <= in_play(s),
        weight(s) >= 0,
        forall|r: int| 0 <= r < s.len() ==> 0 <= #[trigger] s[r] <= total(s),
        forall|r: int| 0 <= r < pits(s) ==> 0 <= #[trigger] s[r] <= in_play(s),
        forall|r: int| pits(s) < r <= 2 * pits(s) ==> 0 <= #[trigger] s[r] <= in_play(s),
{
    lemma_total_parts(s);
    lemma_total_nonneg(s);
    assert forall|j: int| 0 <= j < mine(s).len() implies #[trigger] mine(s)[j] >= 0 by {
        assert(mine(s)[j] == s[j]);
    }
    assert forall|j: int| 0 <= j < theirs(s).len() implies #[trigger] theirs(s)[j] >= 0 by {
        assert(theirs(s)[j] == s[j + pits(s) + 1]);
    }
    lemma_total_nonneg(mine(s));
    lemma_total_nonneg(theirs(s));
    lemma_row_weight_nonneg(mine(s));
    lemma_row_weight_nonneg(theirs(s));
    assert(s[pits(s)] >= 0 && s[2 * pits(s) + 1] >= 0);
    assert forall|r: int| 0 <= r < pits(s) implies 0 <= #[trigger] s[r] <= in_play(s) by {
        assert(mine(s)[r] == s[r]);
    }
    assert forall|r: int| pits(s) < r <= 2 * pits(s) implies 0 <= #[trigger] s[r] <= in_play(s) by {
        assert(theirs(s)[r - pits(s) - 1] == s[r]);
    }
}

/// A side that is not empty has a legal move, and only then.
pub proof fn lemma_has_move(s: Seq<int>)
    requires
        valid(s),
        !over(s),
    ensures
        exists|i: int| legal(s, i),
        in_play(s) >= 2,
{
    let j = choose|j: int| 0 <= j < mine(s).len() && mine(s)[j] != 0;
    assert(mine(s)[j] == s[j]);
    assert(legal(s, j));
    let k = choose|k: int| 0 <= k < theirs(s).len() && theirs(s)[k] != 0;
    assert(theirs(s)[k] == s[k + pits(s) + 1]);
    lemma_bounds(s);
    assert forall|j: int| 0 <= j < mine(s).len() implies #[trigger] mine(s)[j] >= 0 by {
        assert(mine(s)[j] == s[j]);
    }
    assert forall|j: int| 0 <= j < theirs(s).len() implies #[trigger] theirs(s)[j] >= 0 by {
        assert(theirs(s)[j] == s[j + pits(s) + 1]);
    }
    lemma_total_nonneg(mine(s));
    lemma_total_nonneg(theirs(s));
}

pub proof fn lemma_flip(s: Seq<int>)
    requires
        valid(s),
    ensures
        valid(flip(s)),
        pits(flip(s)) == pits(s),
        flip(s).len() == s.len(),
        mine(flip(s)) == theirs(s),
        theirs(flip(s)) == mine(s),
        bank(flip(s)) == their_bank(s),
        their_bank(flip(s)) == bank(s),
        in_play(flip(s)) == in_play(s),
        weight(flip(s)) == weight(s),
        total(flip(s)) == total(s),
        flip(flip(s)) == s,
{
    let f = flip(s);
    assert forall|r: int| 0 <= r < f.len() implies #[trigger] f[r] >= 0 by {
        assert(s[if r <= pits(s) { r + pits(s) + 1 } else { r - pits(s) - 1 }] >= 0);
    }
    assert(mine(f) =~= theirs(s));
    assert(theirs(f) =~= mine(s));
    assert(flip(f) =~= s);
    lemma_total_parts(s);
    lemma_total_parts(f);
}

// ---------------------------------------------------------------------------
// Sowing
// ---------------------------------------------------------------------------

/// Sowing keeps a position a position, adds `k` seeds to it, never touches the
/// other player's store and never takes seeds out of a cell.
pub proof fn lemma_sow(s: Seq<int>, at: int, k: int)
    requires
        valid(s),
        0 <= at <= 2 * pits(s),
        k >= 0,
    ensures
        valid(sow(s, at, k)),
        sow(s, at, k).len() == s.len(),
        total(sow(s, at, k)) == total(s) + k,
        their_bank(sow(s, at, k)) == their_bank(s),
        forall|r: int| 0 <= r < s.len() ==> #[trigger] sow(s, at, k)[r] >= s[r],
        0 <= landing(pits(s), at, k) <= 2 * pits(s),
        k > 0 ==> sow(s, at, k)[landing(pits(s), at, k)] > s[landing(pits(s), at, k)],
    decreases k,
{
    if k > 0 {
        let r = step(pits(s), at);
        assert(s[r] >= 0);
        let u = s.update(r, s[r] + 1);
        lemma_total_update(s, r, s[r] + 1);
        assert(pits(u) == pits(s));
        lemma_sow(u, r, k - 1);
        assert forall|q: int| 0 <= q < s.len() implies #[trigger] sow(s, at, k)[q] >= s[q] by {
            assert(sow(u, r, k - 1)[q] >= u[q]);
        }
        let e = landing(pits(s), at, k);
        assert(e == landing(pits(u), r, k - 1));
        if k == 1 {
            assert(e == r);
            assert(sow(u, r, 0) == u);
        } else {
            assert(sow(s, at, k)[e] > u[e]);
        }
    }
}

/// A sowing that reaches the own store puts a seed into it.
proof fn lemma_sow_banks(s: Seq<int>, at: int, k: int)
    requires
        valid(s),
        0 <= at < pits(s),
        at + k >= pits(s),
    ensures
        bank(sow(s, at, k)) >= bank(s) + 1,
    decreases k,
{
    let n = pits(s);
    let r = step(n, at);
    assert(r == at + 1);
    assert(s[r] >= 0);
    let u = s.update(r, s[r] + 1);
    assert(pits(u) == n);
    if r == n {
        lemma_sow(u, r, k - 1);
        assert(sow(u, r, k - 1)[n] >= u[n]);
    } else {
        lemma_sow_banks(u, r, k - 1);
    }
}

/// A sowing that stays short of the own store ends where its length says,
/// leaves the stores alone and loses at least one step of distance per seed.
proof fn lemma_sow_short(s: Seq<int>, at: int, k: int)
    requires
        valid(s),
        0 <= at,
        0 <= k,
        at + k < pits(s),
    ensures
        landing(pits(s), at, k) == at + k,
        bank(sow(s, at, k)) == bank(s),
        in_play(sow(s, at, k)) == in_play(s) + k,
        weight(sow(s, at, k)) <= weight(s) + k * (pits(s) - at) - k,
    decreases k,
{
    let n = pits(s);
    if k == 0 {
        assert(k * (n - at) == 0) by (nonlinear_arith)
            requires
                k == 0,
        ;
    } else {
        let r = step(n, at);
        assert(s[r] >= 0);
        let u = s.update(r, s[r] + 1);
        assert(pits(u) == n);
        lemma_update_mine(s, r, s[r] + 1);
        lemma_sow_short(u, r, k - 1);
        assert((n - r) * (s[r] + 1 - s[r]) == n - r) by (nonlinear_arith);
        assert(weight(u) == weight(s) + (n - r));
        assert((k - 1) * (n - r) + (n - r) == k * (n - at) - k) by (nonlinear_arith)
            requires
                r == at + 1,
        ;
    }
}

// ---------------------------------------------------------------------------
// Playing a pit
// ---------------------------------------------------------------------------

/// The basic facts of a legal move: the result is a position of the same size
/// that holds the same seeds, the other store is untouched, the own store does
/// not shrink, and either the seeds in play or, with those unchanged, their
/// distance to the stores went down.
pub proof fn lemma_played(rules: Rules, s: Seq<int>, i: int)
    requires
        valid(s),
        legal(s, i),
    ensures
        valid(played(rules, s, i)),
        played(rules, s, i).len() == s.len(),
        total(played(rules, s, i)) == total(s),
        their_bank(played(rules, s, i)) == their_bank(s),
        gain(rules, s, i) >= 0,
        in_play(played(rules, s, i)) == in_play(s) - gain(rules, s, i),
        in_play(played(rules, s, i)) < in_play(s) || (in_play(played(rules, s, i)) == in_play(s)
            && weight(played(rules, s, i)) < weight(s)),
        extra_turn(s, i) ==> !captures(rules, s, i) && gain(rules, s, i) >= 1,
        captures(rules, s, i) ==> gain(rules, s, i) >= 1,
        0 <= last_cell(s, i) <= 2 * pits(s),
        total(sown(s, i)) == total(s),
        valid(sown(s, i)),
        sown(s, i).len() == s.len(),
{
    let n = pits(s);
    let k = s[i];
    let z = s.update(i, 0);
    let t = sown(s, i);
    let e = last_cell(s, i);
    assert(pits(z) == n);
    assert(valid(z));
    lemma_total_update(s, i, 0);
    lemma_update_mine(s, i, 0);
    lemma_sow(z, i, k);
    lemma_total_parts(s);
    lemma_total_parts(z);
    lemma_total_parts(t);
    assert(t[n] >= z[n]);
    let p = played(rules, s, i);
    if captures(rules, s, i) {
        let across = 2 * n - e;
        let a = t.update(e, 0);
        let b = a.update(across, 0);
        assert(pits(a) == n && pits(b) == n && valid(a) && valid(b));
        assert(t[across] >= 0);
        lemma_update_mine(t, e, 0);
        lemma_update_theirs(a, across, 0);
        assert(t[n] >= 0);
        lemma_update_store(b, n, t[n] + t[e] + t[across]);
        assert(valid(p));
        lemma_total_parts(p);
    }
    lemma_total_parts(p);
    if i + k >= n {
        lemma_sow_banks(z, i, k);
    } else {
        lemma_sow_short(z, i, k);
        assert((n - i) * (0 - k) + k * (n - i) == 0) by (nonlinear_arith);
        if !captures(rules, s, i) {
            assert(weight(p) <= weight(s) - k);
        }
    }
    if e == n {
        assert(t[e] > z[e]);
    }
}

/// What [`lemma_played`] says, for the position that the next player sees.
pub proof fn lemma_after(rules: Rules, s: Seq<int>, i: int)
    requires
        valid(s),
        legal(s, i),
    ensures
        valid(after(rules, s, i)),
        after(rules, s, i).len() == s.len(),
        pits(after(rules, s, i)) == pits(s),
        total(after(rules, s, i)) == total(s),
        0 <= in_play(after(rules, s, i)) <= in_play(s),
        weight(after(rules, s, i)) >= 0,
        in_play(after(rules, s, i)) < in_play(s) || (in_play(after(rules, s, i)) == in_play(s)
            && weight(after(rules, s, i)) < weight(s)),
{
    lemma_played(rules, s, i);
    lemma_flip(played(rules, s, i));
    lemma_bounds(after(rules, s, i));
}

// ---------------------------------------------------------------------------
// Laws of play
// ---------------------------------------------------------------------------

/// How many steps lead from cell `at` to cell `r` on a ring of `len` cells: a whole round
/// if they are the same.
spec fn steps(at: int, r: int, len: int) -> int {
    if r > at {
        r - at
    } else {
        r - at + len
    }
}

proof fn lemma_rounds(k: int, len: int)
    by (nonlinear_arith)
    requires
        len > 0,
        k >= 0,
    ensures
        (k + len) / len == k / len + 1,
        0 <= k < len ==> k / len == 0,
        0 <= k / len <= k,
{
}

proof fn lemma_sow_counts(s: Seq<int>, at: int, k: int)
    requires
        valid(s),
        0 <= at <= 2 * pits(s),
        k >= 0,
    ensures
        forall|r: int|
            0 <= r <= 2 * pits(s) ==> #[trigger] sow(s, at, k)[r] == s[r] + (k + (2 * pits(s) + 1)
                - steps(at, r, 2 * pits(s) + 1)) / (2 * pits(s) + 1),
        sow(s, at, k).len() == s.len(),
    decreases k,
{
    let n = pits(s);
    let len = 2 * n + 1;
    if k == 0 {
        assert forall|r: int| 0 <= r <= 2 * n implies #[trigger] sow(s, at, k)[r] == s[r] + (k + len
            - steps(at, r, len)) / len by {
            lemma_rounds(len - steps(at, r, len), len);
        }
    } else {
        let q = step(n, at);
        assert(s[q] >= 0);
        let u = s.update(q, s[q] + 1);
        assert(pits(u) == n);
        lemma_sow_counts(u, q, k - 1);
        assert forall|r: int| 0 <= r <= 2 * n implies #[trigger] sow(s, at, k)[r] == s[r] + (k + len
            - steps(at, r, len)) / len by {
            assert(sow(s, at, k)[r] == sow(u, q, k - 1)[r]);
            if r == q {
                assert(steps(at, r, len) == 1);
                assert(steps(q, r, len) == len);
                lemma_rounds(k - 1, len);
            } else {
                assert(steps(q, r, len) == steps(at, r, len) - 1);
            }
        }
    }
}

proof fn lemma_landing(n: int, at: int, k: int)
    requires
        n >= 1,
        0 <= at <= 2 * n,
        k >= 0,
    ensures
        landing(n, at, k) == (at + k) % (2 * n + 1),
    decreases k,
{
    let len = 2 * n + 1;
    if k == 0 {
        assert(at % len == at) by (nonlinear_arith)
            requires
                0 <= at < len,
        ;
    } else {
        lemma_landing(n, step(n, at), k - 1);
        if at == 2 * n {
            assert((k - 1 + len) % len == (k - 1) % len) by (nonlinear_arith)
                requires
                    len > 0,
                    k >= 1,
            ;
        }
    }
}

/// A move sows the seeds of its pit one by one into the cells that follow, round the board
/// and past the other player's store: a cell `d` steps on takes one seed for each round of
/// the `2n + 1` cells that reaches it, and the pit itself is empty but for what comes round
/// again. The last seed falls into the cell that is as many steps on as there were seeds.
pub proof fn lemma_sowing(s: Seq<int>, i: int)
    requires
        valid(s),
        legal(s, i),
    ensures
        ({
            let len = s.len() - 1;
            &&& forall|d: int|
                1 <= d < len ==> #[trigger] sown(s, i)[(i + d) % len] == s[(i + d) % len] + (s[i]
                    + len - d) / len
            &&& sown(s, i)[i] == s[i] / len
            &&& sown(s, i)[len] == s[len]
            &&& last_cell(s, i) == (i + s[i]) % len
        }),
        s[i] < s.len() - 1 ==> forall|r: int|
            0 <= r < s.len() - 1 && r != i ==> #[trigger] sown(s, i)[r] == s[r] + (if (i < r <= i
                + s[i]) || r <= i + s[i] - (s.len() - 1) {
                1int
            } else {
                0
            }),
{
    let n = pits(s);
    let len = s.len() - 1;
    let k = s[i];
    let z = s.update(i, 0);
    assert(len == 2 * n + 1);
    assert(pits(z) == n && valid(z));
    lemma_sow_counts(z, i, k);
    lemma_sow(z, i, k);
    lemma_landing(n, i, k);
    assert forall|d: int| 1 <= d < len implies #[trigger] sown(s, i)[(i + d) % len] == s[(i + d)
        % len] + (k + len - d) / len by {
        let r = (i + d) % len;
        if i + d < len {
            assert(r == i + d) by (nonlinear_arith)
                requires
                    0 <= i + d < len,
                    r == (i + d) % len,
            ;
        } else {
            assert(r == i + d - len) by (nonlinear_arith)
                requires
                    len <= i + d < 2 * len,
                    r == (i + d) % len,
            ;
        }
        assert(steps(i, r, len) == d);
        assert(sow(z, i, k)[r] == z[r] + (k + len - d) / len);
    }
    assert(steps(i, i, len) == len);
    assert(sow(z, i, k)[i] == z[i] + (k + len - len) / len);
    if k < len {
        assert forall|r: int| 0 <= r < len && r != i implies #[trigger] sown(s, i)[r] == s[r] + (if (
        i < r <= i + k) || r <= i + k - len {
            1int
        } else {
            0
        }) by {
            let d = steps(i, r, len);
            assert(sow(z, i, k)[r] == z[r] + (k + len - d) / len);
            if d <= k {
                lemma_rounds(k - d, len);
            } else {
                lemma_rounds(k + len - d, len);
            }
        }
    }
}

/// A move earns another turn exactly when its last seed falls into the own store: when the
/// pit holds as many seeds as it is steps away from the store, or whole rounds more.
pub proof fn lemma_extra_turn(s: Seq<int>, i: int)
    requires
        valid(s),
        legal(s, i),
    ensures
        extra_turn(s, i) <==> (i + s[i]) % (s.len() - 1) == s.len() / 2 - 1,
        s[i] == s.len() / 2 - 1 - i ==> extra_turn(s, i),
        s[i] < s.len() - 1 && s[i] != s.len() / 2 - 1 - i ==> !extra_turn(s, i),
{
    lemma_sowing(s, i);
    let n = pits(s);
    let len = s.len() - 1;
    let k = s[i];
    if k < len {
        if i + k < len {
            assert((i + k) % len == i + k) by (nonlinear_arith)
                requires
                    0 <= i + k < len,
            ;
        } else {
            assert((i + k) % len == i + k - len) by (nonlinear_arith)
                requires
                    len <= i + k < 2 * len,
            ;
        }
    }
}

/// A move whose last seed falls into an own pit that was empty, with seeds in the pit
/// across, captures whatever the rules ask of that pit: the last seed and all seeds across
/// go to the own store, both pits are left empty, and nothing else changes.
pub proof fn lemma_capture(rules: Rules, s: Seq<int>, i: int)
    requires
        valid(s),
        legal(s, i),
        ({
            let e = (i + s[i]) % (s.len() - 1);
            &&& e < s.len() / 2 - 1
            &&& sown(s, i)[e] == 1
            &&& sown(s, i)[s.len() - 2 - e] > 0
        }),
    ensures
        captures(rules, s, i),
        !extra_turn(s, i),
        ({
            let e = (i + s[i]) % (s.len() - 1);
            let n = s.len() / 2 - 1;
            let t = sown(s, i);
            let p = played(rules, s, i);
            &&& p[n] == t[n] + 1 + t[2 * n - e]
            &&& p[e] == 0
            &&& p[2 * n - e] == 0
            &&& p.len() == s.len()
            &&& forall|r: int|
                0 <= r < s.len() && r != n && r != e && r != 2 * n - e ==> #[trigger] p[r] == t[r]
        }),
{
    lemma_sowing(s, i);
    lemma_played(rules, s, i);
}

/// The usual capture, of a pit with fewer seeds than it is steps away from the store: the
/// last seed falls into an own empty pit, and with the seeds across it goes to the store.
pub proof fn lemma_short_capture(rules: Rules, s: Seq<int>, i: int)
    requires
        valid(s),
        legal(s, i),
        i + s[i] < s.len() / 2 - 1,
        s[i + s[i]] == 0,
        s[s.len() - 2 - (i + s[i])] > 0,
    ensures
        captures(rules, s, i),
        ({
            let e = i + s[i];
            let n = s.len() / 2 - 1;
            let p = played(rules, s, i);
            &&& p[n] == s[n] + 1 + s[2 * n - e]
            &&& p[e] == 0
            &&& p[2 * n - e] == 0
            &&& p[i] == 0
            &&& forall|r: int| i < r < e ==> #[trigger] p[r] == s[r] + 1
            &&& forall|r: int|
                0 <= r < s.len() && !(i <= r <= e) && r != n && r != 2 * n - e ==> #[trigger] p[r]
                    == s[r]
        }),
{
    let e = i + s[i];
    let len = s.len() - 1;
    let n = pits(s);
    lemma_sowing(s, i);
    assert(e % len == e) by (nonlinear_arith)
        requires
            0 <= e < len,
    ;
    lemma_rounds(s[i], len);
    let t = sown(s, i);
    assert(t[e] == s[e] + 1);
    assert(t[2 * n - e] == s[2 * n - e]);
    assert(t[n] == s[n]);
    lemma_capture(rules, s, i);
    assert forall|r: int| i < r < e implies #[trigger] played(rules, s, i)[r] == s[r] + 1 by {
        assert(t[r] == s[r] + 1);
    }
    assert forall|r: int|
        0 <= r < s.len() && !(i <= r <= e) && r != n && r != 2 * n - e implies #[trigger] played(
        rules,
        s,
        i,
    )[r] == s[r] by {
        if r < len {
            assert(t[r] == s[r]);
        }
    }
}

/// There is no capture where the last seed falls into a store, into the other side's pits,
/// or into a pit that held seeds; nor, where the rules ask for seeds across, if there are
/// none. Without a capture the seeds stay where they were sown.
pub proof fn lemma_no_capture(rules: Rules, s: Seq<int>, i: int)
    requires
        valid(s),
        legal(s, i),
        ({
            let e = (i + s[i]) % (s.len() - 1);
            ||| e >= s.len() / 2 - 1
            ||| sown(s, i)[e] != 1
            ||| rules.capture_requires_nonempty_opposite && sown(s, i)[s.len() - 2 - e] == 0
        }),
    ensures
        !captures(rules, s, i),
        played(rules, s, i) == sown(s, i),
{
    lemma_sowing(s, i);
    lemma_played(rules, s, i);
}

/// Lifting the demand for seeds across only adds captures: a move that captures under it
/// captures the same seeds without it, and a move that captures only without it takes its
/// own last seed and no other. Where neither captures, the result is the same.
pub proof fn lemma_capture_rules(strict: Rules, lax: Rules, s: Seq<int>, i: int)
    requires
        valid(s),
        legal(s, i),
        strict.capture_requires_nonempty_opposite,
        !lax.capture_requires_nonempty_opposite,
    ensures
        captures(strict, s, i) ==> captures(lax, s, i),
        captures(strict, s, i) == captures(lax, s, i) ==> played(strict, s, i) == played(lax, s, i),
        captures(lax, s, i) && !captures(strict, s, i) ==> {
            let e = (i + s[i]) % (s.len() - 1);
            let n = s.len() / 2 - 1;
            &&& e < n
            &&& sown(s, i)[e] == 1
            &&& sown(s, i)[2 * n - e] == 0
            &&& played(lax, s, i) =~= played(strict, s, i).update(e, 0).update(
                n,
                played(strict, s, i)[n] + 1,
            )
        },
        (i + s[i]) % (s.len() - 1) < s.len() / 2 - 1 && sown(s, i)[(i + s[i]) % (s.len() - 1)] == 1
            ==> captures(lax, s, i),
{
    lemma_sowing(s, i);
    lemma_played(strict, s, i);
    lemma_played(lax, s, i);
}

/// Who moves next, and what that player sees: after an extra turn the same player sees the
/// board as it was left; otherwise the other player, who sees the two halves exchanged.
pub proof fn lemma_turn_passes(rules: Rules, s: Seq<int>, i: int)
    requires
        valid(s),
        legal(s, i),
    ensures
        (i + s[i]) % (s.len() - 1) == s.len() / 2 - 1 ==> after(rules, s, i) == played(rules, s, i),
        (i + s[i]) % (s.len() - 1) != s.len() / 2 - 1 ==> {
            let h = s.len() as int / 2;
            &&& forall|r: int|
                0 <= r < h ==> #[trigger] after(rules, s, i)[r] == played(rules, s, i)[r + h]
            &&& forall|r: int|
                h <= r < s.len() ==> #[trigger] after(rules, s, i)[r] == played(rules, s, i)[r - h]
        },
{
    lemma_extra_turn(s, i);
    lemma_played(rules, s, i);
}

/// The game goes on exactly as long as both sides have a pit to play.
pub proof fn lemma_over(s: Seq<int>)
    requires
        valid(s),
    ensures
        over(s) <==> (forall|i: int| !#[trigger] legal(s, i)) || (forall|i: int| !#[trigger] legal(
            flip(s),
            i,
        )),
        forall|i: int| #[trigger]
            legal(s, i) <==> 0 <= i < s.len() / 2 - 1 && s[i] != 0,
{
    lemma_flip(s);
    let n = pits(s);
    if over(s) {
        if empty_row(mine(s)) {
            assert forall|i: int| !#[trigger] legal(s, i) by {
                if 0 <= i < n {
                    assert(mine(s)[i] == s[i]);
                }
            }
        } else {
            assert forall|i: int| !#[trigger] legal(flip(s), i) by {
                if 0 <= i < n {
                    assert(theirs(s)[i] == s[i + n + 1]);
                }
            }
        }
    } else {
        lemma_has_move(s);
        let k = choose|k: int| 0 <= k < theirs(s).len() && theirs(s)[k] != 0;
        assert(theirs(s)[k] == s[k + n + 1]);
        assert(s[k + n + 1] >= 0);
        assert(legal(flip(s), k));
    }
    assert forall|i: int| #[trigger] legal(s, i) <==> 0 <= i < s.len() / 2 - 1 && s[i] != 0 by {
        if 0 <= i < n {
            assert(s[i] >= 0);
        }
    }
}

} // verus!
