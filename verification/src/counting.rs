//! Counting pit layouts.
//!
//! A layout is a row of non-negative counts. The layouts of one length with at
//! most a given number of seeds are numbered without gaps by the combinatorial
//! number system: first by total, then lexicographically. That number, the
//! [`rank`], is what a tablebase is indexed by.

use vstd::prelude::*;

use crate::board;
use crate::model;

verus! {

// ---------------------------------------------------------------------------
// Binomial coefficients
// ---------------------------------------------------------------------------

/// The number of ways to choose `k` of `n` things.
pub open spec fn binomial(n: nat, k: nat) -> nat
    decreases n,
{
    if k == 0 {
        1
    } else if n == 0 {
        0
    } else {
        binomial((n - 1) as nat, (k - 1) as nat) + binomial((n - 1) as nat, k)
    }
}

/// A count as a `u64`, at the largest `u64` if it exceeds that.
pub open spec fn saturated(v: nat) -> u64 {
    if v > u64::MAX {
        u64::MAX
    } else {
        v as u64
    }
}

proof fn lemma_binomial_over(n: nat, k: nat)
    requires
        k > n,
    ensures
        binomial(n, k) == 0,
    decreases n,
{
    if n > 0 {
        lemma_binomial_over((n - 1) as nat, (k - 1) as nat);
        lemma_binomial_over((n - 1) as nat, k);
    }
}

proof fn lemma_binomial_full(n: nat)
    ensures
        binomial(n, n) == 1,
    decreases n,
{
    if n > 0 {
        lemma_binomial_full((n - 1) as nat);
        lemma_binomial_over((n - 1) as nat, n);
    }
}

proof fn lemma_binomial_symmetric(n: nat, k: nat)
    requires
        k <= n,
    ensures
        binomial(n, k) == binomial(n, (n - k) as nat),
    decreases n,
{
    if k == 0 || k == n {
        lemma_binomial_full(n);
    } else {
        lemma_binomial_symmetric((n - 1) as nat, (k - 1) as nat);
        lemma_binomial_symmetric((n - 1) as nat, k);
    }
}

/// One coefficient from its neighbour in the same row.
proof fn lemma_binomial_next(n: nat, k: nat)
    requires
        k <= n,
    ensures
        binomial(n, k + 1) * (k + 1) == binomial(n, k) * (n - k),
    decreases n,
{
    if k == n {
        lemma_binomial_over(n, k + 1);
        assert(binomial(n, k + 1) * (k + 1) == 0) by (nonlinear_arith)
            requires
                binomial(n, k + 1) == 0,
        ;
        assert(binomial(n, k) * (n - k) == 0) by (nonlinear_arith)
            requires
                n == k,
        ;
    } else if k == 0 {
        lemma_binomial_one(n);
        assert(binomial(n, k) == 1);
        assert(binomial(n, k + 1) * (k + 1) == binomial(n, k) * (n - k)) by (nonlinear_arith)
            requires
                k == 0,
                binomial(n, k) == 1,
                binomial(n, k + 1) == n,
        ;
    } else {
        let m = (n - 1) as nat;
        let a = binomial(m, (k - 1) as nat) as int;
        let b = binomial(m, k) as int;
        let c = binomial(m, k + 1) as int;
        lemma_binomial_next(m, k);
        lemma_binomial_next(m, (k - 1) as nat);
        assert(c * (k + 1) == b * (m - k));
        assert(b * k == a * (m - (k - 1)));
        assert((b + c) * (k + 1) == (a + b) * (n - k)) by (nonlinear_arith)
            requires
                c * (k + 1) == b * (m - k),
                b * k == a * (m - (k - 1)),
                m == n - 1,
        ;
        assert(binomial(n, k + 1) == b + c);
        assert(binomial(n, k) == a + b);
    }
}

proof fn lemma_binomial_one(n: nat)
    ensures
        binomial(n, 1) == n,
    decreases n,
{
    if n > 0 {
        lemma_binomial_one((n - 1) as nat);
        assert(binomial((n - 1) as nat, 0) == 1);
    }
}

/// Up to the middle of a row the coefficients do not go down.
proof fn lemma_binomial_grows(n: nat, i: nat, k: nat)
    requires
        i <= k,
        2 * k <= n,
    ensures
        binomial(n, i) <= binomial(n, k),
    decreases k - i,
{
    if i < k {
        lemma_binomial_next(n, i);
        let a = binomial(n, i) as int;
        let b = binomial(n, i + 1) as int;
        assert(a <= b) by (nonlinear_arith)
            requires
                b * (i + 1) == a * (n - i),
                i + 1 <= n - i,
                a >= 0,
                b >= 0,
                i >= 0,
        ;
        lemma_binomial_grows(n, i + 1, k);
    }
}

/// `C(n, k)`, at the largest `u64` if it exceeds that.
pub fn binom(n: u64, k: u64) -> (c: u64)
    ensures
        c == saturated(binomial(n as nat, k as nat)),
        binomial(n as nat, k as nat) <= u64::MAX ==> c == binomial(n as nat, k as nat),
        binomial(n as nat, k as nat) > u64::MAX ==> c == u64::MAX,
{
    if k > n {
        proof {
            lemma_binomial_over(n as nat, k as nat);
        }
        return 0;
    }
    let j: u64 = if k > n - k {
        n - k
    } else {
        k
    };
    proof {
        lemma_binomial_symmetric(n as nat, k as nat);
    }
    let mut num: u128 = 1;
    let mut i: u64 = 0;
    while i < j
        invariant
            i <= j,
            2 * j <= n,
            binomial(n as nat, j as nat) == binomial(n as nat, k as nat),
            num == binomial(n as nat, i as nat),
            num <= u64::MAX,
        decreases j - i,
    {
        let rest: u64 = n - i;
        assert(num * rest <= u64::MAX * u64::MAX) by (nonlinear_arith)
            requires
                num <= u64::MAX,
                rest <= u64::MAX,
        ;
        num = num * (rest as u128) / ((i + 1) as u128);
        proof {
            lemma_binomial_next(n as nat, i as nat);
            let next = binomial(n as nat, (i + 1) as nat) as int;
            let d = i + 1;
            assert((next * d) / d == next) by (nonlinear_arith)
                requires
                    d > 0,
            ;
            assert(num == next);
        }
        i = i + 1;
        if num > u64::MAX as u128 {
            proof {
                lemma_binomial_grows(n as nat, i as nat, j as nat);
            }
            return u64::MAX;
        }
    }
    num as u64
}

// ---------------------------------------------------------------------------
// Compositions
// ---------------------------------------------------------------------------

/// The number of rows of `parts` counts that sum up to `t`.
pub open spec fn compositions(t: int, parts: int) -> nat {
    if parts <= 0 {
        if t == 0 {
            1
        } else {
            0
        }
    } else {
        binomial((t + parts - 1) as nat, (parts - 1) as nat)
    }
}

/// The number of rows of `parts` counts that sum up to less than `t`.
pub open spec fn lighter(t: int, parts: int) -> nat {
    if t <= 0 {
        0
    } else {
        binomial((t - 1 + parts) as nat, parts as nat)
    }
}

/// The number of rows of `parts` counts that sum up to at most `cap`.
pub open spec fn layouts(cap: int, parts: int) -> nat {
    binomial((cap + parts) as nat, parts as nat)
}

/// Summed over the counts `v` below `c`: the rows of `parts` counts that sum up
/// to `t - v`.
pub open spec fn smaller_heads(t: int, parts: int, c: int) -> nat
    decreases c,
{
    if c <= 0 {
        0
    } else {
        smaller_heads(t, parts, c - 1) + compositions(t - (c - 1), parts)
    }
}

/// A row of `m` non-negative counts that sum up to at most `cap`.
pub open spec fn is_layout(l: Seq<int>, m: int, cap: int) -> bool {
    &&& l.len() == m
    &&& forall|j: int| 0 <= j < l.len() ==> #[trigger] l[j] >= 0
    &&& model::total(l) <= cap
}

/// The sum of a row, taken from its head.
pub open spec fn sum(l: Seq<int>) -> int
    decreases l.len(),
{
    if l.len() == 0 {
        0
    } else {
        l.first() + sum(l.drop_first())
    }
}

/// The number of rows of the same length and sum that come before `l` in
/// lexicographic order.
pub open spec fn place_among_equals(l: Seq<int>) -> nat
    decreases l.len(),
{
    if l.len() <= 1 {
        0
    } else {
        smaller_heads(sum(l), l.len() - 1, l.first()) + place_among_equals(l.drop_first())
    }
}

/// The number of rows of the same length that come before `l` when rows are
/// ordered by their sum and then lexicographically.
pub open spec fn rank_of(l: Seq<int>) -> nat {
    lighter(sum(l), l.len() as int) + place_among_equals(l)
}

pub proof fn lemma_sum_is_total(l: Seq<int>)
    ensures
        sum(l) == model::total(l),
    decreases l.len(),
{
    if l.len() > 0 {
        lemma_sum_is_total(l.drop_first());
        assert(l =~= seq![l[0]] + l.drop_first());
        model::lemma_total_concat(seq![l[0]], l.drop_first());
        reveal_with_fuel(model::total, 2);
        assert(seq![l[0]].drop_last() =~= Seq::<int>::empty());
    }
}

spec fn counts(l: Seq<int>) -> bool {
    forall|j: int| 0 <= j < l.len() ==> #[trigger] l[j] >= 0
}

proof fn lemma_counts_tail(l: Seq<int>)
    requires
        counts(l),
        l.len() > 0,
    ensures
        counts(l.drop_first()),
        l.first() >= 0,
        sum(l.drop_first()) >= 0,
        0 <= l.first() <= sum(l),
{
    assert forall|j: int| 0 <= j < l.drop_first().len() implies #[trigger] l.drop_first()[j]
        >= 0 by {
        assert(l.drop_first()[j] == l[j + 1]);
    }
    lemma_sum_is_total(l.drop_first());
    model::lemma_total_nonneg(l.drop_first());
    assert(l[0] >= 0);
}

/// The rows with a head below `c`, and those with at least `c` taken off their
/// head, are all rows.
proof fn lemma_smaller_heads(t: int, parts: int, c: int)
    requires
        parts >= 1,
        0 <= c <= t,
    ensures
        smaller_heads(t, parts, c) + compositions(t - c, parts + 1) == compositions(t, parts + 1),
    decreases c,
{
    if c > 0 {
        lemma_smaller_heads(t, parts, c - 1);
        let r = t - (c - 1);
        assert(compositions(r, parts + 1) == binomial((r + parts) as nat, parts as nat));
        assert(compositions(r, parts) == binomial((r + parts - 1) as nat, (parts - 1) as nat));
        assert(compositions(r - 1, parts + 1) == binomial(
            (r - 1 + parts) as nat,
            parts as nat,
        ));
    }
}

proof fn lemma_smaller_heads_all(t: int, parts: int)
    requires
        parts >= 1,
        0 <= t,
    ensures
        smaller_heads(t, parts, t + 1) == compositions(t, parts + 1),
{
    lemma_smaller_heads(t, parts, t);
    lemma_binomial_full((parts - 1) as nat);
    lemma_binomial_full(parts as nat);
    assert(compositions(0, parts) == 1);
    assert(compositions(0, parts + 1) == 1);
}

proof fn lemma_smaller_heads_monotone(t: int, parts: int, a: int, b: int)
    requires
        a <= b,
    ensures
        smaller_heads(t, parts, a) <= smaller_heads(t, parts, b),
    decreases b - a,
{
    if a < b {
        lemma_smaller_heads_monotone(t, parts, a, b - 1);
    }
}

/// The place of a row among its equals is within their number.
pub proof fn lemma_place_bound(l: Seq<int>)
    requires
        forall|j: int| 0 <= j < l.len() ==> #[trigger] l[j] >= 0,
        l.len() >= 1,
    ensures
        place_among_equals(l) < compositions(sum(l), l.len() as int),
        l.len() > 1 ==> place_among_equals(l) < smaller_heads(
            sum(l),
            l.len() - 1,
            l.first() + 1,
        ),
    decreases l.len(),
{
    let t = sum(l);
    let m = l.len() as int;
    if m == 1 {
        assert(compositions(t, 1) == binomial(t as nat, 0));
    } else {
        lemma_counts_tail(l);
        let c = l.first();
        lemma_place_bound(l.drop_first());
        lemma_smaller_heads_monotone(t, m - 1, c + 1, t + 1);
        lemma_smaller_heads_all(t, m - 1);
    }
}

/// The rows that sum up to `t` are numbered after the lighter ones and before
/// the heavier ones.
proof fn lemma_lighter_step(t: int, m: int)
    requires
        m >= 1,
        t >= 0,
    ensures
        lighter(t + 1, m) == lighter(t, m) + compositions(t, m),
{
    if t == 0 {
        lemma_binomial_full(m as nat);
        lemma_binomial_full((m - 1) as nat);
    }
}

proof fn lemma_lighter_monotone(a: int, b: int, m: int)
    requires
        m >= 1,
        0 <= a <= b,
    ensures
        lighter(a, m) <= lighter(b, m),
    decreases b - a,
{
    if a < b {
        lemma_lighter_monotone(a, b - 1, m);
        lemma_lighter_step(b - 1, m);
    }
}

/// The rank of a layout lies in the range of those with its total.
pub proof fn lemma_rank_range(l: Seq<int>, m: int, cap: int)
    requires
        m >= 1,
        is_layout(l, m, cap),
    ensures
        lighter(model::total(l), m) <= rank_of(l) < lighter(model::total(l) + 1, m),
        lighter(model::total(l) + 1, m) <= layouts(cap, m),
        0 <= model::total(l),
{
    lemma_sum_is_total(l);
    model::lemma_total_nonneg(l);
    lemma_place_bound(l);
    lemma_lighter_step(sum(l), m);
    lemma_lighter_monotone(sum(l) + 1, cap + 1, m);
}

/// The rank of a layout is below the number of layouts.
pub proof fn lemma_rank_bound(l: Seq<int>, m: int, cap: int)
    requires
        m >= 1,
        is_layout(l, m, cap),
    ensures
        rank_of(l) < layouts(cap, m),
{
    lemma_rank_range(l, m, cap);
}

proof fn lemma_place_injective(a: Seq<int>, b: Seq<int>)
    requires
        counts(a),
        counts(b),
        a.len() == b.len(),
        a.len() >= 1,
        sum(a) == sum(b),
        place_among_equals(a) == place_among_equals(b),
    ensures
        a == b,
    decreases a.len(),
{
    let m = a.len() as int;
    let t = sum(a);
    if m == 1 {
        assert(sum(a.drop_first()) == 0 && sum(b.drop_first()) == 0);
        assert(a =~= b);
    } else {
        lemma_place_bound(a);
        lemma_place_bound(b);
        if a.first() < b.first() {
            lemma_smaller_heads_monotone(t, m - 1, a.first() + 1, b.first());
        } else if b.first() < a.first() {
            lemma_smaller_heads_monotone(t, m - 1, b.first() + 1, a.first());
        }
        lemma_counts_tail(a);
        lemma_counts_tail(b);
        lemma_place_injective(a.drop_first(), b.drop_first());
        assert(a =~= seq![a[0]] + a.drop_first());
        assert(b =~= seq![b[0]] + b.drop_first());
    }
}

/// Different layouts have different ranks.
pub proof fn lemma_rank_injective(a: Seq<int>, b: Seq<int>, m: int, cap: int)
    requires
        m >= 1,
        is_layout(a, m, cap),
        is_layout(b, m, cap),
        rank_of(a) == rank_of(b),
    ensures
        a == b,
{
    lemma_rank_range(a, m, cap);
    lemma_rank_range(b, m, cap);
    lemma_sum_is_total(a);
    lemma_sum_is_total(b);
    if sum(a) < sum(b) {
        lemma_lighter_monotone(sum(a) + 1, sum(b), m);
    } else if sum(b) < sum(a) {
        lemma_lighter_monotone(sum(b) + 1, sum(a), m);
    }
    lemma_place_injective(a, b);
}

/// Among rows of the same sum, a row that precedes another has the lower place.
pub proof fn lemma_place_increases(a: Seq<int>, b: Seq<int>, k: int)
    requires
        forall|j: int| 0 <= j < a.len() ==> #[trigger] a[j] >= 0,
        forall|j: int| 0 <= j < b.len() ==> #[trigger] b[j] >= 0,
        sum(a) == sum(b),
        parts_at(a, b, k),
    ensures
        place_among_equals(a) < place_among_equals(b),
    decreases k,
{
    let m = a.len() as int;
    lemma_counts_tail(a);
    lemma_counts_tail(b);
    if m == 1 {
        assert(sum(a.drop_first()) == 0 && sum(b.drop_first()) == 0);
    } else if k == 0 {
        lemma_place_bound(a);
        lemma_smaller_heads_monotone(sum(a), m - 1, a.first() + 1, b.first());
    } else {
        assert(a[0] == b[0]);
        assert forall|j: int| 0 <= j < k - 1 implies #[trigger] a.drop_first()[j]
            == b.drop_first()[j] by {
            assert(a[j + 1] == b[j + 1]);
        }
        lemma_place_increases(a.drop_first(), b.drop_first(), k - 1);
    }
}

proof fn lemma_place_surjective(t: int, m: int, r: int) -> (l: Seq<int>)
    requires
        m >= 1,
        t >= 0,
        0 <= r < compositions(t, m),
    ensures
        l.len() == m,
        counts(l),
        sum(l) == t,
        place_among_equals(l) == r,
    decreases m,
{
    if m == 1 {
        let l = seq![t];
        assert(l.drop_first() =~= Seq::<int>::empty());
        assert(sum(l.drop_first()) == 0);
        assert(compositions(t, 1) == 1);
        l
    } else {
        lemma_smaller_heads_all(t, m - 1);
        let c = lemma_find_head(t, m - 1, r, t + 1);
        let rest = lemma_place_surjective(t - c, m - 1, r - smaller_heads(t, m - 1, c));
        let l = seq![c] + rest;
        assert(l.drop_first() =~= rest);
        assert forall|j: int| 0 <= j < l.len() implies #[trigger] l[j] >= 0 by {
            if j > 0 {
                assert(l[j] == rest[j - 1]);
            }
        }
        l
    }
}

proof fn lemma_find_head(t: int, parts: int, r: int, top: int) -> (c: int)
    requires
        0 <= r < smaller_heads(t, parts, top),
    ensures
        0 <= c < top,
        smaller_heads(t, parts, c) <= r < smaller_heads(t, parts, c + 1),
    decreases top,
{
    if r >= smaller_heads(t, parts, top - 1) {
        top - 1
    } else {
        lemma_find_head(t, parts, r, top - 1)
    }
}

proof fn lemma_find_total(m: int, r: int, top: int) -> (t: int)
    requires
        m >= 1,
        0 <= r < lighter(top, m),
    ensures
        0 <= t < top,
        lighter(t, m) <= r < lighter(t + 1, m),
    decreases top,
{
    if r >= lighter(top - 1, m) {
        top - 1
    } else {
        lemma_find_total(m, r, top - 1)
    }
}

/// Every number below the number of layouts is the rank of a layout: together
/// with [`lemma_rank_bound`] and [`lemma_rank_injective`], ranking is a bijection.
pub proof fn lemma_rank_surjective(m: int, cap: int, r: int) -> (l: Seq<int>)
    requires
        m >= 1,
        cap >= 0,
        0 <= r < layouts(cap, m),
    ensures
        is_layout(l, m, cap),
        rank_of(l) == r,
{
    let t = lemma_find_total(m, r, cap + 1);
    lemma_lighter_step(t, m);
    let l = lemma_place_surjective(t, m, r - lighter(t, m));
    lemma_sum_is_total(l);
    l
}

/// Number of compositions of `t` into `parts` non-negative parts, at the largest
/// `u64` if it exceeds that.
pub fn comps(t: u64, parts: u64) -> (c: u64)
    requires
        t + parts <= u64::MAX,
    ensures
        c == saturated(compositions(t as int, parts as int)),
        compositions(t as int, parts as int) <= u64::MAX ==> c == compositions(
            t as int,
            parts as int,
        ),
{
    if parts == 0 {
        return if t == 0 {
            1
        } else {
            0
        };
    }
    binom(t + (parts - 1), parts - 1)
}

/// Number of layouts of `m` parts with total **strictly less than** `t`, at the
/// largest `u64` if it exceeds that.
pub fn offset(t: u64, m: u64) -> (c: u64)
    requires
        t + m <= u64::MAX,
    ensures
        c == saturated(lighter(t as int, m as int)),
        lighter(t as int, m as int) <= u64::MAX ==> c == lighter(t as int, m as int),
{
    if t == 0 {
        0
    } else {
        binom(t - 1 + m, m)
    }
}

/// Number of layouts of `m` parts with total at most `cap`, `C(cap + m, m)`, at
/// the largest `u64` if it exceeds that.
pub fn num_layouts(cap: u64, m: u64) -> (c: u64)
    requires
        cap + m <= u64::MAX,
    ensures
        c == saturated(layouts(cap as int, m as int)),
        layouts(cap as int, m as int) <= u64::MAX ==> c == layouts(cap as int, m as int),
        layouts(cap as int, m as int) > u64::MAX ==> c == u64::MAX,
{
    binom(cap + m, m)
}

// ---------------------------------------------------------------------------
// Ranking
// ---------------------------------------------------------------------------

/// Rows of the precomputed Pascal triangle: ranking reads `C(n, k)` only for
/// `n` below the seeds and the pits of the largest board together.
pub const PASCAL_ROWS: usize = 288;

/// Columns of the precomputed Pascal triangle: one per pit of the largest board.
pub const PASCAL_COLUMNS: usize = 32;

/// A precomputed Pascal triangle, for ranking layouts with one table look-up per
/// pit.
pub struct Pascal {
    /// `C(n, k)` at index `n * PASCAL_COLUMNS + k`, saturated.
    table: Vec<u64>,
}

proof fn lemma_saturated_sum(a: nat, b: nat)
    ensures
        saturated(a + b) as int == if saturated(a) + saturated(b) > u64::MAX {
            u64::MAX as int
        } else {
            saturated(a) + saturated(b)
        },
{
}

impl Pascal {
    /// The triangle holds the binomial coefficients.
    #[verifier::type_invariant]
    pub closed spec fn wf(&self) -> bool {
        &&& self.table@.len() == PASCAL_ROWS * PASCAL_COLUMNS
        &&& forall|n: int, k: int|
            0 <= n < PASCAL_ROWS && 0 <= k < PASCAL_COLUMNS ==> self.table@[#[trigger] cell(n, k)]
                == saturated(binomial(n as nat, k as nat))
    }

    /// Compute the triangle.
    pub fn new() -> (p: Pascal)
        ensures
            p.wf(),
    {
        let mut table: Vec<u64> = Vec::new();
        let mut n: usize = 0;
        while n < PASCAL_ROWS
            invariant
                n <= PASCAL_ROWS,
                table@.len() == n * PASCAL_COLUMNS,
                forall|i: int, k: int|
                    0 <= i < n && 0 <= k < PASCAL_COLUMNS ==> table@[#[trigger] cell(i, k)]
                        == saturated(binomial(i as nat, k as nat)),
            decreases PASCAL_ROWS - n,
        {
            let mut k: usize = 0;
            while k < PASCAL_COLUMNS
                invariant
                    n < PASCAL_ROWS,
                    k <= PASCAL_COLUMNS,
                    table@.len() == n * PASCAL_COLUMNS + k,
                    forall|i: int, j: int|
                        0 <= j < PASCAL_COLUMNS && (0 <= i < n || (i == n && j < k))
                            ==> table@[#[trigger] cell(i, j)] == saturated(
                            binomial(i as nat, j as nat),
                        ),
                decreases PASCAL_COLUMNS - k,
            {
                let ghost before = table@;
                let c: u64 = if k == 0 {
                    1
                } else if n == 0 {
                    0
                } else {
                    proof {
                        assert(cell(n - 1, k as int) == (n - 1) * PASCAL_COLUMNS + k);
                        assert(cell(n - 1, k - 1) == (n - 1) * PASCAL_COLUMNS + k - 1);
                        lemma_saturated_sum(
                            binomial((n - 1) as nat, (k - 1) as nat),
                            binomial((n - 1) as nat, k as nat),
                        );
                    }
                    let above: u64 = table[(n - 1) * PASCAL_COLUMNS + k];
                    let left: u64 = table[(n - 1) * PASCAL_COLUMNS + (k - 1)];
                    above.saturating_add(left)
                };
                assert(c == saturated(binomial(n as nat, k as nat)));
                table.push(c);
                k = k + 1;
            }
            n = n + 1;
        }
        Pascal { table }
    }

    /// `C(n, k)` from the triangle, saturated.
    fn choose_from(&self, n: usize, k: usize) -> (c: u64)
        requires
            n < PASCAL_ROWS,
            k < PASCAL_COLUMNS,
        ensures
            c == saturated(binomial(n as nat, k as nat)),
    {
        proof {
            use_type_invariant(self);
            assert(cell(n as int, k as int) == n * PASCAL_COLUMNS + k);
        }
        self.table[n * PASCAL_COLUMNS + k]
    }

    /// Dense rank of a pit layout among all layouts of its length: those with
    /// fewer seeds come first, and those with the same number of seeds follow
    /// lexicographically.
    pub fn rank(&self, pits: &[u8]) -> (r: u64)
        requires
            1 <= pits@.len() <= 2 * board::MAX_PITS,
            model::total(board::ints(pits@)) <= board::MAX_SEEDS,
            layouts(model::total(board::ints(pits@)), pits@.len() as int) <= u64::MAX,
        ensures
            r == rank_of(board::ints(pits@)),
            r < layouts(model::total(board::ints(pits@)), pits@.len() as int),
    {
        let ghost l = board::ints(pits@);
        let ghost m = l.len() as int;
        let len: usize = pits.len();
        let mut total: usize = 0;
        let mut i: usize = 0;
        proof {
            lemma_rank_range(l, m, model::total(l));
            lemma_sum_is_total(l);
            assert(l.take(0) =~= Seq::<int>::empty());
        }
        while i < len
            invariant
                len == pits@.len(),
                len <= 2 * board::MAX_PITS,
                l == board::ints(pits@),
                i <= len,
                total == model::total(l.take(i as int)),
                total <= 255 * i,
            decreases len - i,
        {
            total = total + pits[i] as usize;
            assert(l.take(i + 1).drop_last() =~= l.take(i as int));
            i = i + 1;
        }
        assert(l.take(len as int) =~= l);
        // The layouts with fewer seeds.
        let mut r: u64 = if total == 0 {
            0
        } else {
            self.choose_from(total - 1 + len, len)
        };
        proof {
            lemma_lighter_step(total as int, m);
        }
        let mut rem: usize = total;
        let mut j: usize = 0;
        assert(l.skip(0) =~= l);
        while j + 1 < len
            invariant
                len == pits@.len(),
                len == m,
                len <= 2 * board::MAX_PITS,
                l == board::ints(pits@),
                counts(l),
                j < len,
                rem <= board::MAX_SEEDS,
                rem == sum(l.skip(j as int)),
                r + place_among_equals(l.skip(j as int)) == rank_of(l),
                r + compositions(rem as int, len - j) <= u64::MAX,
            decreases len - j,
        {
            let ghost row = l.skip(j as int);
            let c: usize = pits[j] as usize;
            let parts: usize = len - 1 - j;
            proof {
                assert(row.first() == c);
                assert(row.drop_first() =~= l.skip(j + 1));
                assert(counts(row)) by {
                    assert forall|k: int| 0 <= k < row.len() implies #[trigger] row[k] >= 0 by {
                        assert(row[k] == l[j + k]);
                    }
                }
                lemma_counts_tail(row);
                lemma_smaller_heads(rem as int, parts as int, c as int);
                lemma_smaller_heads_all(rem as int, parts as int);
                lemma_smaller_heads_monotone(rem as int, parts as int, c + 1, rem + 1);
                assert(compositions(rem as int, parts + 1) == binomial(
                    (rem + parts) as nat,
                    parts as nat,
                ));
                assert(compositions(rem - c, parts + 1) == binomial(
                    (rem - c + parts) as nat,
                    parts as nat,
                ));
            }
            // The layouts that agree so far and hold fewer than `c` seeds here.
            r = r + (self.choose_from(rem + parts, parts) - self.choose_from(
                rem - c + parts,
                parts,
            ));
            rem = rem - c;
            j = j + 1;
        }
        r
    }
}

/// Index of `C(n, k)` in the Pascal triangle.
spec fn cell(n: int, k: int) -> int {
    n * PASCAL_COLUMNS + k
}

// ---------------------------------------------------------------------------
// Enumeration
// ---------------------------------------------------------------------------

/// Row `a` comes before row `b` in lexicographic order: they agree up to some
/// place, where `a` holds less.
pub open spec fn precedes(a: Seq<int>, b: Seq<int>) -> bool {
    exists|k: int| #[trigger] parts_at(a, b, k)
}

/// Rows `a` and `b` agree before place `k`, where `a` holds less.
pub open spec fn parts_at(a: Seq<int>, b: Seq<int>, k: int) -> bool {
    &&& 0 <= k < a.len()
    &&& a.len() == b.len()
    &&& a[k] < b[k]
    &&& forall|j: int| 0 <= j < k ==> #[trigger] a[j] == b[j]
}

/// Of two different rows of one length, one comes first.
pub proof fn lemma_precedes_total(a: Seq<int>, b: Seq<int>)
    requires
        a.len() == b.len(),
        a != b,
    ensures
        precedes(a, b) || precedes(b, a),
{
    let k = lemma_first_difference(a, b, 0);
    if a[k] < b[k] {
        assert(parts_at(a, b, k));
    } else {
        assert(parts_at(b, a, k));
    }
}

proof fn lemma_first_difference(a: Seq<int>, b: Seq<int>, from: int) -> (k: int)
    requires
        a.len() == b.len(),
        a != b,
        0 <= from <= a.len(),
        forall|j: int| 0 <= j < from ==> #[trigger] a[j] == b[j],
    ensures
        0 <= k < a.len(),
        a[k] != b[k],
        forall|j: int| 0 <= j < k ==> #[trigger] a[j] == b[j],
    decreases a.len() - from,
{
    if from == a.len() {
        assert(a =~= b);
        from
    } else if a[from] != b[from] {
        from
    } else {
        lemma_first_difference(a, b, from + 1)
    }
}

/// A row holds at least as many seeds as its first `k` places.
proof fn lemma_take_total(l: Seq<int>, k: int)
    requires
        counts(l),
        0 <= k <= l.len(),
    ensures
        model::total(l.take(k)) <= model::total(l),
        (forall|j: int| k <= j < l.len() ==> #[trigger] l[j] == 0) ==> model::total(l.take(k))
            == model::total(l),
    decreases l.len() - k,
{
    if k == l.len() {
        assert(l.take(k) =~= l);
    } else {
        assert(l.take(k + 1).drop_last() =~= l.take(k));
        assert(l[k] >= 0);
        lemma_take_total(l, k + 1);
    }
}

/// Past a row that holds all the seeds there are, the next layout differs from it
/// before its last seeds.
proof fn lemma_full_row(a: Seq<int>, b: Seq<int>, k: int, last: int)
    requires
        counts(a),
        counts(b),
        parts_at(a, b, k),
        model::total(b) <= model::total(a),
        0 <= last <= a.len(),
        forall|j: int| last <= j < a.len() ==> #[trigger] a[j] == 0,
    ensures
        k + 1 < last,
{
    if k + 1 >= last {
        lemma_take_total(a, k + 1);
        lemma_take_total(b, k + 1);
        assert(a.take(k + 1).drop_last() =~= b.take(k + 1).drop_last());
        assert(a.take(k + 1).last() == a[k]);
        assert(b.take(k + 1).last() == b[k]);
        assert(forall|j: int| k + 1 <= j < a.len() ==> #[trigger] a[j] == 0);
    }
}

/// Advance `pits` to the next layout with at most `cap` seeds in lexicographic
/// order. Returns `false` when `pits` was the last one.
///
/// Starting from the empty layout, repeated calls visit every layout once.
pub fn next_layout(cap: u32, pits: &mut Vec<u8>) -> (more: bool)
    requires
        1 <= old(pits)@.len() <= 2 * board::MAX_PITS,
        cap <= board::MAX_SEEDS,
        is_layout(board::ints(old(pits)@), old(pits)@.len() as int, cap as int),
    ensures
        final(pits)@.len() == old(pits)@.len(),
        more ==> is_layout(board::ints(final(pits)@), old(pits)@.len() as int, cap as int),
        more ==> precedes(board::ints(old(pits)@), board::ints(final(pits)@)),
        more ==> forall|l: Seq<int>|
            is_layout(l, old(pits)@.len() as int, cap as int) && #[trigger] precedes(
                board::ints(old(pits)@),
                l,
            ) ==> !precedes(l, board::ints(final(pits)@)),
        !more ==> *final(pits) == *old(pits),
        !more ==> forall|l: Seq<int>|
            is_layout(l, old(pits)@.len() as int, cap as int) ==> !#[trigger] precedes(
                board::ints(old(pits)@),
                l,
            ),
{
    let ghost a = board::ints(pits@);
    let ghost m = a.len() as int;
    let len: usize = pits.len();
    let mut total: u32 = 0;
    let mut i: usize = 0;
    assert(a.take(0) =~= Seq::<int>::empty());
    while i < len
        invariant
            len == pits@.len(),
            len <= 2 * board::MAX_PITS,
            a == board::ints(pits@),
            i <= len,
            total == model::total(a.take(i as int)),
            total <= 255 * i,
        decreases len - i,
    {
        total = total + pits[i] as u32;
        assert(a.take(i + 1).drop_last() =~= a.take(i as int));
        i = i + 1;
    }
    assert(a.take(len as int) =~= a);
    proof {
        model::lemma_total_nonneg(a);
    }
    if total < cap {
        // Room for one more seed in the last pit.
        assert(a[m - 1] <= total);
        let c: u8 = pits[len - 1];
        pits.set(len - 1, c + 1);
        proof {
            let b = board::ints(pits@);
            assert(b =~= a.update(m - 1, a[m - 1] + 1));
            model::lemma_total_update(a, m - 1, a[m - 1] + 1);
            assert(parts_at(a, b, m - 1));
            assert forall|l: Seq<int>| is_layout(l, m, cap as int) && #[trigger] precedes(a, l)
                implies !precedes(l, b) by {
                let k = choose|k: int| #[trigger] parts_at(a, l, k);
                lemma_no_gap(a, b, l, k, m - 1);
            }
        }
        return true;
    }
    // All seeds are out: the last pits that hold any give theirs up, all but
    // one, which moves one pit ahead.
    let mut last: usize = len;
    while last > 0 && pits[last - 1] == 0
        invariant
            last <= len,
            len == pits@.len(),
            a == board::ints(pits@),
            forall|j: int| last <= j < len ==> #[trigger] a[j] == 0,
        decreases last,
    {
        last = last - 1;
    }
    if last <= 1 {
        proof {
            assert forall|l: Seq<int>| is_layout(l, m, cap as int) implies !#[trigger] precedes(
                a,
                l,
            ) by {
                if precedes(a, l) {
                    let k = choose|k: int| #[trigger] parts_at(a, l, k);
                    lemma_full_row(a, l, k, last as int);
                }
            }
        }
        return false;
    }
    let ghost x = a[last - 2];
    let ghost y = a[last - 1];
    assert(y >= 1);
    proof {
        let z = a.update(last - 1, 0);
        model::lemma_total_update(a, last - 1, 0);
        assert(counts(z));
        model::lemma_total_nonneg(z);
        assert(z[last - 2] == x);
    }
    let c: u8 = pits[last - 2];
    pits.set(last - 1, 0);
    pits.set(last - 2, c + 1);
    proof {
        let z = a.update(last - 1, 0);
        let b = board::ints(pits@);
        assert(b =~= z.update(last - 2, x + 1));
        model::lemma_total_update(z, last - 2, x + 1);
        assert(parts_at(a, b, last - 2));
        assert forall|l: Seq<int>| is_layout(l, m, cap as int) && #[trigger] precedes(a, l)
            implies !precedes(l, b) by {
            let k = choose|k: int| #[trigger] parts_at(a, l, k);
            lemma_full_row(a, l, k, last as int);
            lemma_no_gap(a, b, l, k, last - 2);
        }
    }
    true
}

/// Row `b` follows row `a` without a gap when it holds one more at place `at` and
/// nothing after it: a row that leaves `a` at or before that place is not before
/// `b`.
proof fn lemma_no_gap(a: Seq<int>, b: Seq<int>, l: Seq<int>, k: int, at: int)
    requires
        counts(l),
        parts_at(a, b, at),
        b[at] == a[at] + 1,
        parts_at(a, l, k),
        k <= at,
        forall|j: int| at < j < b.len() ==> #[trigger] b[j] == 0,
    ensures
        !precedes(l, b),
{
    if precedes(l, b) {
        let h = choose|h: int| #[trigger] parts_at(l, b, h);
        assert(l[h] < b[h]);
        assert(l[h] >= 0);
        if h < k {
            assert(a[h] == l[h]);
            assert(a[h] == b[h]);
        } else if h > k {
            assert(l[k] == b[k]);
            if k < at {
                assert(a[k] == b[k]);
            }
        } else if k < at {
            assert(a[k] == b[k]);
        }
    }
}

// ---------------------------------------------------------------------------
// Laws of ranking
// ---------------------------------------------------------------------------

/// Layouts are ranked by their seeds and then lexicographically: fewer seeds come first, and
/// of two layouts with as many seeds the one that holds less where they first differ.
pub proof fn lemma_rank_order(a: Seq<int>, b: Seq<int>, m: int, cap: int, k: int)
    requires
        m >= 1,
        is_layout(a, m, cap),
        is_layout(b, m, cap),
        model::total(a) < model::total(b) || (model::total(a) == model::total(b) && 0 <= k < m
            && a[k] < b[k] && forall|j: int| 0 <= j < k ==> #[trigger] a[j] == b[j]),
    ensures
        rank_of(a) < rank_of(b) < layouts(cap, m),
{
    lemma_rank_range(a, m, cap);
    lemma_rank_range(b, m, cap);
    lemma_rank_bound(b, m, cap);
    lemma_sum_is_total(a);
    lemma_sum_is_total(b);
    if sum(a) < sum(b) {
        lemma_lighter_monotone(sum(a) + 1, sum(b), m);
    } else {
        lemma_place_increases(a, b, k);
    }
}

/// Binomial coefficients: one way to take none or all, as many to take `k` as to leave `k`,
/// and each follows from the one before it.
pub proof fn lemma_binomials(n: nat, k: nat)
    requires
        k <= n,
    ensures
        binomial(n, 0) == 1,
        binomial(n, n) == 1,
        binomial(n, k) == binomial(n, (n - k) as nat),
        binomial(n, k + 1) * (k + 1) == binomial(n, k) * (n - k),
        binomial(n, n + 1 + k) == 0,
{
    lemma_binomial_full(n);
    lemma_binomial_symmetric(n, k);
    lemma_binomial_next(n, k);
    lemma_binomial_over(n, n + 1 + k);
}

/// Counting layouts: those with fewer than `t + 1` seeds are those with fewer than `t` and
/// those with `t`; a cap counts what is lighter than the next number; and one part more
/// takes any number of the seeds and leaves the rest to the others.
pub proof fn lemma_layout_counts(t: int, m: int)
    requires
        t >= 0,
        m >= 1,
    ensures
        lighter(0, m) == 0,
        lighter(t + 1, m) == lighter(t, m) + compositions(t, m),
        layouts(t, m) == lighter(t + 1, m),
        compositions(t, 1) == 1,
        compositions(t + 1, m + 1) == compositions(t, m + 1) + compositions(t + 1, m),
        compositions(0, m) == 1,
        compositions(0, 0) == 1,
        compositions(t + 1, 0) == 0,
{
    lemma_lighter_step(t, m);
    lemma_binomial_full((m - 1) as nat);
}

} // verus!
