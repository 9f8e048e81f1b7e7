//! The standard game, with six pits a side and four seeds in each, is not solved in
//! passing: an exact search of its opening uses up a budget of a hundred nodes.

use vstd::prelude::*;

use crate::board;
use crate::board::{Board, Rules};
use crate::effort;
use crate::model;
use crate::searcher;
use crate::solver;

verus! {

/// In a position with `m` moves a search tries pit `i` first, which leads to `t`.
#[verifier::opaque]
spec fn tries(rules: Rules, s: Seq<int>, i: int, m: int, t: Seq<int>) -> bool {
    &&& model::valid(s)
    &&& !model::over(s)
    &&& effort::mobility(s) == m
    &&& effort::first_tried(s) == i
    &&& model::legal(s, i)
    &&& model::after(rules, s, i) == t
}

/// The nodes that a search from `s` takes at least when nothing but the end of the game
/// settles a position.
#[verifier::opaque]
spec fn least_from(rules: Rules, s: Seq<int>) -> int {
    effort::descent(searcher::setting(rules, None, 0, false), s, None)
}

/// One move down the line of the moves that are tried first.
proof fn lemma_down(rules: Rules, s: Seq<int>, i: int, m: int, t: Seq<int>)
    requires
        tries(rules, s, i, m, t),
    ensures
        least_from(rules, s) == m + least_from(rules, t),
{
    reveal(tries);
    reveal(least_from);
    searcher::lemma_lazy_claim(rules, 0, s);
    let own = model::mine(s);
    let other = model::theirs(s);
    assert forall|j: int| 0 <= j < own.len() implies #[trigger] own[j] >= 0 by {
        assert(own[j] == s[j]);
    }
    assert forall|j: int| 0 <= j < other.len() implies #[trigger] other[j] >= 0 by {
        assert(other[j] == s[j + model::pits(s) + 1]);
    }
    model::lemma_total_nonneg(own);
    model::lemma_total_nonneg(other);
    assert(own[i] == s[i]);
}

proof fn lemma_first_moves(rules: Rules)
    requires
        rules.capture_requires_nonempty_opposite,
    ensures
        least_from(rules, seq![4, 4, 4, 4, 4, 4, 0, 4, 4, 4, 4, 4, 4, 0]) == 22 + least_from(
            rules,
            seq![5, 5, 1, 6, 5, 0, 2, 5, 0, 6, 6, 5, 0, 2],
        ),
{
    let s0: Seq<int> = seq![4, 4, 4, 4, 4, 4, 0, 4, 4, 4, 4, 4, 4, 0];
    let s1: Seq<int> = seq![4, 4, 0, 5, 5, 5, 1, 4, 4, 4, 4, 4, 4, 0];
    let s2: Seq<int> = seq![5, 5, 5, 5, 4, 4, 0, 4, 4, 0, 5, 5, 0, 2];
    let s3: Seq<int> = seq![5, 0, 6, 6, 5, 5, 1, 4, 4, 0, 5, 5, 0, 2];
    let s4: Seq<int> = seq![5, 5, 1, 6, 5, 0, 2, 5, 0, 6, 6, 5, 0, 2];
    assert(tries(rules, s0, 2, 6, s1)) by {
        reveal(tries);
        reveal_with_fuel(effort::first_below, 7);
        reveal_with_fuel(effort::mobility_below, 7);
        reveal_with_fuel(model::sow, 5);
        reveal_with_fuel(model::landing, 5);
        assert(model::mine(s0)[2] > 0 && model::theirs(s0)[0] > 0);
        assert(model::after(rules, s0, 2) =~= s1);
    }
    lemma_down(rules, s0, 2, 6, s1);
    assert(tries(rules, s1, 5, 5, s2)) by {
        reveal(tries);
        reveal_with_fuel(effort::first_below, 7);
        reveal_with_fuel(effort::mobility_below, 7);
        reveal_with_fuel(model::sow, 6);
        reveal_with_fuel(model::landing, 6);
        assert(model::mine(s1)[5] > 0 && model::theirs(s1)[0] > 0);
        assert(model::after(rules, s1, 5) =~= s2);
    }
    lemma_down(rules, s1, 5, 5, s2);
    assert(tries(rules, s2, 1, 6, s3)) by {
        reveal(tries);
        reveal_with_fuel(effort::first_below, 7);
        reveal_with_fuel(effort::mobility_below, 7);
        reveal_with_fuel(model::sow, 6);
        reveal_with_fuel(model::landing, 6);
        assert(model::mine(s2)[1] > 0 && model::theirs(s2)[0] > 0);
        assert(model::after(rules, s2, 1) =~= s3);
    }
    lemma_down(rules, s2, 1, 6, s3);
    assert(tries(rules, s3, 5, 5, s4)) by {
        reveal(tries);
        reveal_with_fuel(effort::first_below, 7);
        reveal_with_fuel(effort::mobility_below, 7);
        reveal_with_fuel(model::sow, 6);
        reveal_with_fuel(model::landing, 6);
        assert(model::mine(s3)[5] > 0 && model::theirs(s3)[0] > 0);
        assert(model::after(rules, s3, 5) =~= s4);
    }
    lemma_down(rules, s3, 5, 5, s4);
}

proof fn lemma_second_moves(rules: Rules)
    requires
        rules.capture_requires_nonempty_opposite,
    ensures
        least_from(rules, seq![5, 5, 1, 6, 5, 0, 2, 5, 0, 6, 6, 5, 0, 2]) == 19 + least_from(
            rules,
            seq![0, 2, 8, 8, 6, 1, 3, 5, 0, 2, 7, 0, 1, 5],
        ),
{
    let s0: Seq<int> = seq![5, 5, 1, 6, 5, 0, 2, 5, 0, 6, 6, 5, 0, 2];
    let s1: Seq<int> = seq![5, 0, 2, 7, 6, 1, 3, 5, 0, 6, 6, 5, 0, 2];
    let s2: Seq<int> = seq![5, 0, 2, 7, 6, 0, 4, 5, 0, 6, 6, 5, 0, 2];
    let s3: Seq<int> = seq![6, 1, 7, 7, 5, 0, 2, 5, 0, 2, 7, 0, 1, 5];
    let s4: Seq<int> = seq![0, 2, 8, 8, 6, 1, 3, 5, 0, 2, 7, 0, 1, 5];
    assert(tries(rules, s0, 1, 5, s1)) by {
        reveal(tries);
        reveal_with_fuel(effort::first_below, 7);
        reveal_with_fuel(effort::mobility_below, 7);
        reveal_with_fuel(model::sow, 6);
        reveal_with_fuel(model::landing, 6);
        assert(model::mine(s0)[1] > 0 && model::theirs(s0)[0] > 0);
        assert(model::after(rules, s0, 1) =~= s1);
    }
    lemma_down(rules, s0, 1, 5, s1);
    assert(tries(rules, s1, 5, 5, s2)) by {
        reveal(tries);
        reveal_with_fuel(effort::first_below, 7);
        reveal_with_fuel(effort::mobility_below, 7);
        reveal_with_fuel(model::sow, 2);
        reveal_with_fuel(model::landing, 2);
        assert(model::mine(s1)[5] > 0 && model::theirs(s1)[0] > 0);
        assert(model::after(rules, s1, 5) =~= s2);
    }
    lemma_down(rules, s1, 5, 5, s2);
    assert(tries(rules, s2, 4, 4, s3)) by {
        reveal(tries);
        reveal_with_fuel(effort::first_below, 7);
        reveal_with_fuel(effort::mobility_below, 7);
        reveal_with_fuel(model::sow, 7);
        reveal_with_fuel(model::landing, 7);
        assert(model::mine(s2)[4] > 0 && model::theirs(s2)[0] > 0);
        assert(model::after(rules, s2, 4) =~= s3);
    }
    lemma_down(rules, s2, 4, 4, s3);
    assert(tries(rules, s3, 0, 5, s4)) by {
        reveal(tries);
        reveal_with_fuel(effort::first_below, 7);
        reveal_with_fuel(effort::mobility_below, 7);
        reveal_with_fuel(model::sow, 7);
        reveal_with_fuel(model::landing, 7);
        assert(model::mine(s3)[0] > 0 && model::theirs(s3)[0] > 0);
        assert(model::after(rules, s3, 0) =~= s4);
    }
    lemma_down(rules, s3, 0, 5, s4);
}

proof fn lemma_third_moves(rules: Rules)
    requires
        rules.capture_requires_nonempty_opposite,
    ensures
        least_from(rules, seq![0, 2, 8, 8, 6, 1, 3, 5, 0, 2, 7, 0, 1, 5]) == 18 + least_from(
            rules,
            seq![0, 2, 4, 9, 1, 1, 7, 0, 2, 8, 8, 0, 1, 5],
        ),
{
    let s0: Seq<int> = seq![0, 2, 8, 8, 6, 1, 3, 5, 0, 2, 7, 0, 1, 5];
    let s1: Seq<int> = seq![0, 2, 8, 8, 6, 0, 4, 5, 0, 2, 7, 0, 1, 5];
    let s2: Seq<int> = seq![6, 1, 3, 8, 0, 1, 5, 0, 2, 8, 8, 0, 1, 5];
    let s3: Seq<int> = seq![6, 1, 3, 8, 0, 0, 6, 0, 2, 8, 8, 0, 1, 5];
    let s4: Seq<int> = seq![0, 2, 4, 9, 1, 1, 7, 0, 2, 8, 8, 0, 1, 5];
    assert(tries(rules, s0, 5, 5, s1)) by {
        reveal(tries);
        reveal_with_fuel(effort::first_below, 7);
        reveal_with_fuel(effort::mobility_below, 7);
        reveal_with_fuel(model::sow, 2);
        reveal_with_fuel(model::landing, 2);
        assert(model::mine(s0)[5] > 0 && model::theirs(s0)[0] > 0);
        assert(model::after(rules, s0, 5) =~= s1);
    }
    lemma_down(rules, s0, 5, 5, s1);
    assert(tries(rules, s1, 4, 4, s2)) by {
        reveal(tries);
        reveal_with_fuel(effort::first_below, 7);
        reveal_with_fuel(effort::mobility_below, 7);
        reveal_with_fuel(model::sow, 7);
        reveal_with_fuel(model::landing, 7);
        assert(model::mine(s1)[4] > 0 && model::theirs(s1)[0] > 0);
        assert(model::after(rules, s1, 4) =~= s2);
    }
    lemma_down(rules, s1, 4, 4, s2);
    assert(tries(rules, s2, 5, 5, s3)) by {
        reveal(tries);
        reveal_with_fuel(effort::first_below, 7);
        reveal_with_fuel(effort::mobility_below, 7);
        reveal_with_fuel(model::sow, 2);
        reveal_with_fuel(model::landing, 2);
        assert(model::mine(s2)[5] > 0 && model::theirs(s2)[1] > 0);
        assert(model::after(rules, s2, 5) =~= s3);
    }
    lemma_down(rules, s2, 5, 5, s3);
    assert(tries(rules, s3, 0, 4, s4)) by {
        reveal(tries);
        reveal_with_fuel(effort::first_below, 7);
        reveal_with_fuel(effort::mobility_below, 7);
        reveal_with_fuel(model::sow, 7);
        reveal_with_fuel(model::landing, 7);
        assert(model::mine(s3)[0] > 0 && model::theirs(s3)[1] > 0);
        assert(model::after(rules, s3, 0) =~= s4);
    }
    lemma_down(rules, s3, 0, 4, s4);
}

proof fn lemma_fourth_moves(rules: Rules)
    requires
        rules.capture_requires_nonempty_opposite,
    ensures
        least_from(rules, seq![0, 2, 4, 9, 1, 1, 7, 0, 2, 8, 8, 0, 1, 5]) == 16 + least_from(
            rules,
            seq![0, 2, 0, 10, 0, 1, 11, 0, 2, 8, 8, 0, 1, 5],
        ),
{
    let s0: Seq<int> = seq![0, 2, 4, 9, 1, 1, 7, 0, 2, 8, 8, 0, 1, 5];
    let s1: Seq<int> = seq![0, 2, 4, 9, 1, 0, 8, 0, 2, 8, 8, 0, 1, 5];
    let s2: Seq<int> = seq![0, 2, 0, 10, 2, 1, 9, 0, 2, 8, 8, 0, 1, 5];
    let s3: Seq<int> = seq![0, 2, 0, 10, 2, 0, 10, 0, 2, 8, 8, 0, 1, 5];
    let s4: Seq<int> = seq![0, 2, 0, 10, 0, 1, 11, 0, 2, 8, 8, 0, 1, 5];
    assert(tries(rules, s0, 5, 5, s1)) by {
        reveal(tries);
        reveal_with_fuel(effort::first_below, 7);
        reveal_with_fuel(effort::mobility_below, 7);
        reveal_with_fuel(model::sow, 2);
        reveal_with_fuel(model::landing, 2);
        assert(model::mine(s0)[5] > 0 && model::theirs(s0)[1] > 0);
        assert(model::after(rules, s0, 5) =~= s1);
    }
    lemma_down(rules, s0, 5, 5, s1);
    assert(tries(rules, s1, 2, 4, s2)) by {
        reveal(tries);
        reveal_with_fuel(effort::first_below, 7);
        reveal_with_fuel(effort::mobility_below, 7);
        reveal_with_fuel(model::sow, 5);
        reveal_with_fuel(model::landing, 5);
        assert(model::mine(s1)[2] > 0 && model::theirs(s1)[1] > 0);
        assert(model::after(rules, s1, 2) =~= s2);
    }
    lemma_down(rules, s1, 2, 4, s2);
    assert(tries(rules, s2, 5, 4, s3)) by {
        reveal(tries);
        reveal_with_fuel(effort::first_below, 7);
        reveal_with_fuel(effort::mobility_below, 7);
        reveal_with_fuel(model::sow, 2);
        reveal_with_fuel(model::landing, 2);
        assert(model::mine(s2)[5] > 0 && model::theirs(s2)[1] > 0);
        assert(model::after(rules, s2, 5) =~= s3);
    }
    lemma_down(rules, s2, 5, 4, s3);
    assert(tries(rules, s3, 4, 3, s4)) by {
        reveal(tries);
        reveal_with_fuel(effort::first_below, 7);
        reveal_with_fuel(effort::mobility_below, 7);
        reveal_with_fuel(model::sow, 3);
        reveal_with_fuel(model::landing, 3);
        assert(model::mine(s3)[4] > 0 && model::theirs(s3)[1] > 0);
        assert(model::after(rules, s3, 4) =~= s4);
    }
    lemma_down(rules, s3, 4, 3, s4);
}

proof fn lemma_fifth_moves(rules: Rules)
    requires
        rules.capture_requires_nonempty_opposite,
    ensures
        least_from(rules, seq![0, 2, 0, 10, 0, 1, 11, 0, 2, 8, 8, 0, 1, 5]) == 13 + least_from(
            rules,
            seq![0, 2, 0, 0, 1, 0, 17, 1, 3, 9, 9, 0, 1, 5],
        ),
{
    let s0: Seq<int> = seq![0, 2, 0, 10, 0, 1, 11, 0, 2, 8, 8, 0, 1, 5];
    let s1: Seq<int> = seq![0, 2, 0, 10, 0, 0, 12, 0, 2, 8, 8, 0, 1, 5];
    let s2: Seq<int> = seq![1, 3, 9, 9, 1, 0, 5, 0, 2, 0, 0, 1, 1, 16];
    let s3: Seq<int> = seq![0, 2, 0, 0, 1, 1, 16, 1, 3, 9, 9, 0, 1, 5];
    let s4: Seq<int> = seq![0, 2, 0, 0, 1, 0, 17, 1, 3, 9, 9, 0, 1, 5];
    assert(tries(rules, s0, 5, 3, s1)) by {
        reveal(tries);
        reveal_with_fuel(effort::first_below, 7);
        reveal_with_fuel(effort::mobility_below, 7);
        reveal_with_fuel(model::sow, 2);
        reveal_with_fuel(model::landing, 2);
        assert(model::mine(s0)[5] > 0 && model::theirs(s0)[1] > 0);
        assert(model::after(rules, s0, 5) =~= s1);
    }
    lemma_down(rules, s0, 5, 3, s1);
    assert(tries(rules, s1, 3, 2, s2)) by {
        reveal(tries);
        reveal_with_fuel(effort::first_below, 7);
        reveal_with_fuel(effort::mobility_below, 7);
        reveal_with_fuel(model::sow, 11);
        reveal_with_fuel(model::landing, 11);
        assert(model::mine(s1)[3] > 0 && model::theirs(s1)[1] > 0);
        assert(model::after(rules, s1, 3) =~= s2);
    }
    lemma_down(rules, s1, 3, 2, s2);
    assert(tries(rules, s2, 4, 5, s3)) by {
        reveal(tries);
        reveal_with_fuel(effort::first_below, 7);
        reveal_with_fuel(effort::mobility_below, 7);
        reveal_with_fuel(model::sow, 2);
        reveal_with_fuel(model::landing, 2);
        assert(model::mine(s2)[4] > 0 && model::theirs(s2)[1] > 0);
        assert(model::after(rules, s2, 4) =~= s3);
    }
    lemma_down(rules, s2, 4, 5, s3);
    assert(tries(rules, s3, 5, 3, s4)) by {
        reveal(tries);
        reveal_with_fuel(effort::first_below, 7);
        reveal_with_fuel(effort::mobility_below, 7);
        reveal_with_fuel(model::sow, 2);
        reveal_with_fuel(model::landing, 2);
        assert(model::mine(s3)[5] > 0 && model::theirs(s3)[0] > 0);
        assert(model::after(rules, s3, 5) =~= s4);
    }
    lemma_down(rules, s3, 5, 3, s4);
}

proof fn lemma_sixth_moves(rules: Rules)
    requires
        rules.capture_requires_nonempty_opposite,
    ensures
        least_from(rules, seq![0, 2, 0, 0, 1, 0, 17, 1, 3, 9, 9, 0, 1, 5]) == 15 + least_from(
            rules,
            seq![1, 3, 1, 1, 1, 0, 20, 0, 3, 9, 0, 1, 1, 7],
        ),
{
    let s0: Seq<int> = seq![0, 2, 0, 0, 1, 0, 17, 1, 3, 9, 9, 0, 1, 5];
    let s1: Seq<int> = seq![0, 3, 9, 9, 0, 1, 5, 0, 2, 0, 0, 0, 0, 19];
    let s2: Seq<int> = seq![0, 3, 9, 9, 0, 0, 6, 0, 2, 0, 0, 0, 0, 19];
    let s3: Seq<int> = seq![1, 3, 1, 1, 1, 1, 19, 0, 3, 9, 0, 1, 1, 7];
    let s4: Seq<int> = seq![1, 3, 1, 1, 1, 0, 20, 0, 3, 9, 0, 1, 1, 7];
    assert(tries(rules, s0, 4, 2, s1)) by {
        reveal(tries);
        reveal_with_fuel(effort::first_below, 7);
        reveal_with_fuel(effort::mobility_below, 7);
        reveal_with_fuel(model::sow, 2);
        reveal_with_fuel(model::landing, 2);
        assert(model::mine(s0)[4] > 0 && model::theirs(s0)[0] > 0);
        assert(model::after(rules, s0, 4) =~= s1);
    }
    lemma_down(rules, s0, 4, 2, s1);
    assert(tries(rules, s1, 5, 4, s2)) by {
        reveal(tries);
        reveal_with_fuel(effort::first_below, 7);
        reveal_with_fuel(effort::mobility_below, 7);
        reveal_with_fuel(model::sow, 2);
        reveal_with_fuel(model::landing, 2);
        assert(model::mine(s1)[5] > 0 && model::theirs(s1)[1] > 0);
        assert(model::after(rules, s1, 5) =~= s2);
    }
    lemma_down(rules, s1, 5, 4, s2);
    assert(tries(rules, s2, 3, 3, s3)) by {
        reveal(tries);
        reveal_with_fuel(effort::first_below, 7);
        reveal_with_fuel(effort::mobility_below, 7);
        reveal_with_fuel(model::sow, 10);
        reveal_with_fuel(model::landing, 10);
        assert(model::mine(s2)[3] > 0 && model::theirs(s2)[1] > 0);
        assert(model::after(rules, s2, 3) =~= s3);
    }
    lemma_down(rules, s2, 3, 3, s3);
    assert(tries(rules, s3, 5, 6, s4)) by {
        reveal(tries);
        reveal_with_fuel(effort::first_below, 7);
        reveal_with_fuel(effort::mobility_below, 7);
        reveal_with_fuel(model::sow, 2);
        reveal_with_fuel(model::landing, 2);
        assert(model::mine(s3)[5] > 0 && model::theirs(s3)[1] > 0);
        assert(model::after(rules, s3, 5) =~= s4);
    }
    lemma_down(rules, s3, 5, 6, s4);
}

/// An exact search of the standard game uses up every budget of up to a hundred nodes.
pub proof fn lemma_standard_game(b: Board, rules: Rules, budget: u64)
    requires
        b.wf(),
        b.pits() == 6,
        b.counts() == board::opening_cells(6, 4),
        rules.capture_requires_nonempty_opposite,
        budget <= 100,
    ensures
        solver::scant(rules, None, b.pos(), budget),
{
    let s: Seq<int> = seq![4, 4, 4, 4, 4, 4, 0, 4, 4, 4, 4, 4, 4, 0];
    let t: Seq<int> = seq![4, 4, 0, 5, 5, 5, 1, 4, 4, 4, 4, 4, 4, 0];
    b.lemma_seen();
    assert(b.pos() =~= s);
    lemma_first_moves(rules);
    lemma_second_moves(rules);
    lemma_third_moves(rules);
    lemma_fourth_moves(rules);
    lemma_fifth_moves(rules);
    lemma_sixth_moves(rules);
    reveal(least_from);
    effort::lemma_descent_positive(
        searcher::setting(rules, None, 0, false),
        seq![1, 3, 1, 1, 1, 0, 20, 0, 3, 9, 0, 1, 1, 7],
        None,
    );
}

} // verus!
