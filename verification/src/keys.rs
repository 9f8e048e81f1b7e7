//! Keys for tables of positions.
//!
//! Pit counts are packed six bits each, most significant first, the mover's row
//! before the opponent's. Kalah is player-symmetric, so packing mover-first lets
//! the two mirrors of a position share one key. A count that does not fit into
//! six bits, or a board too wide for the integer, has no key.

use vstd::prelude::*;

use crate::board::{Board, Player};
use crate::model;
use crate::tt;
use crate::value;

verus! {

/// Counts below this bound fit into one packed digit.
pub const DIGIT: u8 = 64;

/// The widest board whose pits fit into a packed key.
pub const MAX_PACKED_PITS: usize = 10;

/// Every count of a row fits into one packed digit.
pub open spec fn small(row: Seq<int>) -> bool {
    forall|j: int| 0 <= j < row.len() ==> 0 <= #[trigger] row[j] < DIGIT
}

/// A row read as a number in base 64.
pub open spec fn packed(row: Seq<int>) -> int
    decreases row.len(),
{
    if row.len() == 0 {
        0
    } else {
        packed(row.drop_last()) * 64 + row.last()
    }
}

/// How many rows of `len` small counts there are.
pub open spec fn rows(len: nat) -> int
    decreases len,
{
    if len == 0 {
        1
    } else {
        64 * rows((len - 1) as nat)
    }
}

pub proof fn lemma_packed_bound(row: Seq<int>)
    requires
        small(row),
    ensures
        0 <= packed(row) < rows(row.len()),
    decreases row.len(),
{
    if row.len() > 0 {
        assert forall|j: int| 0 <= j < row.drop_last().len() implies 0
            <= #[trigger] row.drop_last()[j] < DIGIT by {
            assert(row.drop_last()[j] == row[j]);
        }
        lemma_packed_bound(row.drop_last());
        assert(row[row.len() - 1] < DIGIT);
    }
}

pub proof fn lemma_rows()
    ensures
        rows(16) == 0x1_0000_0000_0000_0000_0000_0000,
        rows(20) == 0x100_0000_0000_0000_0000_0000_0000_0000,
        forall|a: nat, b: nat| a <= b ==> #[trigger] rows(a) <= #[trigger] rows(b),
{
    reveal_with_fuel(rows, 21);
    assert(rows(4) == 0x100_0000);
    assert(rows(8) == 0x1_0000_0000_0000);
    assert(rows(12) == 0x100_0000_0000_0000_0000);
    assert forall|a: nat, b: nat| a <= b implies #[trigger] rows(a) <= #[trigger] rows(b) by {
        lemma_rows_monotone(a, b);
    }
}

proof fn lemma_rows_monotone(a: nat, b: nat)
    requires
        a <= b,
    ensures
        1 <= rows(a) <= rows(b),
    decreases b,
{
    if a < b {
        lemma_rows_monotone(a, (b - 1) as nat);
    } else if a > 0 {
        lemma_rows_monotone((a - 1) as nat, (a - 1) as nat);
    }
}

/// Rows of one length with the same packing are equal.
pub proof fn lemma_packed_injective(a: Seq<int>, b: Seq<int>)
    requires
        small(a),
        small(b),
        a.len() == b.len(),
        packed(a) == packed(b),
    ensures
        a == b,
    decreases a.len(),
{
    if a.len() > 0 {
        let n = a.len() - 1;
        assert(0 <= a[n] < DIGIT && 0 <= b[n] < DIGIT);
        assert forall|j: int| 0 <= j < n implies 0 <= #[trigger] a.drop_last()[j] < DIGIT by {
            assert(a.drop_last()[j] == a[j]);
        }
        assert forall|j: int| 0 <= j < n implies 0 <= #[trigger] b.drop_last()[j] < DIGIT by {
            assert(b.drop_last()[j] == b[j]);
        }
        lemma_packed_injective(a.drop_last(), b.drop_last());
        assert(a =~= a.drop_last().push(a[n]));
        assert(b =~= b.drop_last().push(b[n]));
    } else {
        assert(a =~= b);
    }
}

/// A position whose pits have a key.
pub open spec fn packable(s: Seq<int>) -> bool {
    model::pits(s) <= MAX_PACKED_PITS && small(value::layout(s))
}

/// A row folded into a word, six bits per count, the first ones highest: what does not fit
/// into the word is lost, and a count of more than six bits runs into the one before it.
pub open spec fn folded(row: Seq<int>) -> u128
    decreases row.len(),
{
    if row.len() == 0 {
        0
    } else {
        (folded(row.drop_last()) << 6) | (row.last() as u128)
    }
}

/// Where every count has six bits of its own, folding a row reads it as a number.
pub proof fn lemma_folded(row: Seq<int>)
    requires
        small(row),
        row.len() <= 20,
    ensures
        folded(row) == packed(row),
    decreases row.len(),
{
    lemma_rows();
    if row.len() > 0 {
        let front = row.drop_last();
        assert forall|j: int| 0 <= j < front.len() implies 0 <= #[trigger] front[j] < DIGIT by {
            assert(front[j] == row[j]);
        }
        lemma_folded(front);
        lemma_packed_bound(front);
        assert(front.len() <= 19);
        assert(rows(front.len()) <= rows(19));
        assert(rows(20) == 64 * rows(19));
        let k = folded(front);
        let c = row.last() as u128;
        assert(row[row.len() - 1] < DIGIT);
        assert((k << 6) | c == k * 64 + c) by (bit_vector)
            requires
                k < 0x4_0000_0000_0000_0000_0000_0000_0000,
                c < 64,
        ;
    }
}

/// The key of a pit layout of any board: the mover's pits, then the opponent's, folded.
pub fn folded_key(b: &Board) -> (key: u128)
    ensures
        key == folded(value::layout(b.pos())),
{
    proof {
        use_type_invariant(b);
        b.lemma_seen();
        model::lemma_flip(b.pos());
    }
    let ghost s = b.pos();
    let ghost l = value::layout(s);
    let p = b.turn();
    let n = b.pits_per_side();
    let mut key: u128 = 0;
    let mut i: usize = 0;
    assert(l.take(0) =~= Seq::<int>::empty());
    while i < 2 * n
        invariant
            n == b.pits(),
            n <= crate::board::MAX_PITS,
            i <= 2 * n,
            b.wf(),
            p == b.mover(),
            s == b.pos(),
            s == b.seen_by(p),
            b.seen_by(p.opponent()) == model::flip(s),
            model::valid(s),
            s.len() == 2 * n + 2,
            l == value::layout(s),
            key == folded(l.take(i as int)),
        decreases 2 * n - i,
    {
        let c: u8 = if i < n {
            b.pit(p, i)
        } else {
            b.pit(p.other(), i - n)
        };
        proof {
            assert(l[i as int] == c);
            assert(l.take(i + 1).drop_last() =~= l.take(i as int));
        }
        key = (key << 6) | c as u128;
        i = i + 1;
    }
    assert(l.take(2 * n as int) =~= l);
    key
}

/// Append player `p`'s pits, then, when `store` asks for it, that player's store
/// to the row that `key` packs. `None` if a count does not fit.
pub(crate) fn pack_side(
    b: &Board,
    p: Player,
    store: bool,
    key: u128,
    Ghost(row): Ghost<Seq<int>>,
) -> (res: Option<u128>)
    requires
        key == packed(row),
        small(row),
        row.len() + b.pits() + 1 <= 20 || (row.len() + b.pits() <= 20 && !store),
    ensures
        ({
            let s = b.seen_by(p);
            let side = if store {
                model::mine(s).push(model::bank(s))
            } else {
                model::mine(s)
            };
            match res {
                Some(k) => small(side) && small(row + side) && k == packed(row + side),
                None => !small(side),
            }
        }),
{
    proof {
        use_type_invariant(b);
        b.lemma_seen();
        lemma_rows();
    }
    let ghost s = b.seen_by(p);
    let ghost mine = model::mine(s);
    let n = b.pits_per_side();
    let mut k: u128 = key;
    let mut i: usize = 0;
    assert(row + mine.take(0) =~= row);
    while i < n
        invariant
            n == b.pits(),
            i <= n,
            s == b.seen_by(p),
            mine == model::mine(s),
            mine.len() == n,
            model::valid(s),
            row.len() + n <= 20,
            small(row + mine.take(i as int)),
            k == packed(row + mine.take(i as int)),
            rows(20) == 0x100_0000_0000_0000_0000_0000_0000_0000,
            forall|a: nat, b: nat| a <= b ==> #[trigger] rows(a) <= #[trigger] rows(b),
        decreases n - i,
    {
        let c = b.pit(p, i);
        let ghost so_far = row + mine.take(i as int);
        assert(mine[i as int] == c);
        if c >= DIGIT {
            proof {
                let side = if store {
                    mine.push(model::bank(s))
                } else {
                    mine
                };
                assert(side[i as int] == c);
            }
            return None;
        }
        proof {
            lemma_packed_bound(so_far);
            assert(so_far.len() <= 20);
            assert(rows(so_far.len()) <= rows(20));
            let next = row + mine.take(i + 1);
            assert(next.drop_last() =~= so_far);
            assert forall|j: int| 0 <= j < next.len() implies 0 <= #[trigger] next[j] < DIGIT by {
                if j < so_far.len() {
                    assert(next[j] == so_far[j]);
                }
            }
        }
        k = k * 64 + c as u128;
        i = i + 1;
    }
    assert(mine.take(n as int) =~= mine);
    assert forall|j: int| 0 <= j < mine.len() implies 0 <= #[trigger] mine[j] < DIGIT by {
        assert((row + mine)[row.len() + j] == mine[j]);
    }
    if store {
        let c = b.store(p);
        let ghost side = mine.push(model::bank(s));
        if c >= DIGIT {
            assert(side[n as int] == c);
            return None;
        }
        proof {
            lemma_packed_bound(row + mine);
            assert(rows((row + mine).len()) <= rows(20));
            let next = row + side;
            assert(next.drop_last() =~= row + mine);
            assert forall|j: int| 0 <= j < next.len() implies 0 <= #[trigger] next[j] < DIGIT by {
                if j < (row + mine).len() {
                    assert(next[j] == (row + mine)[j]);
                }
            }
            assert forall|j: int| 0 <= j < side.len() implies 0 <= #[trigger] side[j] < DIGIT by {
                assert(next[row.len() + j] == side[j]);
            }
        }
        k = k * 64 + c as u128;
    }
    Some(k)
}

/// The key of a pit layout: the mover's pits, then the opponent's, six bits per
/// pit. Neither the stores nor the player to move enter it.
pub fn layout_key(b: &Board) -> (key: Option<u128>)
    ensures
        match key {
            Some(k) => packable(b.pos()) && k == packed(value::layout(b.pos())),
            None => !packable(b.pos()),
        },
{
    proof {
        use_type_invariant(b);
        b.lemma_seen();
    }
    let ghost s = b.pos();
    if b.pits_per_side() > MAX_PACKED_PITS {
        return None;
    }
    let p = b.turn();
    let ghost mine = model::mine(s);
    let ghost theirs = model::theirs(s);
    proof {
        assert(Seq::<int>::empty() + mine =~= mine);
        model::lemma_flip(s);
        assert(model::mine(b.seen_by(p.opponent())) == theirs);
        if small(mine + theirs) {
            assert forall|j: int| 0 <= j < mine.len() implies 0 <= #[trigger] mine[j] < DIGIT by {
                assert((mine + theirs)[j] == mine[j]);
            }
            assert forall|j: int| 0 <= j < theirs.len() implies 0 <= #[trigger] theirs[j]
                < DIGIT by {
                assert((mine + theirs)[mine.len() + j] == theirs[j]);
            }
        }
    }
    match pack_side(b, p, false, 0, Ghost(Seq::<int>::empty())) {
        None => None,
        Some(k) => pack_side(b, p.other(), false, k, Ghost(mine)),
    }
}

// ---------------------------------------------------------------------------
// Keys of searched positions
// ---------------------------------------------------------------------------

/// The last byte of the key of a search to the end of the game. Other searches
/// have the depth there.
pub const EXACT_MARK: u128 = 255;

/// The widest board that a search to the end of the game caches.
pub const MAX_EXACT_PITS: usize = 8;

/// The widest board that a search to a depth caches.
pub const MAX_LIMITED_PITS: usize = 7;

/// The key under which a search caches a position, if it does: the pits, and the
/// stores too when the search goes to a depth and its estimates depend on them,
/// followed by a byte that tells the depth.
pub open spec fn cache_key(s: Seq<int>, depth: Option<int>) -> Option<u128> {
    match depth {
        None => if model::pits(s) <= MAX_EXACT_PITS && small(value::layout(s)) {
            Some((packed(value::layout(s)) * 256 + EXACT_MARK) as u128)
        } else {
            None
        },
        Some(d) => if model::pits(s) <= MAX_LIMITED_PITS && 1 <= d < EXACT_MARK && small(s) {
            Some((packed(s) * 256 + d) as u128)
        } else {
            None
        },
    }
}

/// A cache key is not zero, and it leaves room for a payload.
pub proof fn lemma_cache_key_range(s: Seq<int>, depth: Option<int>)
    requires
        model::valid(s),
        cache_key(s, depth) is Some,
    ensures
        0 < cache_key(s, depth)->0 < tt::KEY_LIMIT,
        cache_key(s, depth)->0 as int == match depth {
            None => packed(value::layout(s)) * 256 + EXACT_MARK,
            Some(d) => packed(s) * 256 + d,
        },
{
    let row = match depth {
        None => value::layout(s),
        Some(_) => s,
    };
    lemma_packed_bound(row);
    lemma_rows();
    assert(row.len() <= 16);
    assert(rows(row.len()) <= rows(16));
}

/// On one board size, positions with the same cache key are searched to the same
/// depth and have the same pits; in a search to a depth they are the same.
pub proof fn lemma_cache_key_injective(
    s: Seq<int>,
    t: Seq<int>,
    depth_s: Option<int>,
    depth_t: Option<int>,
)
    requires
        model::valid(s),
        model::valid(t),
        model::pits(s) == model::pits(t),
        cache_key(s, depth_s) is Some,
        cache_key(s, depth_s) == cache_key(t, depth_t),
    ensures
        depth_s == depth_t,
        value::layout(s) == value::layout(t),
        depth_s is Some ==> s == t,
{
    lemma_cache_key_range(s, depth_s);
    lemma_cache_key_range(t, depth_t);
    let key = cache_key(s, depth_s)->0 as int;
    match depth_s {
        None => {
            assert(key % 256 == 255);
            assert(depth_t is None);
            lemma_packed_injective(value::layout(s), value::layout(t));
        },
        Some(d) => {
            assert(key % 256 == d);
            assert(depth_t is Some);
            lemma_packed_injective(s, t);
        },
    }
}

/// A depth as an integer.
pub open spec fn depth_int(depth: Option<u32>) -> Option<int> {
    match depth {
        None => None,
        Some(d) => Some(d as int),
    }
}

/// The key under which a search caches a position. Packing the side to move's
/// cells first makes **mirror positions** share one key. `None` when the key would
/// not fit (only large boards, extremely full pits or extreme depths).
pub fn search_key(b: &Board, depth: Option<u32>) -> (key: Option<u128>)
    ensures
        key == cache_key(b.pos(), depth_int(depth)),
{
    proof {
        use_type_invariant(b);
        b.lemma_seen();
        lemma_rows();
    }
    let ghost s = b.pos();
    match depth {
        None => {
            if b.pits_per_side() > MAX_EXACT_PITS {
                return None;
            }
            match layout_key(b) {
                None => None,
                Some(k) => {
                    proof {
                        lemma_packed_bound(value::layout(s));
                        assert(rows(value::layout(s).len()) <= rows(16));
                    }
                    Some(k * 256 + EXACT_MARK)
                },
            }
        },
        Some(d) => {
            if b.pits_per_side() > MAX_LIMITED_PITS || d == 0 || d as u128 >= EXACT_MARK {
                return None;
            }
            let p = b.turn();
            let ghost mine = model::mine(s).push(model::bank(s));
            let ghost theirs = model::theirs(s).push(model::their_bank(s));
            proof {
                model::lemma_flip(s);
                assert(b.seen_by(p.opponent()) == model::flip(s));
                assert(Seq::<int>::empty() + mine =~= mine);
                assert(mine + theirs =~= s);
                if small(s) {
                    assert forall|j: int| 0 <= j < mine.len() implies 0 <= #[trigger] mine[j]
                        < DIGIT by {
                        assert(s[j] == mine[j]);
                    }
                    assert forall|j: int| 0 <= j < theirs.len() implies 0 <= #[trigger] theirs[j]
                        < DIGIT by {
                        assert(s[mine.len() + j] == theirs[j]);
                    }
                }
            }
            match pack_side(b, p, true, 0, Ghost(Seq::<int>::empty())) {
                None => None,
                Some(k) => match pack_side(b, p.other(), true, k, Ghost(mine)) {
                    None => None,
                    Some(k) => {
                        proof {
                            lemma_packed_bound(s);
                            assert(rows(s.len()) <= rows(16));
                        }
                        Some(k * 256 + d as u128)
                    },
                },
            }
        },
    }
}

// ---------------------------------------------------------------------------
// Laws of keys
// ---------------------------------------------------------------------------

/// Each count of a row has six bits of its own in the key, those of the first count highest.
pub proof fn lemma_packed_digit(row: Seq<int>, j: int)
    requires
        forall|i: int| 0 <= i < row.len() ==> 0 <= #[trigger] row[i] < 64,
        0 <= j < row.len(),
    ensures
        (packed(row) / rows((row.len() - 1 - j) as nat)) % 64 == row[j],
        rows((row.len() - 1 - j) as nat) >= 1,
    decreases row.len(),
{
    let front = row.drop_last();
    let last = row.last();
    assert(last == row[row.len() - 1]);
    lemma_rows_monotone(0, (row.len() - 1 - j) as nat);
    assert(small(front)) by {
        assert forall|i: int| 0 <= i < front.len() implies 0 <= #[trigger] front[i] < 64 by {
            assert(front[i] == row[i]);
        }
    }
    lemma_packed_bound(front);
    let p = packed(row);
    assert(p % 64 == last && p / 64 == packed(front));
    if j == row.len() - 1 {
        assert(p / 1 == p);
    } else {
        assert forall|i: int| 0 <= i < front.len() implies 0 <= #[trigger] front[i] < 64 by {
            assert(front[i] == row[i]);
        }
        lemma_packed_digit(front, j);
        let t = rows((front.len() - 1 - j) as nat);
        assert(p / (64 * t) == (p / 64) / t) by (nonlinear_arith)
            requires
                t >= 1,
                p >= 0,
        ;
    }
}

/// Which positions are cached, and under which keys. A search to the end of the game caches
/// positions with up to 8 pits per side and fewer than 64 seeds in each pit, by the pits and
/// a last byte of 255; a search to a depth of 1 to 254 caches those with up to 7 pits per
/// side and fewer than 64 seeds in each cell, by all cells and the depth.
pub proof fn lemma_cached(s: Seq<int>, depth: Option<int>)
    requires
        model::valid(s),
    ensures
        depth is None ==> (cache_key(s, depth) is Some <==> s.len() <= 18 && forall|i: int|
            0 <= i < s.len() - 1 && i != s.len() / 2 - 1 ==> #[trigger] s[i] < 64),
        depth matches Some(d) ==> (cache_key(s, depth) is Some <==> s.len() <= 16 && 1 <= d <= 254
            && forall|i: int| 0 <= i < s.len() ==> #[trigger] s[i] < 64),
        cache_key(s, depth) matches Some(key) ==> {
            &&& depth is None ==> key == packed(model::mine(s) + model::theirs(s)) * 256 + 255
            &&& depth matches Some(d) ==> key == packed(s) * 256 + d
        },
{
    let l = value::layout(s);
    let n = model::pits(s);
    if cache_key(s, depth) is Some {
        lemma_cache_key_range(s, depth);
    }
    assert(l =~= model::mine(s) + model::theirs(s));
    if depth is None {
        if small(l) {
            assert forall|i: int| 0 <= i < s.len() - 1 && i != s.len() / 2 - 1 implies #[trigger] s[i]
                < 64 by {
                if i < n {
                    assert(l[i] == s[i]);
                } else {
                    assert(l[i - 1] == s[i]);
                }
            }
        }
        if forall|i: int|
            0 <= i < s.len() - 1 && i != s.len() / 2 - 1 ==> #[trigger] s[i] < 64 {
            assert forall|j: int| 0 <= j < l.len() implies 0 <= #[trigger] l[j] < DIGIT by {
                if j < n {
                    assert(l[j] == s[j]);
                } else {
                    assert(l[j] == s[j + 1]);
                }
            }
        }
    }
}

} // verus!
