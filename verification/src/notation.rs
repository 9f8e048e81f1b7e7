//! Parsing and formatting of compact board-notation strings.
//!
//! A position is written as two comma-separated groups separated by `|`:
//!
//! ```text
//! p0_0,p0_1,...,p0_{N-1},p0_store | p1_0,p1_1,...,p1_{N-1},p1_store
//! ```
//!
//! The left group is player 0's pits followed by player 0's store; the right group is
//! player 1's pits followed by player 1's store. Both groups must have the same length,
//! and `N` (pits per side) is inferred as `len - 1`.
//!
//! Example (Kalah(6,4) start): `4,4,4,4,4,4,0 | 4,4,4,4,4,4,0`

use vstd::prelude::*;

use crate::board;
use crate::board::{Board, Player};
use crate::model;
use crate::text;

verus! {

// ---------------------------------------------------------------------------
// What a text means
// ---------------------------------------------------------------------------

/// The complaint about a value that is not a seed count.
pub open spec fn bad_count(tok: Seq<char>) -> Seq<char> {
    "'"@ + tok + "' is not a valid seed count (0..=255)"@
}

/// The counts that texts spell, leaving out blank ones; the complaint about the first
/// that is not a seed count, if there is one.
pub open spec fn counts_of(parts: Seq<Seq<char>>) -> Result<Seq<int>, Seq<char>>
    decreases parts.len(),
{
    if parts.len() == 0 {
        Ok(Seq::empty())
    } else {
        match counts_of(parts.drop_last()) {
            Err(e) => Err(e),
            Ok(counts) => {
                let tok = text::trimmed(parts.last());
                if tok.len() == 0 {
                    Ok(counts)
                } else {
                    match text::number(tok, 255) {
                        Some(n) => Ok(counts.push(n)),
                        None => Err(bad_count(tok)),
                    }
                }
            },
        }
    }
}

/// The counts of one side.
pub open spec fn side_counts(side: Seq<char>) -> Result<Seq<int>, Seq<char>> {
    counts_of(text::split(side, ','))
}

/// The complaint about a text that does not have two sides.
pub open spec fn bad_sides(found: int) -> Seq<char> {
    "expected exactly one '|' separating the two sides, found "@ + text::decimal(found)
}

/// The complaint about sides of different lengths.
pub open spec fn uneven_sides(a: int, b: int) -> Seq<char> {
    "both sides must list the same number of values (got "@ + text::decimal(a) + " and "@
        + text::decimal(b) + ")"@
}

/// The cells that a text describes, in board order, or the complaint about it.
pub open spec fn parsed(s: Seq<char>) -> Result<Seq<int>, Seq<char>> {
    let sides = text::split(s, '|');
    if sides.len() != 2 {
        Err(bad_sides(sides.len() - 1))
    } else {
        match (side_counts(sides[0]), side_counts(sides[1])) {
            (Err(e), _) => Err(e),
            (_, Err(e)) => Err(e),
            (Ok(a), Ok(b)) => if a.len() != b.len() {
                Err(uneven_sides(a.len() as int, b.len() as int))
            } else if a.len() < 2 {
                Err("each side must list at least one pit plus a store"@)
            } else {
                match board::board_error(a.len() - 1, a + b) {
                    Some(e) => Err(e),
                    None => Ok(a + b),
                }
            },
        }
    }
}

/// Counts, separated by commas.
pub open spec fn joined(counts: Seq<int>) -> Seq<char>
    decreases counts.len(),
{
    if counts.len() == 0 {
        Seq::empty()
    } else if counts.len() == 1 {
        text::decimal(counts[0])
    } else {
        joined(counts.drop_last()) + ","@ + text::decimal(counts.last())
    }
}

/// The notation of a board with these cells, in board order.
pub open spec fn notation_of(cells: Seq<int>) -> Seq<char> {
    let half = (cells.len() / 2) as int;
    joined(cells.take(half)) + " | "@ + joined(cells.skip(half))
}

// ---------------------------------------------------------------------------
// Parsing and formatting
// ---------------------------------------------------------------------------

/// Parse a board-notation string into a [`Board`] with the given side to move.
pub fn parse(s: &str, turn: Player) -> (res: Result<Board, String>)
    ensures
        match res {
            Ok(b) => {
                &&& parsed(s@) matches Ok(cells) && b.counts() == cells
                &&& b.mover() == turn
                &&& b.wf()
            },
            Err(e) => parsed(s@) == Err::<Seq<int>, Seq<char>>(e@),
        },
{
    let sides = text::split_on(s, '|');
    proof {
        assert(text::views(sides@).len() == sides@.len());
    }
    if sides.len() != 2 {
        let mut e = String::from_str("expected exactly one '|' separating the two sides, found ");
        text::push_decimal(&mut e, (sides.len() - 1) as u64);
        return Err(e);
    }
    proof {
        assert(text::views(sides@)[0] == sides@[0]@);
        assert(text::views(sides@)[1] == sides@[1]@);
    }
    let p0 = match parse_side(sides[0]) {
        Ok(v) => v,
        Err(e) => {
            return Err(e);
        },
    };
    let p1 = match parse_side(sides[1]) {
        Ok(v) => v,
        Err(e) => {
            return Err(e);
        },
    };
    if p0.len() != p1.len() {
        let mut e = String::from_str("both sides must list the same number of values (got ");
        text::push_decimal(&mut e, p0.len() as u64);
        e.append(" and ");
        text::push_decimal(&mut e, p1.len() as u64);
        e.append(")");
        return Err(e);
    }
    if p0.len() < 2 {
        return Err(String::from_str("each side must list at least one pit plus a store"));
    }
    let n: usize = p0.len() - 1;  // the last value of each group is that side's store
    let ghost cells = board::ints(p0@) + board::ints(p1@);
    let mut all: Vec<u8> = p0;
    let mut rest: Vec<u8> = p1;
    all.append(&mut rest);
    assert(board::ints(all@) =~= cells);
    Board::new(n, all, turn)
}

/// The counts of one side.
fn parse_side(s: &str) -> (res: Result<Vec<u8>, String>)
    ensures
        match res {
            Ok(v) => side_counts(s@) == Ok::<Seq<int>, Seq<char>>(board::ints(v@)),
            Err(e) => side_counts(s@) == Err::<Seq<int>, Seq<char>>(e@),
        },
{
    let parts = text::split_on(s, ',');
    let ghost all = text::views(parts@);
    let mut counts: Vec<u8> = Vec::new();
    let mut i: usize = 0;
    assert(all.take(0) =~= Seq::<Seq<char>>::empty());
    assert(board::ints(counts@) =~= Seq::<int>::empty());
    while i < parts.len()
        invariant
            all == text::views(parts@),
            all.len() == parts@.len(),
            all == text::split(s@, ','),
            i <= all.len(),
            counts_of(all.take(i as int)) == Ok::<Seq<int>, Seq<char>>(board::ints(counts@)),
        decreases all.len() - i,
    {
        assert(all.take(i + 1).drop_last() =~= all.take(i as int));
        assert(all.take(i + 1).last() == parts@[i as int]@);
        let tok = text::trim(parts[i]);
        if !is_blank(tok) {
            match text::parse_number(tok, 255) {
                Some(n) => {
                    let ghost before = counts@;
                    counts.push(n as u8);
                    assert(board::ints(counts@) =~= board::ints(before).push(n as int));
                },
                None => {
                    let mut e = String::from_str("'");
                    e.append(tok);
                    e.append("' is not a valid seed count (0..=255)");
                    proof {
                        lemma_first_complaint(all, i + 1);
                    }
                    return Err(e);
                },
            }
        }
        i = i + 1;
    }
    assert(all.take(all.len() as int) =~= all);
    Ok(counts)
}

/// Whether a text is empty.
fn is_blank(s: &str) -> (blank: bool)
    ensures
        blank == (s@.len() == 0),
{
    s.unicode_len() == 0
}

/// The complaint about a front part is the complaint about the whole.
proof fn lemma_first_complaint(parts: Seq<Seq<char>>, k: int)
    requires
        0 <= k <= parts.len(),
        counts_of(parts.take(k)) is Err,
    ensures
        counts_of(parts) == counts_of(parts.take(k)),
    decreases parts.len() - k,
{
    if k < parts.len() {
        assert(parts.take(k + 1).drop_last() =~= parts.take(k));
        lemma_first_complaint(parts, k + 1);
    } else {
        assert(parts.take(k) =~= parts);
    }
}

/// Append counts, separated by commas.
fn push_joined(out: &mut String, counts: &[u8])
    ensures
        final(out)@ == old(out)@ + joined(board::ints(counts@)),
{
    let ghost all = board::ints(counts@);
    let ghost start = out@;
    let mut i: usize = 0;
    assert(all.take(0) =~= Seq::<int>::empty());
    assert(start + joined(all.take(0)) =~= start);
    while i < counts.len()
        invariant
            all == board::ints(counts@),
            i <= all.len(),
            out@ == start + joined(all.take(i as int)),
        decreases all.len() - i,
    {
        if i > 0 {
            out.append(",");
        }
        text::push_decimal(out, counts[i] as u64);
        proof {
            assert(all.take(i + 1).drop_last() =~= all.take(i as int));
            assert(all.take(i + 1).last() == counts@[i as int]);
            assert(out@ =~= start + joined(all.take(i + 1)));
        }
        i = i + 1;
    }
    assert(all.take(all.len() as int) =~= all);
}

/// Format a [`Board`] back into notation (round-trips with [`parse`]).
pub fn format(b: &Board) -> (s: String)
    ensures
        s@ == notation_of(b.counts()),
{
    proof {
        use_type_invariant(b);
    }
    let n = b.pits_per_side();
    let cells = b.cells();
    let mut out = String::new();
    let left = vstd::slice::slice_subrange(cells, 0, n + 1);
    let right = vstd::slice::slice_subrange(cells, n + 1, 2 * n + 2);
    proof {
        let all = b.counts();
        assert(board::ints(left@) =~= all.take(n + 1));
        assert(board::ints(right@) =~= all.skip(n + 1));
    }
    push_joined(&mut out, left);
    out.append(" | ");
    push_joined(&mut out, right);
    assert(out@ =~= notation_of(b.counts()));
    out
}

// ---------------------------------------------------------------------------
// What is formatted can be parsed
// ---------------------------------------------------------------------------

/// Only white space.
spec fn blank(s: Seq<char>) -> bool {
    forall|j: int| 0 <= j < s.len() ==> text::is_space(#[trigger] s[j])
}

proof fn lemma_trim_start(p: Seq<char>, x: Seq<char>)
    requires
        blank(p),
        x.len() > 0,
        !text::is_space(x.first()),
    ensures
        text::trim_start(p + x) == x,
    decreases p.len(),
{
    if p.len() == 0 {
        assert(p + x =~= x);
    } else {
        let rest = p.drop_first();
        assert(text::is_space(p[0]));
        assert forall|j: int| 0 <= j < rest.len() implies text::is_space(#[trigger] rest[j]) by {
            assert(rest[j] == p[j + 1]);
        }
        assert((p + x).drop_first() =~= rest + x);
        assert((p + x).first() == p[0]);
        lemma_trim_start(rest, x);
    }
}

proof fn lemma_trim_end(x: Seq<char>, q: Seq<char>)
    requires
        blank(q),
        x.len() > 0,
        !text::is_space(x.last()),
    ensures
        text::trim_end(x + q) == x,
    decreases q.len(),
{
    if q.len() == 0 {
        assert(x + q =~= x);
    } else {
        let rest = q.drop_last();
        assert(text::is_space(q[q.len() - 1]));
        assert forall|j: int| 0 <= j < rest.len() implies text::is_space(#[trigger] rest[j]) by {
            assert(rest[j] == q[j]);
        }
        assert((x + q).drop_last() =~= x + rest);
        assert((x + q).last() == q.last());
        lemma_trim_end(x, rest);
    }
}

/// A count between blanks is read back.
proof fn lemma_token(p: Seq<char>, n: int, q: Seq<char>)
    requires
        blank(p),
        blank(q),
        0 <= n <= 255,
    ensures
        text::trimmed(p + text::decimal(n) + q) == text::decimal(n),
        text::decimal(n).len() > 0,
        text::number(text::decimal(n), 255) == Some(n),
        forall|c: char| #[trigger]
            (p + text::decimal(n) + q).contains(c) ==> text::is_digit(c) || text::is_space(c),
{
    let d = text::decimal(n);
    text::lemma_decimal(n);
    assert(text::is_digit(d[0]));
    assert(text::is_digit(d[d.len() - 1]));
    assert(p + d + q =~= p + (d + q));
    assert((d + q).first() == d[0]);
    lemma_trim_start(p, d + q);
    lemma_trim_end(d, q);
    let s = p + d + q;
    assert forall|c: char| #[trigger] s.contains(c) implies text::is_digit(c) || text::is_space(c) by {
        let j = choose|j: int| 0 <= j < s.len() && s[j] == c;
        if j < p.len() {
            assert(text::is_space(p[j]));
        } else if j < p.len() + d.len() {
            assert(text::is_digit(d[j - p.len()]));
        } else {
            assert(text::is_space(q[j - p.len() - d.len()]));
        }
    }
}

/// Counts between blanks are read back.
proof fn lemma_side(p: Seq<char>, counts: Seq<int>, q: Seq<char>)
    requires
        blank(p),
        blank(q),
        counts.len() > 0,
        forall|j: int| 0 <= j < counts.len() ==> 0 <= #[trigger] counts[j] <= 255,
    ensures
        side_counts(p + joined(counts) + q) == Ok::<Seq<int>, Seq<char>>(counts),
        !(p + joined(counts) + q).contains('|'),
    decreases counts.len(),
{
    let last = counts.last();
    let d = text::decimal(last);
    let none = Seq::<char>::empty();
    let s = p + joined(counts) + q;
    assert(counts[counts.len() - 1] <= 255);
    if counts.len() == 1 {
        lemma_token(p, last, q);
        assert(joined(counts) == d);
        assert(!(p + d + q).contains(','));
        assert(!(p + d + q).contains('|'));
        text::lemma_split_whole(s, ',');
        let parts = text::split(s, ',');
        assert(parts.drop_last() =~= Seq::<Seq<char>>::empty());
        assert(counts_of(parts.drop_last()) == Ok::<Seq<int>, Seq<char>>(Seq::empty()));
        assert(parts.last() == s);
        assert(Seq::<int>::empty().push(last) =~= counts);
    } else {
        let front = counts.drop_last();
        assert forall|j: int| 0 <= j < front.len() implies 0 <= #[trigger] front[j] <= 255 by {
            assert(front[j] == counts[j]);
        }
        lemma_side(p, front, none);
        lemma_token(none, last, q);
        reveal_strlit(",");
        let a = p + joined(front);
        let b = d + q;
        assert(p + joined(front) + none =~= a);
        assert(none + d + q =~= b);
        assert(s =~= a.push(',') + b);
        text::lemma_split_join(a, b, ',');
        assert(!b.contains(','));
        text::lemma_split_whole(b, ',');
        let parts = text::split(s, ',');
        assert(parts.drop_last() =~= text::split(a, ','));
        assert(parts.last() == b);
        assert(front.push(last) =~= counts);
        assert(!s.contains('|')) by {
            if s.contains('|') {
                let j = choose|j: int| 0 <= j < s.len() && s[j] == '|';
                if j < a.len() {
                    assert(a[j] == '|');
                    assert(a.contains('|'));
                } else if j > a.len() {
                    assert(b[j - a.len() - 1] == '|');
                    assert(b.contains('|'));
                }
            }
        }
    }
}

/// Formatting and parsing round-trip: the notation of the cells of a board is parsed as
/// these cells.
pub proof fn lemma_round_trip(n: int, cells: Seq<int>)
    requires
        board::board_error(n, cells) is None,
        n >= 1,
        forall|j: int| 0 <= j < cells.len() ==> 0 <= #[trigger] cells[j],
    ensures
        parsed(notation_of(cells)) == Ok::<Seq<int>, Seq<char>>(cells),
{
    let a = cells.take(n + 1);
    let b = cells.skip(n + 1);
    let none = Seq::<char>::empty();
    let gap = seq![' '];
    model::lemma_total_nonneg(cells);
    assert forall|j: int| 0 <= j < a.len() implies 0 <= #[trigger] a[j] <= 255 by {
        assert(a[j] == cells[j]);
    }
    assert forall|j: int| 0 <= j < b.len() implies 0 <= #[trigger] b[j] <= 255 by {
        assert(b[j] == cells[n + 1 + j]);
    }
    lemma_side(none, a, gap);
    lemma_side(gap, b, none);
    reveal_strlit(" | ");
    let left = joined(a) + gap;
    let right = gap + joined(b);
    assert(none + joined(a) + gap =~= left);
    assert(gap + joined(b) + none =~= right);
    assert(notation_of(cells) =~= left.push('|') + right);
    text::lemma_split_join(left, right, '|');
    text::lemma_split_whole(left, '|');
    text::lemma_split_whole(right, '|');
    assert(text::split(notation_of(cells), '|') =~= seq![left, right]);
    assert(a + b =~= cells);
}

// ---------------------------------------------------------------------------
// Laws of notation
// ---------------------------------------------------------------------------

proof fn lemma_joined(counts: Seq<int>)
    ensures
        joined(counts) == text::rejoined(counts.map_values(|c: int| text::decimal(c)), ','),
    decreases counts.len(),
{
    let parts = counts.map_values(|c: int| text::decimal(c));
    if counts.len() > 1 {
        reveal_strlit(",");
        lemma_joined(counts.drop_last());
        assert(parts.drop_last() =~= counts.drop_last().map_values(|c: int| text::decimal(c)));
        let front = joined(counts.drop_last());
        assert(front + ","@ =~= front.push(','));
    }
}

/// The notation of cells in board order: the counts of the first half, P0's pits and store,
/// then those of the second half, P1's, with a bar between the halves and a comma between
/// counts.
pub proof fn lemma_notation(cells: Seq<int>)
    ensures
        ({
            let h = cells.len() as int / 2;
            let written = cells.map_values(|c: int| text::decimal(c));
            notation_of(cells) == text::rejoined(written.take(h), ',') + " | "@ + text::rejoined(
                written.skip(h),
                ',',
            )
        }),
{
    let h = cells.len() as int / 2;
    let written = cells.map_values(|c: int| text::decimal(c));
    lemma_joined(cells.take(h));
    lemma_joined(cells.skip(h));
    assert(cells.take(h).map_values(|c: int| text::decimal(c)) =~= written.take(h));
    assert(cells.skip(h).map_values(|c: int| text::decimal(c)) =~= written.skip(h));
}

/// One more value on a side: a blank one is passed over, a count up to 255 is added, and
/// anything else is complained about, unless there was a complaint before.
pub proof fn lemma_next_value(side: Seq<char>, value: Seq<char>)
    requires
        !value.contains(','),
    ensures
        ({
            let more = side_counts(side.push(',') + value);
            let tok = text::trimmed(value);
            match side_counts(side) {
                Err(e) => more == Err::<Seq<int>, Seq<char>>(e),
                Ok(counts) => {
                    &&& tok.len() == 0 ==> more == Ok::<Seq<int>, Seq<char>>(counts)
                    &&& tok.len() > 0 ==> match text::number(tok, 255) {
                        Some(v) => more == Ok::<Seq<int>, Seq<char>>(counts.push(v)),
                        None => more == Err::<Seq<int>, Seq<char>>(
                            "'"@ + tok + "' is not a valid seed count (0..=255)"@,
                        ),
                    }
                },
            }
        }),
{
    text::lemma_split_join(side, value, ',');
    text::lemma_split_whole(value, ',');
    let parts = text::split(side.push(',') + value, ',');
    assert(parts.drop_last() =~= text::split(side, ','));
    assert(parts.last() == value);
}

/// The first value of a side.
pub proof fn lemma_first_value(value: Seq<char>)
    requires
        !value.contains(','),
    ensures
        ({
            let tok = text::trimmed(value);
            &&& tok.len() == 0 ==> side_counts(value) == Ok::<Seq<int>, Seq<char>>(Seq::empty())
            &&& tok.len() > 0 ==> match text::number(tok, 255) {
                Some(v) => side_counts(value) == Ok::<Seq<int>, Seq<char>>(seq![v]),
                None => side_counts(value) == Err::<Seq<int>, Seq<char>>(
                    "'"@ + tok + "' is not a valid seed count (0..=255)"@,
                ),
            }
        }),
{
    text::lemma_split_whole(value, ',');
    let parts = text::split(value, ',');
    assert(parts.drop_last() =~= Seq::<Seq<char>>::empty());
    assert(counts_of(parts.drop_last()) == Ok::<Seq<int>, Seq<char>>(Seq::empty()));
    if text::number(text::trimmed(value), 255) is Some {
        let v = text::number(text::trimmed(value), 255).unwrap();
        assert(Seq::<int>::empty().push(v) =~= seq![v]);
    }
}

/// Which texts describe a board: two sides with a bar between them, equally many counts on
/// both, a store and 1 to 15 pits, and no more than 255 seeds. The counts of the left side
/// come first, and to exchange the sides of the text is to exchange the halves of the board.
pub proof fn lemma_two_sides(left: Seq<char>, right: Seq<char>)
    requires
        !left.contains('|'),
        !right.contains('|'),
    ensures
        ({
            let s = left.push('|') + right;
            match (side_counts(left), side_counts(right)) {
                (Ok(a), Ok(b)) => {
                    let fits = a.len() == b.len() && 2 <= a.len() <= 16 && model::total(a)
                        + model::total(b) <= 255;
                    &&& fits ==> parsed(s) == Ok::<Seq<int>, Seq<char>>(a + b)
                    &&& !fits ==> parsed(s) is Err
                    &&& a.len() != b.len() ==> parsed(s) == Err::<Seq<int>, Seq<char>>(
                        "both sides must list the same number of values (got "@ + text::decimal(
                            a.len() as int,
                        ) + " and "@ + text::decimal(b.len() as int) + ")"@,
                    )
                    &&& a.len() == b.len() < 2 ==> parsed(s) == Err::<Seq<int>, Seq<char>>(
                        "each side must list at least one pit plus a store"@,
                    )
                },
                (Err(e), _) => parsed(s) == Err::<Seq<int>, Seq<char>>(e),
                (Ok(a), Err(e)) => parsed(s) == Err::<Seq<int>, Seq<char>>(e),
            }
        }),
        parsed(left.push('|') + right) matches Ok(cells) ==> parsed(right.push('|') + left) == Ok::<
            Seq<int>,
            Seq<char>,
        >(cells.skip(cells.len() as int / 2) + cells.take(cells.len() as int / 2)),
{
    text::lemma_split_join(left, right, '|');
    text::lemma_split_join(right, left, '|');
    text::lemma_split_whole(left, '|');
    text::lemma_split_whole(right, '|');
    assert(text::split(left.push('|') + right, '|') =~= seq![left, right]);
    assert(text::split(right.push('|') + left, '|') =~= seq![right, left]);
    if side_counts(left) is Ok && side_counts(right) is Ok {
        let a = side_counts(left)->Ok_0;
        let b = side_counts(right)->Ok_0;
        model::lemma_total_concat(a, b);
        model::lemma_total_concat(b, a);
        if a.len() == b.len() && a.len() >= 2 {
            board::lemma_board_error(a.len() - 1, a + b);
            board::lemma_board_error(b.len() - 1, b + a);
            assert((a + b).take(a.len() as int) =~= a);
            assert((a + b).skip(a.len() as int) =~= b);
        }
    }
}

/// A text without exactly one bar is no board.
pub proof fn lemma_bars(s: Seq<char>)
    requires
        text::split(s, '|').len() != 2,
    ensures
        parsed(s) == Err::<Seq<int>, Seq<char>>(
            "expected exactly one '|' separating the two sides, found "@ + text::decimal(
                text::split(s, '|').len() - 1,
            ),
        ),
{
}

} // verus!
