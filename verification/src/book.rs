//! Opening book: a sparse, store-independent endgame-style table for the *early*
//! game.
//!
//! The [`crate::tablebase`] cuts the forward search off at the **bottom** (few seeds
//! left); an opening book cuts it off at the **top** (the first few plies from the
//! start), so together they sandwich the search. An early position's exact value
//! depends on the *whole* tree beneath it, so a *proven* book can't be cheaper to
//! build than solving the game. It is instead a **byproduct** of solving once: the
//! layouts reachable within a number of moves of the opening are enumerated and each
//! is solved (reusing one warm transposition table, so the later solves are mostly
//! cache hits). The payoff is downstream: those positions become constant-time exact
//! lookups.
//!
//! Entries are **mirror-canonical** and **store-independent**, exactly like those of
//! the tablebase: the key is the pit layout packed mover-first, and the value is the
//! optimal future store differential, so one entry serves both mirrors and every store
//! filling.
//!
//! # File format (little-endian)
//!
//! ```text
//! magic        : 8 bytes  = b"KALABK01"
//! pits_per_side: u32
//! count        : u64
//! entries      : (key u128, differential i16, best move u8) * count
//! ```

use vstd::prelude::*;

use crate::analysis;
use crate::analysis::{Analysis, MoveEval};
use crate::board;
use crate::board::{Board, Player, Rules};
use crate::bytes;
use crate::bytes::{LoadError, Reader};
use crate::hash;
use crate::hash::U128Map;
use crate::keys;
use crate::model;
use crate::searcher;
use crate::solver::Solver;
use crate::tablebase::Tablebase;
use crate::value;

verus! {

/// The magic string `KALABK01`, read as a number.
pub const MAGIC: u64 = 0x3130_4B42_414C_414B;

/// The best-move byte of an entry that records none.
pub const NO_MOVE: u8 = 255;

/// An entry of a book: the key of a layout, its differential and its best move.
pub type Entry = (u128, (i16, u8));

// ---------------------------------------------------------------------------
// The file format
// ---------------------------------------------------------------------------

/// An entry as it stands in a file.
pub open spec fn record(e: Entry) -> Seq<u8> {
    bytes::digits(e.0 as nat, 16) + bytes::digits(bytes::unsigned(e.1.0 as int) as nat, 2)
        + bytes::digits(e.1.1 as nat, 1)
}

/// Entries as they stand in a file.
pub open spec fn records(entries: Seq<Entry>) -> Seq<u8>
    decreases entries.len(),
{
    if entries.len() == 0 {
        Seq::empty()
    } else {
        records(entries.drop_last()) + record(entries.last())
    }
}

/// The contents of a book file.
pub open spec fn file(pits: int, entries: Seq<Entry>) -> Seq<u8> {
    bytes::digits(MAGIC as nat, 8) + bytes::digits(pits as nat, 4) + bytes::digits(
        entries.len(),
        8,
    ) + records(entries)
}

/// The board size that a file names.
pub open spec fn file_pits(f: Seq<u8>) -> int {
    bytes::number(f.subrange(8, 12)) as int
}

/// The number of entries that a file names.
pub open spec fn file_count(f: Seq<u8>) -> int {
    bytes::number(f.subrange(12, 20)) as int
}

/// The `j`-th entry of the data of a file.
pub open spec fn decoded(data: Seq<u8>, j: int) -> Entry {
    (
        bytes::number(data.subrange(19 * j, 19 * j + 16)) as u128,
        (
            bytes::signed(bytes::number(data.subrange(19 * j + 16, 19 * j + 18)) as int) as i16,
            bytes::number(data.subrange(19 * j + 18, 19 * j + 19)) as u8,
        ),
    )
}

/// Why a byte string does not start with a book, if it does not.
pub open spec fn load_error(f: Seq<u8>) -> Option<LoadError> {
    if f.len() < 8 {
        Some(LoadError::UnexpectedEnd)
    } else if bytes::number(f.take(8)) != MAGIC {
        Some(LoadError::NotATable)
    } else if f.len() < 20 {
        Some(LoadError::UnexpectedEnd)
    } else if f.len() < 20 + 19 * file_count(f) {
        Some(LoadError::UnexpectedEnd)
    } else {
        None
    }
}

/// The place of a key among entries.
pub open spec fn place_of(entries: Seq<Entry>, key: u128) -> int {
    choose|j: int| 0 <= j < entries.len() && (#[trigger] entries[j]).0 == key
}

/// A key has an entry.
pub open spec fn has_key(entries: Seq<Entry>, key: u128) -> bool {
    exists|j: int| 0 <= j < entries.len() && (#[trigger] entries[j]).0 == key
}

/// Entries with one more: it replaces the one with the same key or goes last.
pub open spec fn put(entries: Seq<Entry>, e: Entry) -> Seq<Entry> {
    if has_key(entries, e.0) {
        entries.update(place_of(entries, e.0), e)
    } else {
        entries.push(e)
    }
}

/// The book that the first `k` entries of a file make.
pub open spec fn replayed(data: Seq<u8>, k: int) -> Seq<Entry>
    decreases k,
{
    if k <= 0 {
        Seq::empty()
    } else {
        put(replayed(data, k - 1), decoded(data, k - 1))
    }
}

/// No key has two entries.
pub open spec fn distinct(entries: Seq<Entry>) -> bool {
    forall|a: int, b: int|
        0 <= a < b < entries.len() ==> (#[trigger] entries[a]).0 != (#[trigger] entries[b]).0
}

proof fn lemma_record_len(e: Entry)
    ensures
        record(e).len() == 19,
        record(e).subrange(0, 16) == bytes::digits(e.0 as nat, 16),
        record(e).subrange(16, 18) == bytes::digits(bytes::unsigned(e.1.0 as int) as nat, 2),
        record(e).subrange(18, 19) == bytes::digits(e.1.1 as nat, 1),
{
    bytes::lemma_digits_len(e.0 as nat, 16);
    bytes::lemma_digits_len(bytes::unsigned(e.1.0 as int) as nat, 2);
    bytes::lemma_digits_len(e.1.1 as nat, 1);
}

proof fn lemma_records_len(entries: Seq<Entry>)
    ensures
        records(entries).len() == 19 * entries.len(),
    decreases entries.len(),
{
    if entries.len() > 0 {
        lemma_records_len(entries.drop_last());
        lemma_record_len(entries.last());
    }
}

proof fn lemma_decoded(entries: Seq<Entry>, j: int)
    requires
        0 <= j < entries.len(),
    ensures
        decoded(records(entries), j) == entries[j],
    decreases entries.len(),
{
    let front = entries.drop_last();
    let all = records(entries);
    lemma_records_len(front);
    lemma_records_len(entries);
    if j < front.len() {
        lemma_decoded(front, j);
        let before = records(front);
        assert(all.subrange(19 * j, 19 * j + 16) =~= before.subrange(19 * j, 19 * j + 16));
        assert(all.subrange(19 * j + 16, 19 * j + 18) =~= before.subrange(19 * j + 16, 19 * j + 18));
        assert(all.subrange(19 * j + 18, 19 * j + 19) =~= before.subrange(19 * j + 18, 19 * j + 19));
    } else {
        let e = entries.last();
        let r = record(e);
        lemma_record_len(e);
        bytes::lemma_span();
        bytes::lemma_number_of_digits(e.0 as nat, 16);
        bytes::lemma_number_of_digits(bytes::unsigned(e.1.0 as int) as nat, 2);
        bytes::lemma_number_of_digits(e.1.1 as nat, 1);
        assert(all.subrange(19 * j, 19 * j + 16) =~= r.subrange(0, 16));
        assert(all.subrange(19 * j + 16, 19 * j + 18) =~= r.subrange(16, 18));
        assert(all.subrange(19 * j + 18, 19 * j + 19) =~= r.subrange(18, 19));
    }
}

proof fn lemma_replayed(data: Seq<u8>, entries: Seq<Entry>, k: int)
    requires
        0 <= k <= entries.len(),
        distinct(entries),
        forall|j: int| 0 <= j < entries.len() ==> #[trigger] decoded(data, j) == entries[j],
    ensures
        replayed(data, k) == entries.take(k),
    decreases k,
{
    if k > 0 {
        lemma_replayed(data, entries, k - 1);
        let front = entries.take(k - 1);
        assert(!has_key(front, entries[k - 1].0)) by {
            if has_key(front, entries[k - 1].0) {
                let j = choose|j: int|
                    0 <= j < front.len() && (#[trigger] front[j]).0 == entries[k - 1].0;
                assert(entries[j].0 != entries[k - 1].0);
            }
        }
        assert(decoded(data, k - 1) == entries[k - 1]);
        assert(front.push(entries[k - 1]) =~= entries.take(k));
    } else {
        assert(entries.take(0) =~= Seq::<Entry>::empty());
    }
}

/// What was written can be read: the file of a book starts with a book that has the
/// same board size and the same entries, in the same order.
pub proof fn lemma_file_round_trip(pits: int, entries: Seq<Entry>)
    requires
        0 <= pits <= u32::MAX,
        distinct(entries),
        entries.len() <= u64::MAX,
    ensures
        load_error(file(pits, entries)) is None,
        file_pits(file(pits, entries)) == pits,
        file_count(file(pits, entries)) == entries.len(),
        replayed(file(pits, entries).skip(20), entries.len() as int) == entries,
{
    let f = file(pits, entries);
    bytes::lemma_span();
    bytes::lemma_number_of_digits(MAGIC as nat, 8);
    bytes::lemma_number_of_digits(pits as nat, 4);
    bytes::lemma_number_of_digits(entries.len(), 8);
    lemma_records_len(entries);
    assert(f.take(8) =~= bytes::digits(MAGIC as nat, 8));
    assert(f.subrange(8, 12) =~= bytes::digits(pits as nat, 4));
    assert(f.subrange(12, 20) =~= bytes::digits(entries.len(), 8));
    assert(f.skip(20) =~= records(entries));
    assert forall|j: int| 0 <= j < entries.len() implies #[trigger] decoded(f.skip(20), j)
        == entries[j] by {
        lemma_decoded(entries, j);
    }
    lemma_replayed(f.skip(20), entries, entries.len() as int);
    assert(entries.take(entries.len() as int) =~= entries);
}

// ---------------------------------------------------------------------------
// The book
// ---------------------------------------------------------------------------

/// A proven opening book for one board size.
pub struct Book {
    pits_per_side: usize,
    /// The differential and the best move of each layout.
    map: U128Map<(i16, u8)>,
}

/// The key of the layout of a position.
pub open spec fn key_of(s: Seq<int>) -> u128 {
    keys::folded(value::layout(s))
}

/// The best move that an entry records.
pub open spec fn recorded(best: u8) -> Option<usize> {
    if best == NO_MOVE {
        None
    } else {
        Some(best as usize)
    }
}

impl Book {
    /// Pits per side of the boards that the book is for.
    pub closed spec fn pits(&self) -> int {
        self.pits_per_side as int
    }

    /// The entries, in order.
    pub closed spec fn entries(&self) -> Seq<Entry> {
        self.map.in_order()
    }

    /// No key has two entries.
    #[verifier::type_invariant]
    pub closed spec fn wf(&self) -> bool {
        &&& self.map.wf()
        &&& self.pits_per_side <= u32::MAX
        &&& self.map.in_order().len() <= hash::MAX_ENTRIES
    }

    /// What the book says of a position, if it has an entry for its layout: the
    /// differential and the best move.
    pub open spec fn knows(&self, s: Seq<int>) -> Option<(i16, Option<usize>)> {
        if model::pits(s) == self.pits() && has_key(self.entries(), key_of(s)) {
            let e = self.entries()[place_of(self.entries(), key_of(s))];
            Some((e.1.0, recorded(e.1.1)))
        } else {
            None
        }
    }

    /// What the book says of a position is true: the differential is the future of the
    /// position, and the best move keeps it.
    pub open spec fn right_of(&self, rules: Rules, s: Seq<int>) -> bool {
        self.knows(s) matches Some((g, best)) ==> g == value::future(rules, s) && (
        best matches Some(m) ==> model::legal(s, m as int) && value::move_margin(
            rules,
            s,
            m as int,
        ) == value::game_value(rules, s))
    }

    /// What the book says of every position that has a key of its own is true.
    pub open spec fn correct(&self, rules: Rules) -> bool {
        forall|s: Seq<int>|
            model::valid(s) && keys::packable(s) ==> #[trigger] self.right_of(rules, s)
    }

    /// One entry serves both mirrors of a layout and every store filling: what the book
    /// says of a position depends on the pits that the mover and the opponent have, and
    /// on nothing else.
    pub proof fn lemma_store_independent(&self, s: Seq<int>, t: Seq<int>)
        requires
            model::valid(s),
            model::valid(t),
            value::layout(s) == value::layout(t),
        ensures
            self.knows(s) == self.knows(t),
    {
    }

    /// What holds of the entries of every book.
    pub proof fn lemma_entries(&self)
        requires
            self.wf(),
        ensures
            distinct(self.entries()),
            self.entries().len() <= hash::MAX_ENTRIES,
            0 <= self.pits() <= u32::MAX,
    {
        self.map.lemma_entries();
    }

    /// Pits per side of the boards that the book is for.
    pub fn pits_per_side(&self) -> (n: usize)
        ensures
            n == self.pits(),
    {
        self.pits_per_side
    }

    /// The number of layouts in the book.
    pub fn len(&self) -> (n: usize)
        ensures
            n == self.entries().len(),
    {
        self.map.len()
    }

    /// Whether the book is empty.
    pub fn is_empty(&self) -> (empty: bool)
        ensures
            empty == (self.entries().len() == 0),
    {
        self.map.is_empty()
    }

    /// Look up a position: the differential and the best move if its layout is in the
    /// book.
    pub fn lookup(&self, b: &Board) -> (r: Option<(i16, Option<usize>)>)
        ensures
            r == self.knows(b.pos()),
    {
        proof {
            use_type_invariant(self);
            use_type_invariant(b);
            b.lemma_seen();
            self.map.lemma_entries();
        }
        if b.pits_per_side() != self.pits_per_side {
            return None;
        }
        let key: u128 = keys::folded_key(b);
        match self.map.get(key) {
            None => None,
            Some((g, best)) => {
                proof {
                    let j = place_of(self.entries(), key);
                    assert(0 <= j < self.entries().len() && self.entries()[j].0 == key);
                }
                Some(
                    (
                        g,
                        if best == NO_MOVE {
                            None
                        } else {
                            Some(best as usize)
                        },
                    ),
                )
            },
        }
    }

    /// Serialize to bytes (see the file-format docs above).
    pub fn to_bytes(&self) -> (out: Vec<u8>)
        ensures
            out@ == file(self.pits(), self.entries()),
    {
        let mut out: Vec<u8> = Vec::new();
        self.write_to(&mut out);
        assert(out@ =~= file(self.pits(), self.entries()));
        out
    }

    /// Append the serialized book to `out` (see the file-format docs above).
    pub fn write_to(&self, out: &mut Vec<u8>)
        ensures
            final(out)@ == old(out)@ + file(self.pits(), self.entries()),
    {
        proof {
            use_type_invariant(self);
        }
        let ghost start = out@;
        bytes::push_number(out, MAGIC as u128, 8);
        bytes::push_number(out, self.pits_per_side as u128, 4);
        bytes::push_number(out, self.map.len() as u128, 8);
        let ghost header = out@;
        let ghost entries = self.entries();
        let count: usize = self.map.len();
        let mut i: usize = 0;
        assert(header + records(entries.take(0)) =~= header);
        while i < count
            invariant
                i <= count,
                count == entries.len(),
                entries == self.entries(),
                out@ == header + records(entries.take(i as int)),
            decreases count - i,
        {
            let (key, (g, best)) = self.map.entry(i);
            bytes::push_number(out, key, 16);
            bytes::push_i16(out, g);
            bytes::push_number(out, best as u128, 1);
            assert(entries.take(i + 1).drop_last() =~= entries.take(i as int));
            assert(out@ =~= header + records(entries.take(i + 1)));
            i = i + 1;
        }
        assert(entries.take(count as int) =~= entries);
        assert(out@ =~= start + file(self.pits(), self.entries()));
    }

    /// Load a book from an in-memory byte string. Bytes after the book are ignored; of
    /// two entries with the same key the later one counts.
    pub fn from_bytes(bytes: &[u8]) -> (res: Result<Book, LoadError>)
        ensures
            match res {
                Ok(book) => {
                    &&& load_error(bytes@) is None
                    &&& book.pits() == file_pits(bytes@)
                    &&& book.entries() == replayed(bytes@.skip(20), file_count(bytes@))
                },
                Err(e) => load_error(bytes@) == Some(e),
            },
    {
        let mut r = Reader::new(bytes);
        Self::from_reader(&mut r)
    }

    /// Take a book off the front of what `r` has still to read.
    pub fn from_reader(r: &mut Reader) -> (res: Result<Book, LoadError>)
        requires
            old(r).wf(),
        ensures
            final(r).wf(),
            match res {
                Ok(book) => {
                    &&& load_error(old(r).rest()) is None
                    &&& book.pits() == file_pits(old(r).rest())
                    &&& book.entries() == replayed(
                        old(r).rest().skip(20),
                        file_count(old(r).rest()),
                    )
                    &&& final(r).rest() == old(r).rest().skip(20 + 19 * file_count(old(r).rest()))
                },
                Err(e) => load_error(old(r).rest()) == Some(e),
            },
    {
        let ghost f = r.rest();
        proof {
            bytes::lemma_span();
        }
        let magic: u128 = match r.read_number(8) {
            Some(v) => v,
            None => {
                return Err(LoadError::UnexpectedEnd);
            },
        };
        if magic != MAGIC as u128 {
            return Err(LoadError::NotATable);
        }
        assert(f.len() >= 12 ==> r.rest().take(4) =~= f.subrange(8, 12));
        let pits: u128 = match r.read_number(4) {
            Some(v) => v,
            None => {
                return Err(LoadError::UnexpectedEnd);
            },
        };
        assert(r.rest() =~= f.skip(12));
        assert(f.len() >= 20 ==> r.rest().take(8) =~= f.subrange(12, 20));
        let count: u128 = match r.read_number(8) {
            Some(v) => v,
            None => {
                return Err(LoadError::UnexpectedEnd);
            },
        };
        assert(r.rest() =~= f.skip(20));
        if count > r.remaining() as u128 / 19 {
            return Err(LoadError::UnexpectedEnd);
        }
        let count: usize = count as usize;
        let ghost data = f.skip(20);
        let mut map: U128Map<(i16, u8)> = U128Map::new();
        let mut i: usize = 0;
        assert(data.skip(0) =~= data);
        while i < count
            invariant
                i <= count,
                count <= hash::MAX_ENTRIES,
                19 * count <= data.len(),
                r.wf(),
                r.rest() == data.skip(19 * i),
                map.wf(),
                map.in_order().len() <= i,
                map.in_order() == replayed(data, i as int),
            decreases count - i,
        {
            let (key, v) = match Self::read_entry(r, Ghost(data), Ghost(i as int)) {
                Some(e) => e,
                None => {
                    return Err(LoadError::UnexpectedEnd);
                },
            };
            let ghost before = map;
            map.insert(key, v);
            proof {
                before.lemma_entries();
                lemma_put(before.in_order(), map.in_order(), (key, v));
            }
            i = i + 1;
        }
        assert(data.skip(19 * count) =~= f.skip(20 + 19 * count));
        Ok(Book { pits_per_side: pits as usize, map })
    }

    /// Take the `i`-th entry of `data`.
    fn read_entry(r: &mut Reader, Ghost(data): Ghost<Seq<u8>>, Ghost(i): Ghost<int>) -> (e: Option<
        Entry,
    >)
        requires
            old(r).wf(),
            0 <= i,
            19 * i + 19 <= data.len(),
            old(r).rest() == data.skip(19 * i),
        ensures
            final(r).wf(),
            e == Some(decoded(data, i)),
            final(r).rest() == data.skip(19 * (i + 1)),
    {
        proof {
            bytes::lemma_span();
        }
        assert(r.rest().take(16) =~= data.subrange(19 * i, 19 * i + 16));
        let key: u128 = match r.read_number(16) {
            Some(v) => v,
            None => {
                return None;
            },
        };
        assert(r.rest() =~= data.skip(19 * i + 16));
        assert(r.rest().take(2) =~= data.subrange(19 * i + 16, 19 * i + 18));
        let g: i16 = match r.read_i16() {
            Some(v) => v,
            None => {
                return None;
            },
        };
        assert(r.rest() =~= data.skip(19 * i + 18));
        assert(r.rest().take(1) =~= data.subrange(19 * i + 18, 19 * i + 19));
        let best: u128 = match r.read_number(1) {
            Some(v) => v,
            None => {
                return None;
            },
        };
        assert(r.rest() =~= data.skip(19 * (i + 1)));
        Some((key, (g, best as u8)))
    }
}

/// Inserting into a map is putting among its entries.
proof fn lemma_put(before: Seq<Entry>, after: Seq<Entry>, e: Entry)
    requires
        distinct(before),
        !has_key(before, e.0) ==> after == before.push(e),
        has_key(before, e.0) ==> exists|j: int|
            0 <= j < before.len() && before[j].0 == e.0 && #[trigger] before.update(j, e) == after,
    ensures
        after == put(before, e),
        after.len() <= before.len() + 1,
{
    if has_key(before, e.0) {
        let j = choose|j: int|
            0 <= j < before.len() && before[j].0 == e.0 && #[trigger] before.update(j, e) == after;
        let k = place_of(before, e.0);
        assert(0 <= k < before.len() && before[k].0 == e.0);
        if j < k {
            assert(before[j].0 != before[k].0);
        } else if k < j {
            assert(before[k].0 != before[j].0);
        }
    }
}

// ---------------------------------------------------------------------------
// Building a book
// ---------------------------------------------------------------------------

/// A line of legal moves, none of them made after the game is over.
pub open spec fn legal_line(rules: Rules, s: Seq<int>, line: Seq<usize>) -> bool
    decreases line.len(),
{
    line.len() == 0 || {
        let front = line.drop_last();
        let at = analysis::line_end(rules, s, front);
        legal_line(rules, s, front) && !model::over(at) && model::legal(at, line.last() as int)
    }
}

/// Position `t` is reached from `s` by a line of `k` legal moves.
pub open spec fn reached(rules: Rules, s: Seq<int>, k: int, t: Seq<int>) -> bool {
    exists|line: Seq<usize>|
        line.len() == k && #[trigger] legal_line(rules, s, line) && analysis::line_end(
            rules,
            s,
            line,
        ) == t
}

/// Position `t` is reached from `s` within `plies` legal moves, and is not over.
pub open spec fn in_scope(rules: Rules, s: Seq<int>, plies: int, t: Seq<int>) -> bool {
    &&& exists|k: int| 0 <= k <= plies && #[trigger] reached(rules, s, k, t)
    &&& !model::over(t)
}

/// Some position in scope has the key.
pub open spec fn key_in_scope(rules: Rules, s: Seq<int>, plies: int, key: u128) -> bool {
    exists|t: Seq<int>| #[trigger] in_scope(rules, s, plies, t) && key_of(t) == key
}

/// The keys of the layouts in scope.
pub open spec fn scope_keys(rules: Rules, s: Seq<int>, plies: int) -> Set<u128> {
    Set::new(|key: u128| key_in_scope(rules, s, plies, key))
}

/// No other layout in scope has the key of this one.
pub open spec fn alone(rules: Rules, s: Seq<int>, plies: int, t: Seq<int>) -> bool {
    forall|u: Seq<int>| #[trigger]
        in_scope(rules, s, plies, u) && key_of(u) == key_of(t) ==> value::layout(u)
            == value::layout(t)
}

/// Every layout in scope has a key of its own: no count of more than six bits, and no more
/// counts than the key has room for.
pub open spec fn keyed(rules: Rules, s: Seq<int>, plies: int) -> bool {
    forall|u: Seq<int>| #[trigger] in_scope(rules, s, plies, u) ==> keys::packable(u)
}

/// There are too many keys in scope for one book.
pub open spec fn too_many(rules: Rules, s: Seq<int>, plies: int) -> bool {
    exists|all: Seq<u128>|
        all.len() > hash::MAX_ENTRIES && #[trigger] all.no_duplicates() && forall|j: int|
            0 <= j < all.len() ==> key_in_scope(rules, s, plies, #[trigger] all[j])
}

/// The error of a book that would be too large.
pub open spec fn too_many_text() -> Seq<char> {
    "too many layouts for one book"@
}

/// Reaching a position keeps the board size, and every move can be played on.
proof fn lemma_reached_next(rules: Rules, s: Seq<int>, k: int, t: Seq<int>, mv: usize)
    requires
        model::valid(s),
        reached(rules, s, k, t),
        !model::over(t),
        model::legal(t, mv as int),
    ensures
        reached(rules, s, k + 1, model::after(rules, t, mv as int)),
{
    let line = choose|line: Seq<usize>|
        line.len() == k && #[trigger] legal_line(rules, s, line) && analysis::line_end(
            rules,
            s,
            line,
        ) == t;
    let next = line.push(mv);
    assert(next.drop_last() =~= line);
    assert(legal_line(rules, s, next));
}

proof fn lemma_reached_valid(rules: Rules, s: Seq<int>, k: int, t: Seq<int>)
    requires
        model::valid(s),
        reached(rules, s, k, t),
    ensures
        model::valid(t),
        model::pits(t) == model::pits(s),
{
    let line = choose|line: Seq<usize>|
        line.len() == k && #[trigger] legal_line(rules, s, line) && analysis::line_end(
            rules,
            s,
            line,
        ) == t;
    lemma_line_valid(rules, s, line);
}

proof fn lemma_line_valid(rules: Rules, s: Seq<int>, line: Seq<usize>)
    requires
        model::valid(s),
        legal_line(rules, s, line),
    ensures
        model::valid(analysis::line_end(rules, s, line)),
        model::pits(analysis::line_end(rules, s, line)) == model::pits(s),
    decreases line.len(),
{
    if line.len() > 0 {
        lemma_line_valid(rules, s, line.drop_last());
        model::lemma_after(
            rules,
            analysis::line_end(rules, s, line.drop_last()),
            line.last() as int,
        );
    }
}

/// A position reached in one move more is a move away from one reached before.
proof fn lemma_reached_before(rules: Rules, s: Seq<int>, k: int, t: Seq<int>) -> (before: (
    Seq<int>,
    usize,
))
    requires
        k >= 0,
        reached(rules, s, k + 1, t),
    ensures
        reached(rules, s, k, before.0),
        !model::over(before.0),
        model::legal(before.0, before.1 as int),
        t == model::after(rules, before.0, before.1 as int),
{
    let line = choose|line: Seq<usize>|
        line.len() == k + 1 && #[trigger] legal_line(rules, s, line) && analysis::line_end(
            rules,
            s,
            line,
        ) == t;
    let front = line.drop_last();
    assert(legal_line(rules, s, front));
    (analysis::line_end(rules, s, front), line.last())
}

/// A layer of the game tree: the positions that `k` moves lead to.
spec fn is_layer(rules: Rules, s: Seq<int>, k: int, layer: Seq<Board>) -> bool {
    &&& forall|i: int|
        0 <= i < layer.len() ==> (#[trigger] layer[i]).wf() && reached(rules, s, k, layer[i].pos())
    &&& forall|t: Seq<int>| #[trigger]
        reached(rules, s, k, t) ==> has_pos(layer, t)
}

/// One of the boards has position `t`.
spec fn has_pos(layer: Seq<Board>, t: Seq<int>) -> bool {
    exists|i: int| 0 <= i < layer.len() && (#[trigger] layer[i]).pos() == t
}

/// The layer that follows.
fn expand(layer: &Vec<Board>, rules: &Rules, Ghost(s): Ghost<Seq<int>>, Ghost(k): Ghost<int>) -> (next:
    Vec<Board>)
    requires
        model::valid(s),
        k >= 0,
        is_layer(*rules, s, k, layer@),
    ensures
        is_layer(*rules, s, k + 1, next@),
{
    let mut next: Vec<Board> = Vec::new();
    let mut i: usize = 0;
    while i < layer.len()
        invariant
            model::valid(s),
            k >= 0,
            is_layer(*rules, s, k, layer@),
            i <= layer@.len(),
            forall|j: int|
                0 <= j < next@.len() ==> (#[trigger] next@[j]).wf() && reached(
                    *rules,
                    s,
                    k + 1,
                    next@[j].pos(),
                ),
            forall|x: int, mv: usize|
                0 <= x < i && !model::over(layer@[x].pos()) && #[trigger] model::legal(
                    layer@[x].pos(),
                    mv as int,
                ) ==> has_pos(next@, model::after(*rules, layer@[x].pos(), mv as int)),
        decreases layer@.len() - i,
    {
        let b: Board = layer[i];
        assert(layer@[i as int] == b);
        if !b.is_terminal() {
            let moves = b.legal_moves(b.turn());
            let mut m: usize = 0;
            while m < moves.len()
                invariant
                    model::valid(s),
                    k >= 0,
                    is_layer(*rules, s, k, layer@),
                    i < layer@.len(),
                    layer@[i as int] == b,
                    b.wf(),
                    !model::over(b.pos()),
                    forall|mv: usize| #[trigger]
                        moves@.contains(mv) <==> model::legal(b.pos(), mv as int),
                    m <= moves@.len(),
                    forall|j: int|
                        0 <= j < next@.len() ==> (#[trigger] next@[j]).wf() && reached(
                            *rules,
                            s,
                            k + 1,
                            next@[j].pos(),
                        ),
                    forall|x: int, mv: usize|
                        0 <= x < i && !model::over(layer@[x].pos()) && #[trigger] model::legal(
                            layer@[x].pos(),
                            mv as int,
                        ) ==> has_pos(next@, model::after(*rules, layer@[x].pos(), mv as int)),
                    forall|y: int|
                        0 <= y < m ==> has_pos(
                            next@,
                            model::after(*rules, b.pos(), #[trigger] moves@[y] as int),
                        ),
                decreases moves@.len() - m,
            {
                let mv: usize = moves[m];
                let ghost before = next@;
                assert(moves@.contains(mv));
                let r = b.apply(rules, mv);
                proof {
                    lemma_reached_next(*rules, s, k, b.pos(), mv);
                }
                next.push(r.board);
                proof {
                    assert forall|t: Seq<int>| has_pos(before, t) implies #[trigger] has_pos(
                        next@,
                        t,
                    ) by {
                        let j = choose|j: int|
                            0 <= j < before.len() && (#[trigger] before[j]).pos() == t;
                        assert(next@[j].pos() == t);
                    }
                    assert(next@[before.len() as int].pos() == model::after(
                        *rules,
                        b.pos(),
                        mv as int,
                    ));
                }
                m = m + 1;
            }
            assert forall|mv: usize| #[trigger] model::legal(b.pos(), mv as int) implies has_pos(
                next@,
                model::after(*rules, b.pos(), mv as int),
            ) by {
                assert(moves@.contains(mv));
                let y = choose|y: int| 0 <= y < moves@.len() && moves@[y] == mv;
                assert(has_pos(next@, model::after(*rules, b.pos(), moves@[y] as int)));
            }
        }
        i = i + 1;
    }
    proof {
        assert forall|t: Seq<int>| #[trigger] reached(*rules, s, k + 1, t) implies has_pos(
            next@,
            t,
        ) by {
            let (u, mv) = lemma_reached_before(*rules, s, k, t);
            assert(has_pos(layer@, u));
            let x = choose|x: int| 0 <= x < layer@.len() && (#[trigger] layer@[x]).pos() == u;
            assert(model::legal(layer@[x].pos(), mv as int));
        }
    }
    next
}

/// A zero-store board with `b`'s pit layout and side to move (so its value is the
/// store-independent differential of the layout).
fn zero_store(b: &Board) -> (z: Board)
    ensures
        z.wf(),
        z.pits() == b.pits(),
        z.mover() == b.mover(),
        value::layout(z.pos()) == value::layout(b.pos()),
        model::lead(z.pos()) == 0,
{
    proof {
        use_type_invariant(b);
        b.lemma_seen();
    }
    let n = b.pits_per_side();
    let all: &[u8] = b.cells();
    let mut cells: Vec<u8> = Vec::new();
    let mut i: usize = 0;
    while i < 2 * n + 2
        invariant
            n == b.pits(),
            n <= board::MAX_PITS,
            i <= 2 * n + 2,
            all@.len() == 2 * n + 2,
            cells@.len() == i,
            forall|r: int|
                0 <= r < i ==> #[trigger] cells@[r] == if r == n || r == 2 * n + 1 {
                    0
                } else {
                    all@[r]
                },
        decreases 2 * n + 2 - i,
    {
        if i == n || i == 2 * n + 1 {
            cells.push(0);
        } else {
            cells.push(all[i]);
        }
        i = i + 1;
    }
    proof {
        let full = b.counts();
        let bare = board::ints(cells@);
        assert(full == board::ints(all@));
        let u = full.update(n as int, 0);
        assert(bare =~= u.update(2 * n + 1, 0));
        model::lemma_total_update(full, n as int, 0);
        model::lemma_total_update(u, 2 * n + 1, 0);
        assert(full[n as int] >= 0);
        assert(u[2 * n + 1] == full[2 * n + 1]);
        assert(full[2 * n + 1] >= 0);
        assert(model::flip(bare) =~= model::flip(full).update(n as int, 0).update(2 * n + 1, 0));
    }
    let z = Board::new(n, cells, b.turn()).unwrap();
    proof {
        z.lemma_seen();
        assert(value::layout(z.pos()) =~= value::layout(b.pos()));
    }
    z
}

/// A board that stands for a layout in scope.
spec fn stands_for(rules: Rules, s: Seq<int>, plies: int, b: Board) -> bool {
    &&& b.wf()
    &&& b.pits() == model::pits(s)
    &&& !model::over(b.pos())
    &&& model::lead(b.pos()) == 0
    &&& exists|u: Seq<int>| #[trigger]
        in_scope(rules, s, plies, u) && value::layout(u) == value::layout(b.pos())
}

/// The layouts that were collected, each under its key.
spec fn collected(
    rules: Rules,
    s: Seq<int>,
    plies: int,
    seen: U128Map<bool>,
    layouts: Seq<Board>,
) -> bool {
    &&& seen.wf()
    &&& seen.in_order().len() == layouts.len()
    &&& layouts.len() <= hash::MAX_ENTRIES
    &&& forall|j: int|
        0 <= j < layouts.len() ==> stands_for(rules, s, plies, #[trigger] layouts[j])
            && seen.in_order()[j].0 == key_of(layouts[j].pos())
}

proof fn lemma_same_scope(s: Seq<int>, t: Seq<int>)
    requires
        model::valid(s),
        model::valid(t),
        value::layout(s) == value::layout(t),
    ensures
        key_of(s) == key_of(t),
        model::over(s) == model::over(t),
        model::pits(s) == model::pits(t),
{
    value::lemma_same_layout(s, t);
}

/// More keys in scope than a book can hold.
proof fn lemma_too_many(
    rules: Rules,
    s: Seq<int>,
    plies: int,
    seen: U128Map<bool>,
    layouts: Seq<Board>,
    key: u128,
)
    requires
        collected(rules, s, plies, seen, layouts),
        layouts.len() == hash::MAX_ENTRIES,
        !seen.has(key),
        key_in_scope(rules, s, plies, key),
    ensures
        too_many(rules, s, plies),
{
    seen.lemma_entries();
    let all = Seq::new(layouts.len(), |j: int| seen.in_order()[j].0).push(key);
    assert forall|a: int, b: int| 0 <= a < all.len() && 0 <= b < all.len() && a != b implies all[a]
        != all[b] by {
        let lo = if a < b {
            a
        } else {
            b
        };
        let hi = if a < b {
            b
        } else {
            a
        };
        if hi < layouts.len() {
            assert(seen.in_order()[lo].0 != seen.in_order()[hi].0);
        } else {
            assert(seen.has(seen.in_order()[lo].0));
        }
    }
    assert(all.no_duplicates());
    assert forall|j: int| 0 <= j < all.len() implies key_in_scope(
        rules,
        s,
        plies,
        #[trigger] all[j],
    ) by {
        if j < layouts.len() {
            assert(stands_for(rules, s, plies, layouts[j]));
        }
    }
}

/// Collect the layouts of a layer that were not seen before. Tells whether there is room
/// for them all.
fn collect(
    layer: &Vec<Board>,
    seen: &mut U128Map<bool>,
    layouts: &mut Vec<Board>,
    Ghost(rules): Ghost<Rules>,
    Ghost(s): Ghost<Seq<int>>,
    Ghost(plies): Ghost<int>,
    Ghost(k): Ghost<int>,
) -> (fits: bool)
    requires
        model::valid(s),
        0 <= k <= plies,
        is_layer(rules, s, k, layer@),
        collected(rules, s, plies, *old(seen), old(layouts)@),
    ensures
        fits ==> collected(rules, s, plies, *final(seen), final(layouts)@),
        fits ==> forall|key: u128|
            old(seen).has(key) ==> #[trigger] final(seen).has(key),
        fits ==> forall|t: Seq<int>| #[trigger]
            reached(rules, s, k, t) && !model::over(t) ==> final(seen).has(key_of(t)),
        !fits ==> too_many(rules, s, plies),
{
    let mut i: usize = 0;
    while i < layer.len()
        invariant
            model::valid(s),
            0 <= k <= plies,
            is_layer(rules, s, k, layer@),
            collected(rules, s, plies, *seen, layouts@),
            i <= layer@.len(),
            forall|key: u128| old(seen).has(key) ==> #[trigger] seen.has(key),
            forall|x: int|
                0 <= x < i && !model::over((#[trigger] layer@[x]).pos()) ==> seen.has(
                    key_of(layer@[x].pos()),
                ),
        decreases layer@.len() - i,
    {
        let b: Board = layer[i];
        let ghost t = b.pos();
        proof {
            assert(layer@[i as int] == b);
            b.lemma_seen();
            lemma_reached_valid(rules, s, k, t);
        }
        if !b.is_terminal() {
            assert(in_scope(rules, s, plies, t));
            let key: u128 = keys::folded_key(&b);
            proof {
                assert(key == key_of(t));
                assert(key_in_scope(rules, s, plies, key));
            }
            if seen.get(key).is_none() {
                if layouts.len() >= hash::MAX_ENTRIES {
                    proof {
                        lemma_too_many(rules, s, plies, *seen, layouts@, key);
                    }
                    return false;
                }
                let ghost before_seen = *seen;
                let ghost before = layouts@;
                let z = zero_store(&b);
                proof {
                    z.lemma_seen();
                    lemma_same_scope(z.pos(), t);
                }
                seen.insert(key, true);
                layouts.push(z);
                proof {
                    assert(seen.in_order() == before_seen.in_order().push((key, true)));
                    assert forall|j: int| 0 <= j < layouts@.len() implies stands_for(
                        rules,
                        s,
                        plies,
                        #[trigger] layouts@[j],
                    ) && seen.in_order()[j].0 == key_of(layouts@[j].pos()) by {
                        if j < before.len() {
                            assert(layouts@[j] == before[j]);
                            assert(seen.in_order()[j] == before_seen.in_order()[j]);
                        }
                    }
                    assert forall|q: u128| old(seen).has(q) implies #[trigger] seen.has(q) by {
                        assert(before_seen.has(q));
                        if q != key {
                            assert(seen.has(q) == before_seen.has(q));
                        }
                    }
                    assert forall|x: int|
                        0 <= x < i && !model::over(
                            (#[trigger] layer@[x]).pos(),
                        ) implies seen.has(key_of(layer@[x].pos())) by {
                        let q = key_of(layer@[x].pos());
                        assert(before_seen.has(q));
                        if q != key {
                            assert(seen.has(q) == before_seen.has(q));
                        }
                    }
                }
            }
        }
        i = i + 1;
    }
    proof {
        assert forall|t: Seq<int>| #[trigger]
            reached(rules, s, k, t) && !model::over(t) implies seen.has(key_of(t)) by {
            assert(has_pos(layer@, t));
            let x = choose|x: int| 0 <= x < layer@.len() && (#[trigger] layer@[x]).pos() == t;
            assert(seen.has(key_of(layer@[x].pos())));
        }
    }
    true
}

/// The layouts reachable within `plies` moves of `start`, each once and with empty
/// stores, in the order in which a breadth-first enumeration meets them. `None` if there
/// are too many for a book.
fn layouts_within(start: &Board, rules: &Rules, plies: u32) -> (out: Option<
    (U128Map<bool>, Vec<Board>),
>)
    ensures
        match out {
            Some((seen, layouts)) => {
                &&& collected(*rules, start.pos(), plies as int, seen, layouts@)
                &&& forall|t: Seq<int>| #[trigger]
                    in_scope(*rules, start.pos(), plies as int, t) ==> seen.has(key_of(t))
            },
            None => too_many(*rules, start.pos(), plies as int),
        },
{
    let ghost s = start.pos();
    proof {
        use_type_invariant(start);
        start.lemma_seen();
    }
    let mut seen: U128Map<bool> = U128Map::new();
    let mut layouts: Vec<Board> = Vec::new();
    let mut layer: Vec<Board> = vec![*start];
    let mut ply: u32 = 0;
    proof {
        let none = Seq::<usize>::empty();
        assert(legal_line(*rules, s, none));
        assert(analysis::line_end(*rules, s, none) == s);
        assert(layer@[0].pos() == s);
        assert forall|t: Seq<int>| #[trigger] reached(*rules, s, 0, t) implies has_pos(
            layer@,
            t,
        ) by {
            let line = choose|line: Seq<usize>|
                line.len() == 0 && #[trigger] legal_line(*rules, s, line) && analysis::line_end(
                    *rules,
                    s,
                    line,
                ) == t;
            assert(line =~= none);
        }
    }
    loop
        invariant
            s == start.pos(),
            model::valid(s),
            ply <= plies,
            is_layer(*rules, s, ply as int, layer@),
            collected(*rules, s, plies as int, seen, layouts@),
            forall|k: int, t: Seq<int>|
                0 <= k < ply && #[trigger] reached(*rules, s, k, t) && !model::over(t)
                    ==> seen.has(key_of(t)),
        ensures
            collected(*rules, s, plies as int, seen, layouts@),
            forall|k: int, t: Seq<int>|
                0 <= k <= plies && #[trigger] reached(*rules, s, k, t) && !model::over(t)
                    ==> seen.has(key_of(t)),
        decreases plies - ply,
    {
        let ghost before = seen;
        let fits = collect(
            &layer,
            &mut seen,
            &mut layouts,
            Ghost(*rules),
            Ghost(s),
            Ghost(plies as int),
            Ghost(ply as int),
        );
        if !fits {
            return None;
        }
        proof {
            assert forall|k: int, t: Seq<int>|
                0 <= k <= ply && #[trigger] reached(*rules, s, k, t) && !model::over(
                    t,
                ) implies seen.has(key_of(t)) by {
                if k < ply {
                    assert(before.has(key_of(t)));
                }
            }
        }
        if ply == plies {
            break;
        }
        layer = expand(&layer, rules, Ghost(s), Ghost(ply as int));
        ply = ply + 1;
        if layer.len() == 0 {
            proof {
                assert forall|k: int, t: Seq<int>|
                    0 <= k <= plies && #[trigger] reached(*rules, s, k, t) && !model::over(
                        t,
                    ) implies seen.has(key_of(t)) by {
                    if k >= ply {
                        lemma_no_further(*rules, s, ply as int, k, t);
                        assert(has_pos(layer@, choose|u: Seq<int>| reached(*rules, s, ply as int, u)));
                    }
                }
            }
            break;
        }
    }
    proof {
        assert forall|t: Seq<int>| #[trigger]
            in_scope(*rules, s, plies as int, t) implies seen.has(key_of(t)) by {
            let k = choose|k: int| 0 <= k <= plies && #[trigger] reached(*rules, s, k, t);
        }
    }
    Some((seen, layouts))
}

/// A position reached in `k` moves has one before it that is reached in fewer.
proof fn lemma_no_further(rules: Rules, s: Seq<int>, at: int, k: int, t: Seq<int>)
    requires
        0 <= at <= k,
        reached(rules, s, k, t),
    ensures
        exists|u: Seq<int>| reached(rules, s, at, u),
    decreases k - at,
{
    if at < k {
        let (u, mv) = lemma_reached_before(rules, s, k - 1, t);
        lemma_no_further(rules, s, at, k - 1, u);
    }
}

/// The entry is what a search by the setting `c` finds of a position: the best move and
/// the value that it adds to the lead.
pub open spec fn solved(c: value::Setting, s: Seq<int>, g: i16, best: Option<usize>) -> bool {
    best matches Some(m) && analysis::is_best(c, s, m as int, None) && (c.modest() ==> g == (
    value::move_value(c, s, m as int, None) - model::lead(s)) as i16)
}

/// What a search finds of a position it finds of every position with the same pits.
proof fn lemma_solved_same(
    c: value::Setting,
    s: Seq<int>,
    t: Seq<int>,
    g: i16,
    best: Option<usize>,
)
    requires
        model::valid(s),
        model::valid(t),
        value::layout(s) == value::layout(t),
        solved(c, s, g, best),
    ensures
        solved(c, t, g, best),
{
    value::lemma_search_ignores_stores(c, s, t);
    value::lemma_search_ignores_stores(c, t, s);
    let m = best->0 as int;
    assert forall|j: int| c.modest() && model::legal(t, j) implies #[trigger] value::move_value(
        c,
        t,
        j,
        None,
    ) <= value::move_value(c, t, m, None) by {
        assert(model::legal(s, j));
        assert(value::move_value(c, s, j, None) <= value::move_value(c, s, m, None));
    }
}

/// The entries of the first `k` layouts, each solved.
spec fn solutions(
    c: value::Setting,
    seen: Seq<(u128, bool)>,
    layouts: Seq<Board>,
    map: U128Map<(i16, u8)>,
    k: int,
) -> bool {
    &&& map.wf()
    &&& map.in_order().len() == k
    &&& forall|j: int|
        0 <= j < k ==> (#[trigger] map.in_order()[j]).0 == seen[j].0 && solved(
            c,
            layouts[j].pos(),
            map.in_order()[j].1.0,
            recorded(map.in_order()[j].1.1),
        )
}

impl Book {
    /// Build a book covering every layout reachable within `plies` moves of the standard
    /// `pits`×`seeds` opening, and no other, solving each exactly with a shared warm
    /// table. `progress(done, total)` is called as layouts are solved, with each number of
    /// them, and with nothing else.
    ///
    /// Of layouts that share a key, which takes more than ten pits per side or more than 63
    /// seeds in a pit, the book holds the one that is met first. With a correct tablebase
    /// what it says of the others is true.
    pub fn build(
        rules: Rules,
        pits: usize,
        seeds: u8,
        plies: u32,
        tb: &Tablebase,
        mut progress: impl FnMut(usize, usize),
    ) -> (res: Result<Book, String>)
        requires
            forall|done: usize, total: usize|
                1 <= done <= total && total == scope_keys(
                    rules,
                    board::opening_cells(pits as int, seeds as int),
                    plies as int,
                ).len() ==> #[trigger] progress.requires((done, total)),
            board::board_error(pits as int, board::opening_cells(pits as int, seeds as int)) is None
                ==> tb.pits() == pits,
        ensures
            ({
                let s = board::opening_cells(pits as int, seeds as int);
                match res {
                    Ok(book) => {
                        &&& board::board_error(pits as int, s) is None
                        &&& book.pits() == pits
                        &&& forall|t: Seq<int>| #[trigger]
                            in_scope(rules, s, plies as int, t) ==> book.knows(t) is Some
                        &&& forall|j: int|
                            0 <= j < book.entries().len() ==> key_in_scope(
                                rules,
                                s,
                                plies as int,
                                (#[trigger] book.entries()[j]).0,
                            )
                        &&& book.entries().len() == scope_keys(rules, s, plies as int).len()
                        &&& forall|t: Seq<int>|
                            model::valid(t) ==> ((#[trigger] book.knows(t)) matches Some((g, best))
                                ==> found_as(rules, tb, s, plies as int, t, g, best))
                        &&& tb.correct(rules) ==> forall|t: Seq<int>|
                            model::valid(t) && alone(rules, s, plies as int, t) ==> #[trigger]
                            book.right_of(rules, t)
                        &&& tb.correct(rules) && keyed(rules, s, plies as int) ==> book.correct(
                            rules,
                        )
                        &&& forall|done: usize, total: usize|
                            1 <= done <= total && total == book.entries().len() ==> #[trigger]
                            progress.ensures((done, total), ())
                    },
                    Err(e) => {
                        ||| board::board_error(pits as int, s) == Some(e@)
                        ||| board::board_error(pits as int, s) is None && e@ == too_many_text()
                            && too_many(rules, s, plies as int)
                    },
                }
            }),
    {
        let start = match Board::start(pits, seeds, Player::P0) {
            Ok(b) => b,
            Err(e) => {
                return Err(e);
            },
        };
        let (seen, layouts) = match layouts_within(&start, &rules, plies) {
            Some(found) => found,
            None => {
                return Err(String::from_str("too many layouts for one book"));
            },
        };
        let ghost s = start.pos();
        let ghost c = searcher::setting(rules, Some(tb), 0, false);
        let mut solver = Solver::new(rules, tb);
        let mut map: U128Map<(i16, u8)> = U128Map::new();
        let count: usize = layouts.len();
        let ghost told = progress;
        proof {
            start.lemma_seen();
            lemma_counted(rules, s, plies as int, seen, layouts@);
        }
        let mut i: usize = 0;
        while i < count
            invariant
                i <= count,
                count == layouts@.len(),
                progress == told,
                forall|done: usize|
                    1 <= done <= count ==> #[trigger] progress.requires((done, count)),
                forall|done: usize|
                    1 <= done <= i ==> #[trigger] progress.ensures((done, count), ()),
                s == start.pos(),
                collected(rules, s, plies as int, seen, layouts@),
                model::pits(s) == pits,
                tb.pits() == pits,
                pits <= board::MAX_PITS,
                solver.wf(),
                solver.rules() == rules,
                solver.table() == Some(tb),
                c == solver.setting(),
                solutions(c, seen.in_order(), layouts@, map, i as int),
            decreases count - i,
        {
            let ghost before = map;
            let b: Board = layouts[i];
            assert(stands_for(rules, s, plies as int, layouts@[i as int]));
            proof {
                b.lemma_seen();
                value::lemma_leaf_bound(b.pos());
                seen.lemma_entries();
            }
            let (v, best) = solver.solve(&b);
            let (key, _) = seen.entry(i);
            let m: u8 = match best {
                Some(m) => m as u8,
                None => NO_MOVE,
            };
            let g: i16 = #[verifier::truncate]
            (v as i16);
            proof {
                assert(!before.has(key)) by {
                    if before.has(key) {
                        let j = choose|j: int|
                            0 <= j < before.in_order().len() && (#[trigger] before.in_order()[j]).0
                                == key;
                        assert(seen.in_order()[j].0 != seen.in_order()[i as int].0);
                    }
                }
            }
            map.insert(key, (g, m));
            proof {
                assert(map.in_order() == before.in_order().push((key, (g, m))));
                assert(model::lead(b.pos()) == 0) by {
                    assert(layouts@[i as int] == b);
                }
                assert(solved(c, b.pos(), g, recorded(m)));
                assert forall|j: int| 0 <= j < i + 1 implies (#[trigger] map.in_order()[j]).0
                    == seen.in_order()[j].0 && solved(
                    c,
                    layouts@[j].pos(),
                    map.in_order()[j].1.0,
                    recorded(map.in_order()[j].1.1),
                ) by {
                    if j < i {
                        assert(map.in_order()[j] == before.in_order()[j]);
                    }
                }
            }
            i = i + 1;
            progress(i, count);
        }
        let book = Book { pits_per_side: pits, map };
        proof {
            start.lemma_seen();
            lemma_built(rules, tb, s, plies as int, seen, layouts@, book);
        }
        Ok(book)
    }
}

/// Layouts with the same key are the same.
proof fn lemma_key_of(s: Seq<int>, t: Seq<int>)
    requires
        model::valid(s),
        model::valid(t),
        model::pits(s) == model::pits(t),
        keys::packable(s),
        keys::packable(t),
        key_of(s) == key_of(t),
    ensures
        value::layout(s) == value::layout(t),
{
    keys::lemma_folded(value::layout(s));
    keys::lemma_folded(value::layout(t));
    keys::lemma_packed_bound(value::layout(s));
    keys::lemma_packed_bound(value::layout(t));
    keys::lemma_rows();
    assert(value::layout(s).len() <= 20);
    assert(keys::rows(value::layout(s).len()) <= keys::rows(20));
    assert(keys::rows(value::layout(t).len()) <= keys::rows(20));
    keys::lemma_packed_injective(value::layout(s), value::layout(t));
}

/// The layouts that were collected are as many as there are keys in scope.
proof fn lemma_counted(
    rules: Rules,
    s: Seq<int>,
    plies: int,
    seen: U128Map<bool>,
    layouts: Seq<Board>,
)
    requires
        collected(rules, s, plies, seen, layouts),
        forall|t: Seq<int>| #[trigger]
            in_scope(rules, s, plies, t) ==> seen.has(key_of(t)),
    ensures
        layouts.len() == scope_keys(rules, s, plies).len(),
{
    let entries = seen.in_order();
    seen.lemma_entries();
    let all = Seq::new(entries.len(), |j: int| entries[j].0);
    assert(all.no_duplicates());
    all.unique_seq_to_set();
    assert(all.to_set() =~= scope_keys(rules, s, plies)) by {
        assert forall|key: u128| key_in_scope(rules, s, plies, key) implies all.contains(key) by {
            let t = choose|t: Seq<int>| #[trigger]
                in_scope(rules, s, plies, t) && key_of(t) == key;
            assert(seen.has(key));
            let j = choose|j: int|
                0 <= j < seen.in_order().len() && (#[trigger] seen.in_order()[j]).0 == key;
            assert(all[j] == key);
        }
        assert forall|key: u128| all.contains(key) implies key_in_scope(rules, s, plies, key) by {
            let j = choose|j: int| 0 <= j < all.len() && all[j] == key;
            assert(stands_for(rules, s, plies, layouts[j]));
        }
    }
}

/// What the book of the solved layouts says.
proof fn lemma_built(
    rules: Rules,
    tb: &Tablebase,
    s: Seq<int>,
    plies: int,
    seen: U128Map<bool>,
    layouts: Seq<Board>,
    book: Book,
)
    requires
        model::valid(s),
        model::pits(s) == book.pits(),
        collected(rules, s, plies, seen, layouts),
        forall|t: Seq<int>| #[trigger]
            in_scope(rules, s, plies, t) ==> seen.has(key_of(t)),
        solutions(
            searcher::setting(rules, Some(tb), 0, false),
            seen.in_order(),
            layouts,
            book.map,
            layouts.len() as int,
        ),
    ensures
        forall|t: Seq<int>| #[trigger] in_scope(rules, s, plies, t) ==> book.knows(t) is Some,
        forall|j: int|
            0 <= j < book.entries().len() ==> key_in_scope(
                rules,
                s,
                plies,
                (#[trigger] book.entries()[j]).0,
            ),
        book.entries().len() == scope_keys(rules, s, plies).len(),
        forall|t: Seq<int>|
            model::valid(t) ==> ((#[trigger] book.knows(t)) matches Some((g, best)) ==> found_as(
                rules,
                tb,
                s,
                plies,
                t,
                g,
                best,
            )),
        tb.correct(rules) ==> forall|t: Seq<int>|
            model::valid(t) && alone(rules, s, plies, t) ==> #[trigger] book.right_of(rules, t),
        tb.correct(rules) && keyed(rules, s, plies) ==> book.correct(rules),
{
    let c = searcher::setting(rules, Some(tb), 0, false);
    let entries = book.entries();
    assert forall|j: int| 0 <= j < entries.len() implies key_in_scope(
        rules,
        s,
        plies,
        (#[trigger] entries[j]).0,
    ) by {
        assert(stands_for(rules, s, plies, layouts[j]));
    }
    lemma_counted(rules, s, plies, seen, layouts);
    assert forall|t: Seq<int>| #[trigger] in_scope(rules, s, plies, t) implies book.knows(
        t,
    ) is Some by {
        let k = choose|k: int| 0 <= k <= plies && #[trigger] reached(rules, s, k, t);
        lemma_reached_valid(rules, s, k, t);
        assert(seen.has(key_of(t)));
        let j = choose|j: int|
            0 <= j < seen.in_order().len() && (#[trigger] seen.in_order()[j]).0 == key_of(t);
        assert(entries[j].0 == key_of(t));
    }
    assert forall|t: Seq<int>| model::valid(t) && (#[trigger] book.knows(t)) is Some implies {
        let (g, best) = book.knows(t)->0;
        &&& found_as(rules, tb, s, plies, t, g, best)
        &&& tb.correct(rules) && alone(rules, s, plies, t) ==> book.right_of(rules, t)
    } by {
        let j = place_of(entries, key_of(t));
        let e = entries[j];
        assert(0 <= j < entries.len() && e.0 == key_of(t));
        let b = layouts[j];
        assert(stands_for(rules, s, plies, b));
        b.lemma_seen();
        let u = choose|u: Seq<int>| #[trigger]
            in_scope(rules, s, plies, u) && value::layout(u) == value::layout(b.pos());
        let k = choose|k: int| 0 <= k <= plies && #[trigger] reached(rules, s, k, u);
        lemma_reached_valid(rules, s, k, u);
        lemma_same_scope(b.pos(), u);
        lemma_solved_same(c, b.pos(), u, e.1.0, recorded(e.1.1));
        if alone(rules, s, plies, t) {
            lemma_same_scope(u, t);
            lemma_solved_same(c, u, t, e.1.0, recorded(e.1.1));
            if tb.correct(rules) {
                lemma_solved_right(rules, tb, t, e.1.0, recorded(e.1.1));
                value::lemma_layout_total(b.pos());
                value::lemma_layout_total(t);
                model::lemma_bounds(b.pos());
                value::lemma_future_bound(rules, t);
            }
        }
    }
    if tb.correct(rules) && keyed(rules, s, plies) {
        assert forall|t: Seq<int>| model::valid(t) && keys::packable(t) implies #[trigger]
        book.right_of(rules, t) by {
            if book.knows(t) is Some {
                assert(alone(rules, s, plies, t)) by {
                    assert forall|u: Seq<int>| #[trigger]
                        in_scope(rules, s, plies, u) && key_of(u) == key_of(
                            t,
                        ) implies value::layout(u) == value::layout(t) by {
                        let k = choose|k: int| 0 <= k <= plies && #[trigger] reached(rules, s, k, u);
                        lemma_reached_valid(rules, s, k, u);
                        lemma_key_of(u, t);
                    }
                }
            }
        }
    }
}

/// What a book built from an opening says of a position is what a search finds of the
/// layout in scope that was first met with its key: of the position itself, if no other
/// layout in scope has that key.
pub open spec fn found_as(
    rules: Rules,
    tb: &Tablebase,
    s: Seq<int>,
    plies: int,
    t: Seq<int>,
    g: i16,
    best: Option<usize>,
) -> bool {
    let c = searcher::setting(rules, Some(tb), 0, false);
    &&& exists|u: Seq<int>| #[trigger]
        in_scope(rules, s, plies, u) && key_of(u) == key_of(t) && solved(c, u, g, best)
    &&& alone(rules, s, plies, t) ==> solved(c, t, g, best)
}

/// With at most ten pits per side and fewer than 64 seeds on the board, every layout has a
/// key of its own.
pub proof fn lemma_keyed(rules: Rules, s: Seq<int>, plies: int)
    requires
        model::valid(s),
        model::pits(s) <= keys::MAX_PACKED_PITS,
        model::total(s) < keys::DIGIT,
    ensures
        keyed(rules, s, plies),
{
    assert forall|u: Seq<int>| #[trigger] in_scope(rules, s, plies, u) implies keys::packable(
        u,
    ) by {
        let k = choose|k: int| 0 <= k <= plies && #[trigger] reached(rules, s, k, u);
        lemma_reached_valid(rules, s, k, u);
        lemma_reached_total(rules, s, k, u);
        model::lemma_total_nonneg(u);
        let l = value::layout(u);
        assert forall|j: int| 0 <= j < l.len() implies 0 <= #[trigger] l[j] < keys::DIGIT by {
            if j < model::pits(u) {
                assert(l[j] == u[j]);
            } else {
                assert(l[j] == u[j + 1]);
            }
        }
    }
}

proof fn lemma_reached_total(rules: Rules, s: Seq<int>, k: int, t: Seq<int>)
    requires
        model::valid(s),
        0 <= k,
        reached(rules, s, k, t),
    ensures
        model::total(t) == model::total(s),
    decreases k,
{
    if k > 0 {
        let (u, mv) = lemma_reached_before(rules, s, k - 1, t);
        lemma_reached_valid(rules, s, k - 1, u);
        lemma_reached_total(rules, s, k - 1, u);
        model::lemma_after(rules, u, mv as int);
    } else {
        let line = choose|line: Seq<usize>|
            line.len() == k && #[trigger] legal_line(rules, s, line) && analysis::line_end(
                rules,
                s,
                line,
            ) == t;
        assert(line =~= Seq::<usize>::empty());
    }
}

/// By a correct tablebase, what a search finds is the truth.
proof fn lemma_solved_right(rules: Rules, tb: &Tablebase, t: Seq<int>, g: i16, best: Option<usize>)
    requires
        model::valid(t),
        !model::over(t),
        tb.correct(rules),
        solved(searcher::setting(rules, Some(tb), 0, false), t, g, best),
    ensures
        g == value::future(rules, t) as i16,
        model::legal(t, best->0 as int),
        value::move_margin(rules, t, best->0 as int) == value::game_value(rules, t),
{
    let c = searcher::setting(rules, Some(tb), 0, false);
    searcher::lemma_setting_truthful(rules, Some(tb), 0, false);
    value::lemma_truth_is_modest(c);
    value::lemma_search_is_perfect(c, t);
    value::lemma_game_value_is_best(rules, t);
    let m = best->0 as int;
    let j = choose|j: int|
        model::legal(t, j) && #[trigger] value::move_margin(rules, t, j) == value::game_value(
            rules,
            t,
        );
    assert(value::move_value(c, t, j, None) <= value::move_value(c, t, m, None));
    assert(value::move_margin(rules, t, m) <= value::game_value(rules, t));
}

// ---------------------------------------------------------------------------
// Analysis from a book
// ---------------------------------------------------------------------------

/// The longest principal variation that is followed.
pub const LINE_GUARD: usize = 4000;

/// The differential of a position by the book or else by the tablebase.
pub open spec fn known_future(book: &Book, tb: Option<&Tablebase>, s: Seq<int>) -> Option<int> {
    match book.knows(s) {
        Some((g, _)) => Some(g as int),
        None => match tb {
            Some(t) => t.knows(value::layout(s)),
            None => None,
        },
    }
}

/// The margin, for the player who moves from `s`, when position `t` has the differential
/// `g`; `extra` tells whether that player goes on.
pub open spec fn margin_by(t: Seq<int>, g: int, extra: bool) -> int {
    if extra {
        model::lead(t) + g
    } else {
        -(model::lead(t) + g)
    }
}

/// The margin of pit `i` by the book and the tablebase, if they tell.
pub open spec fn known_margin(
    book: &Book,
    tb: Option<&Tablebase>,
    rules: Rules,
    s: Seq<int>,
    i: int,
) -> Option<int> {
    let t = model::after(rules, s, i);
    match known_future(book, tb, t) {
        Some(g) => Some(margin_by(t, g, model::extra_turn(s, i))),
        None => None,
    }
}

/// The evaluation of pit `i` of a position whose value is `v`: exact if the book or the
/// tablebase knows the position that it leads to, and otherwise bounded by the value.
pub open spec fn book_eval(
    book: &Book,
    tb: Option<&Tablebase>,
    rules: Rules,
    s: Seq<int>,
    v: int,
    e: MoveEval,
) -> bool {
    &&& model::legal(s, e.pit as int)
    &&& e.extra_turn == model::extra_turn(s, e.pit as int)
    &&& e.captured == model::captures(rules, s, e.pit as int)
    &&& match known_margin(book, tb, rules, s, e.pit as int) {
        Some(m) => e.value == m && !e.bound,
        None => e.value == v && e.bound,
    }
}

/// Best-first, and pits in order where they rank alike.
pub open spec fn best_first(evals: Seq<MoveEval>) -> bool {
    forall|x: int, y: int|
        0 <= x < y < evals.len() ==> {
            ||| analysis::listed_before(#[trigger] evals[x], #[trigger] evals[y])
            ||| !analysis::listed_before(evals[y], evals[x]) && evals[x].pit < evals[y].pit
        }
}

/// The margin of pit `i` by the tablebase.
pub open spec fn table_margin(tb: &Tablebase, rules: Rules, s: Seq<int>, i: int) -> int {
    let t = model::after(rules, s, i);
    margin_by(t, tb.knows(value::layout(t))->0, model::extra_turn(s, i))
}

/// The first best pit below `k` by the tablebase, with its margin.
pub open spec fn table_best(tb: &Tablebase, rules: Rules, s: Seq<int>, k: int) -> Option<
    (int, int),
>
    decreases k,
{
    if k <= 0 {
        None
    } else {
        let rest = table_best(tb, rules, s, k - 1);
        let v = table_margin(tb, rules, s, k - 1);
        if !model::legal(s, k - 1) {
            rest
        } else {
            match rest {
                Some((best, m)) if best >= v => Some((best, m)),
                _ => Some((v, k - 1)),
            }
        }
    }
}

/// The best pit by the tablebase, if there is one and it covers the position.
pub open spec fn table_choice(tb: Option<&Tablebase>, rules: Rules, s: Seq<int>) -> Option<int> {
    match tb {
        Some(t) => if t.knows(value::layout(s)) is Some {
            match table_best(t, rules, s, model::pits(s)) {
                Some((_, m)) => Some(m),
                None => None,
            }
        } else {
            None
        },
        None => None,
    }
}

/// The move that the book, or else the tablebase, has for a position.
pub open spec fn known_move(
    book: &Book,
    tb: Option<&Tablebase>,
    rules: Rules,
    s: Seq<int>,
) -> Option<int> {
    match book.knows(s) {
        Some((_, Some(m))) => Some(m as int),
        _ => table_choice(tb, rules, s),
    }
}

/// The line of known moves, as long as they are legal and at most `fuel` of them.
pub open spec fn known_line(
    book: &Book,
    tb: Option<&Tablebase>,
    rules: Rules,
    s: Seq<int>,
    fuel: nat,
) -> Seq<usize>
    decreases fuel,
{
    if fuel == 0 || model::over(s) {
        Seq::empty()
    } else {
        match known_move(book, tb, rules, s) {
            Some(m) => if model::legal(s, m) {
                seq![m as usize] + known_line(
                    book,
                    tb,
                    rules,
                    model::after(rules, s, m),
                    (fuel - 1) as nat,
                )
            } else {
                Seq::empty()
            },
            None => Seq::empty(),
        }
    }
}

/// Best move at a tablebase-covered position, by evaluating each child. `None` outside
/// the cap or with no tablebase.
fn tb_best_move(b: &Board, rules: Rules, tb: Option<&Tablebase>) -> (m: Option<usize>)
    ensures
        match m {
            Some(m) => table_choice(tb, rules, b.pos()) == Some(m as int),
            None => table_choice(tb, rules, b.pos()) is None,
        },
        m matches Some(m) ==> model::legal(b.pos(), m as int),
{
    proof {
        use_type_invariant(b);
        b.lemma_seen();
    }
    let ghost s = b.pos();
    let tb = match tb {
        Some(tb) => tb,
        None => {
            return None;
        },
    };
    proof {
        tb.lemma_knows(s);
    }
    if b.pits_per_side() != tb.pits_per_side() || b.seeds_in_play() > tb.cap() {
        return None;
    }
    let p = b.turn();
    let n = b.pits_per_side();
    let mut best_v: i32 = 0;
    let mut best_m: Option<usize> = None;
    let mut i: usize = 0;
    while i < n
        invariant
            s == b.pos(),
            b.wf(),
            p == b.mover(),
            n == b.pits(),
            n == model::pits(s),
            tb.pits() == n,
            model::valid(s),
            model::in_play(s) <= tb.limit(),
            i <= n,
            match best_m {
                Some(m) => model::legal(s, m as int) && table_best(tb, rules, s, i as int) == Some(
                    (best_v as int, m as int),
                ),
                None => table_best(tb, rules, s, i as int) is None,
            },
        decreases n - i,
    {
        if b.pit(p, i) != 0 {
            let v = table_margin_of(b, rules, tb, i);
            let better = match best_m {
                None => true,
                Some(_) => v > best_v,
            };
            if better {
                best_v = v;
                best_m = Some(i);
            }
        }
        i = i + 1;
    }
    best_m
}

/// The margin of a legal pit by a tablebase that covers the position.
fn table_margin_of(b: &Board, rules: Rules, tb: &Tablebase, i: usize) -> (v: i32)
    requires
        tb.pits() == b.pits(),
        model::in_play(b.pos()) <= tb.limit(),
        model::legal(b.pos(), i as int),
    ensures
        v == table_margin(tb, rules, b.pos(), i as int),
{
    let r = b.apply(&rules, i);
    let ghost t = r.board.pos();
    proof {
        use_type_invariant(b);
        b.lemma_seen();
        model::lemma_after(rules, b.pos(), i as int);
        tb.lemma_knows(t);
    }
    let g: i16 = match tb.lookup(&r.board) {
        Some(g) => g,
        None => 0,
    };
    margin_of(&r.board, g, r.extra_turn)
}

/// The margin for the player who moved to `child`.
fn margin_of(child: &Board, g: i16, extra_turn: bool) -> (v: i32)
    ensures
        v == margin_by(child.pos(), g as int, extra_turn),
{
    proof {
        use_type_invariant(child);
        child.lemma_seen();
        model::lemma_flip(child.pos());
    }
    let q = child.turn();
    let x: i32 = child.store(q) as i32 - child.store(q.other()) as i32 + g as i32;
    if extra_turn {
        x
    } else {
        -x
    }
}

impl Book {
    /// The differential of a child position from book or tablebase (child-mover
    /// perspective).
    fn child_g(&self, child: &Board, tb: Option<&Tablebase>) -> (g: Option<i16>)
        ensures
            match g {
                Some(g) => known_future(self, tb, child.pos()) == Some(g as int),
                None => known_future(self, tb, child.pos()) is None,
            },
    {
        if let Some((g, _)) = self.lookup(child) {
            return Some(g);
        }
        match tb {
            Some(t) => t.lookup(child),
            None => None,
        }
    }

    /// Full exact analysis of `board` from the book, or `None` if it isn't a book
    /// position. Per-move values and the principal variation are recovered from the book
    /// and tablebase; moves whose child can't be resolved are reported as a bound (`≤`
    /// the best value).
    ///
    /// A book that is right of the position gives the value of perfect play.
    pub fn analyze(&self, board: &Board, rules: Rules, tb: Option<&Tablebase>) -> (res: Option<
        Analysis,
    >)
        ensures
            match res {
                None => self.knows(board.pos()) is None,
                Some(a) => {
                    let s = board.pos();
                    &&& self.knows(s) matches Some((g, best)) && a.value == model::lead(s) + g
                        && a.best_move == best
                    &&& a.exact
                    &&& a.side_to_move == board.mover()
                    &&& a.nodes == 0
                    &&& a.depth is None
                    &&& forall|k: int|
                        0 <= k < a.move_evals@.len() ==> book_eval(
                            self,
                            tb,
                            rules,
                            s,
                            a.value as int,
                            #[trigger] a.move_evals@[k],
                        )
                    &&& analysis::complete(s, a)
                    &&& best_first(a.move_evals@)
                    &&& a.pv@ == known_line(self, tb, rules, s, LINE_GUARD as nat)
                    &&& self.right_of(rules, s) ==> a.value == value::game_value(rules, s)
                    &&& forall|x: int, y: int|
                        0 <= x < y < a.move_evals@.len() ==> {
                            let e = #[trigger] a.move_evals@[x];
                            let f = #[trigger] a.move_evals@[y];
                            &&& e.pit != f.pit
                            &&& e.bound ==> f.bound
                            &&& e.bound == f.bound ==> e.value >= f.value
                        }
                    &&& forall|k: int|
                        #![trigger a.pv@[k]]
                        0 <= k < a.pv@.len() ==> {
                            let at = analysis::line_end(rules, s, a.pv@.take(k));
                            &&& model::legal(at, a.pv@[k] as int)
                            &&& (tb matches Some(t) ==> t.correct(rules)) && self.right_of(rules, at)
                                ==> value::move_margin(rules, at, a.pv@[k] as int)
                                == value::game_value(rules, at)
                        }
                    &&& a.pv@.len() == 4000 || a.pv@.len() < LINE_GUARD
                    &&& a.pv@.len() < LINE_GUARD ==> {
                        let end = analysis::line_end(rules, s, a.pv@);
                        ||| model::over(end)
                        ||| self.knows(end) matches Some((_, Some(m))) && !model::legal(
                            end,
                            m as int,
                        )
                        ||| tb is None
                        ||| tb->0.pits() != board.pits()
                        ||| model::in_play(end) > tb->0.limit()
                    }
                },
            },
    {
        let (g, best) = match self.lookup(board) {
            Some(found) => found,
            None => {
                return None;
            },
        };
        proof {
            use_type_invariant(board);
            board.lemma_seen();
            model::lemma_flip(board.pos());
        }
        let ghost s = board.pos();
        let p = board.turn();
        let v: i32 = board.store(p) as i32 - board.store(p.other()) as i32 + g as i32;
        let n = board.pits_per_side();
        let mut evals: Vec<MoveEval> = Vec::new();
        let mut mv: usize = 0;
        while mv < n
            invariant
                s == board.pos(),
                board.wf(),
                p == board.mover(),
                n == board.pits(),
                n == model::pits(s),
                mv <= n,
                best_first(evals@),
                forall|k: int|
                    0 <= k < evals@.len() ==> book_eval(
                        self,
                        tb,
                        rules,
                        s,
                        v as int,
                        #[trigger] evals@[k],
                    ) && evals@[k].pit < mv,
                forall|i: int|
                    i < mv && #[trigger] model::legal(s, i) ==> analysis::evaluates(evals@, i),
            decreases n - mv,
        {
            if board.pit(p, mv) != 0 {
                let r = board.apply(&rules, mv);
                let (value, bound) = match self.child_g(&r.board, tb) {
                    Some(cg) => (margin_of(&r.board, cg, r.extra_turn), false),
                    // The exact value is unknown, but it is no better than the best.
                    None => (v, true),
                };
                let e = MoveEval {
                    pit: mv,
                    value,
                    bound,
                    extra_turn: r.extra_turn,
                    captured: r.captured,
                };
                let ghost before = evals@;
                analysis::insert_eval(&mut evals, e);
                proof {
                    let j = choose|j: int|
                        0 <= j <= before.len() && evals@ == #[trigger] before.insert(j, e) && (
                        forall|k: int|
                            j <= k < before.len() ==> analysis::listed_before(
                                e,
                                #[trigger] before[k],
                            ));
                    lemma_best_first_insert(before, evals@, e, j);
                    assert(evals@[j] == e);
                    assert forall|k: int| 0 <= k < evals@.len() implies book_eval(
                        self,
                        tb,
                        rules,
                        s,
                        v as int,
                        #[trigger] evals@[k],
                    ) && evals@[k].pit < mv + 1 by {
                        if k < j {
                            assert(evals@[k] == before[k]);
                        } else if k > j {
                            assert(evals@[k] == before[k - 1]);
                        }
                    }
                    assert forall|i: int| i < mv + 1 && #[trigger] model::legal(s, i) implies analysis::evaluates(
                        evals@,
                        i,
                    ) by {
                        if i == mv {
                            assert(evals@[j].pit == i);
                        } else {
                            assert(analysis::evaluates(before, i));
                            let k = choose|k: int|
                                0 <= k < before.len() && (#[trigger] before[k]).pit == i;
                            if k < j {
                                assert(evals@[k] == before[k]);
                            } else {
                                assert(evals@[k + 1] == before[k]);
                            }
                        }
                    }
                }
            }
            mv = mv + 1;
        }
        let pv = self.principal_variation(board, rules, tb);
        proof {
            lemma_best_play(self, tb, rules, s, LINE_GUARD as nat);
        }
        Some(
            Analysis {
                exact: true,
                side_to_move: p,
                value: v,
                best_move: best,
                move_evals: evals,
                pv,
                nodes: 0,
                depth: None,
            },
        )
    }

    /// The known move of a position, if it is legal.
    fn move_of(&self, b: &Board, rules: Rules, tb: Option<&Tablebase>) -> (m: Option<usize>)
        ensures
            match m {
                Some(m) => known_move(self, tb, rules, b.pos()) == Some(m as int) && model::legal(
                    b.pos(),
                    m as int,
                ),
                None => known_move(self, tb, rules, b.pos()) matches Some(m) ==> !model::legal(
                    b.pos(),
                    m,
                ),
            },
    {
        proof {
            use_type_invariant(b);
            b.lemma_seen();
        }
        if let Some((_, Some(m))) = self.lookup(b) {
            if m < b.pits_per_side() && b.pit(b.turn(), m) != 0 {
                Some(m)
            } else {
                None
            }
        } else {
            tb_best_move(b, rules, tb)
        }
    }

    /// Walk best moves through the book, then the tablebase, to the game end. A recorded
    /// move that is not legal ends the walk.
    fn principal_variation(&self, board: &Board, rules: Rules, tb: Option<&Tablebase>) -> (pv: Vec<
        usize,
    >)
        ensures
            pv@ == known_line(self, tb, rules, board.pos(), LINE_GUARD as nat),
    {
        let ghost whole = known_line(self, tb, rules, board.pos(), LINE_GUARD as nat);
        let mut pv: Vec<usize> = Vec::new();
        let mut cur: Board = *board;
        let mut fuel: usize = LINE_GUARD;
        proof {
            use_type_invariant(board);
            assert(pv@ + whole =~= whole);
        }
        while fuel > 0 && !cur.is_terminal()
            invariant
                cur.wf(),
                whole == known_line(self, tb, rules, board.pos(), LINE_GUARD as nat),
                pv@ + known_line(self, tb, rules, cur.pos(), fuel as nat) == whole,
            decreases fuel,
        {
            let ghost rest = known_line(self, tb, rules, cur.pos(), fuel as nat);
            match self.move_of(&cur, rules, tb) {
                Some(m) => {
                    let ghost before = pv@;
                    pv.push(m);
                    cur = cur.apply(&rules, m).board;
                    fuel = fuel - 1;
                    proof {
                        let tail = known_line(self, tb, rules, cur.pos(), fuel as nat);
                        assert(rest == seq![m] + tail);
                        assert(pv@ + tail =~= before + rest);
                    }
                },
                None => {
                    assert(rest == Seq::<usize>::empty());
                    assert(pv@ =~= whole);
                    return pv;
                },
            }
        }
        assert(pv@ =~= whole);
        pv
    }
}

proof fn lemma_best_first_insert(before: Seq<MoveEval>, evals: Seq<MoveEval>, e: MoveEval, j: int)
    requires
        best_first(before),
        0 <= j <= before.len(),
        evals == before.insert(j, e),
        forall|k: int| 0 <= k < before.len() ==> (#[trigger] before[k]).pit < e.pit,
        forall|k: int|
            j <= k < before.len() ==> analysis::listed_before(e, #[trigger] before[k]),
        forall|x: int, y: int|
            0 <= x < y < evals.len() ==> !analysis::listed_before(
                #[trigger] evals[y],
                #[trigger] evals[x],
            ),
    ensures
        best_first(evals),
{
    assert forall|x: int, y: int| 0 <= x < y < evals.len() implies {
        ||| analysis::listed_before(#[trigger] evals[x], #[trigger] evals[y])
        ||| !analysis::listed_before(evals[y], evals[x]) && evals[x].pit < evals[y].pit
    } by {
        let x0 = if x < j {
            x
        } else {
            x - 1
        };
        let y0 = if y < j {
            y
        } else {
            y - 1
        };
        if x != j && y != j {
            assert(evals[x] == before[x0] && evals[y] == before[y0]);
        } else if x == j {
            assert(analysis::listed_before(e, before[y0]));
        } else {
            assert(evals[x] == before[x0]);
        }
    }
}

/// By a book that is right of where a move leads and a correct tablebase, the margins of
/// moves that they tell are those of perfect play, and no move does better than the value of the position.
pub proof fn lemma_known_margin(
    book: &Book,
    tb: Option<&Tablebase>,
    rules: Rules,
    s: Seq<int>,
    i: int,
)
    requires
        model::valid(s),
        !model::over(s),
        model::legal(s, i),
        book.right_of(rules, model::after(rules, s, i)),
        tb matches Some(t) ==> t.correct(rules),
    ensures
        known_margin(book, tb, rules, s, i) matches Some(m) ==> m == value::move_margin(
            rules,
            s,
            i,
        ),
        value::move_margin(rules, s, i) <= value::game_value(rules, s),
{
    let t = model::after(rules, s, i);
    model::lemma_after(rules, s, i);
    value::lemma_game_value_is_best(rules, s);
    if tb is Some {
        tb->0.lemma_knows(t);
    }
}

/// By a tablebase that covers a position, the pit that is chosen is legal, no other is worth
/// more, and none before it is worth as much.
pub proof fn lemma_table_choice(tb: &Tablebase, rules: Rules, s: Seq<int>)
    requires
        model::valid(s),
        !model::over(s),
        tb.pits() == model::pits(s),
        model::in_play(s) <= tb.limit(),
    ensures
        table_choice(Some(tb), rules, s) matches Some(m) && model::legal(s, m) && forall|j: int|
            #![trigger model::after(rules, s, j)]
            model::legal(s, j) ==> {
                let t = model::after(rules, s, j);
                let u = model::after(rules, s, m);
                let v = value::to_mover(s, j, model::lead(t) + tb.knows(value::layout(t))->0);
                let w = value::to_mover(s, m, model::lead(u) + tb.knows(value::layout(u))->0);
                v <= w && (j < m ==> v < w)
            },
{
    let n = model::pits(s);
    tb.lemma_knows(s);
    lemma_table_best(tb, rules, s, n);
    model::lemma_has_move(s);
    let i = choose|i: int| model::legal(s, i);
    assert(model::legal(s, i));
    assert(table_best(tb, rules, s, n) is Some);
    let m = table_choice(Some(tb), rules, s)->0;
    assert forall|j: int|
        #![trigger model::after(rules, s, j)]
        model::legal(s, j) implies {
        let t = model::after(rules, s, j);
        let u = model::after(rules, s, m);
        let v = value::to_mover(s, j, model::lead(t) + tb.knows(value::layout(t))->0);
        let w = value::to_mover(s, m, model::lead(u) + tb.knows(value::layout(u))->0);
        v <= w && (j < m ==> v < w)
    } by {
        model::lemma_extra_turn(s, j);
        model::lemma_extra_turn(s, m);
        assert(table_margin(tb, rules, s, j) <= table_margin(tb, rules, s, m));
    }
}

proof fn lemma_table_best(tb: &Tablebase, rules: Rules, s: Seq<int>, k: int)
    requires
        model::valid(s),
        0 <= k <= model::pits(s),
    ensures
        table_best(tb, rules, s, k) matches Some((v, m)) ==> 0 <= m < k && model::legal(s, m) && v
            == table_margin(tb, rules, s, m),
        forall|j: int|
            0 <= j < k && #[trigger] model::legal(s, j) ==> (table_best(tb, rules, s, k) matches Some(
                (v, m),
            ) && table_margin(tb, rules, s, j) <= v && (j < m ==> table_margin(
                tb,
                rules,
                s,
                j,
            ) < v)),
    decreases k,
{
    if k > 0 {
        lemma_table_best(tb, rules, s, k - 1);
        let v0 = table_margin(tb, rules, s, k - 1);
        let rest = table_best(tb, rules, s, k - 1);
        assert forall|j: int| 0 <= j < k && #[trigger] model::legal(s, j) implies (table_best(
            tb,
            rules,
            s,
            k,
        ) matches Some((v, m)) && table_margin(tb, rules, s, j) <= v && (j < m
            ==> table_margin(tb, rules, s, j) < v)) by {
            if j < k - 1 {
                assert(rest is Some);
            }
        }
    }
}

/// Pit `m` is one that best play by the book and the tablebase takes: legal in a game that
/// is not over, the move of the book if it has one, and, by a correct tablebase and a book
/// that is right of the position, one that keeps what the position is worth.
pub open spec fn plays_best(
    book: &Book,
    tb: Option<&Tablebase>,
    rules: Rules,
    at: Seq<int>,
    m: int,
) -> bool {
    &&& model::valid(at)
    &&& !model::over(at)
    &&& model::legal(at, m)
    &&& book.knows(at) matches Some((_, Some(b))) ==> m == b
    &&& (tb matches Some(t) ==> t.correct(rules)) && book.right_of(rules, at)
        ==> value::move_margin(rules, at, m) == value::game_value(rules, at)
}

/// Best play by the book and the tablebase of a board of `n` pits per side ends here: the
/// game is over, or the book records a move that is not legal, or the tablebase does not
/// reach so far.
pub open spec fn lost(book: &Book, tb: Option<&Tablebase>, n: int, end: Seq<int>) -> bool {
    ||| model::over(end)
    ||| book.knows(end) matches Some((_, Some(m))) && !model::legal(end, m as int)
    ||| tb is None
    ||| tb->0.pits() != n
    ||| model::in_play(end) > tb->0.limit()
}

/// The line that a book and a tablebase know is one of best play. Where the book has a move,
/// it is played. By a correct tablebase, every move that comes from a position of which the
/// book is right keeps what the position is worth under perfect play. The line goes on
/// until the game is over or neither has a legal move for it.
pub proof fn lemma_best_play(
    book: &Book,
    tb: Option<&Tablebase>,
    rules: Rules,
    s: Seq<int>,
    fuel: nat,
)
    requires
        model::valid(s),
        model::pits(s) <= board::MAX_PITS,
    ensures
        ({
            let line = known_line(book, tb, rules, s, fuel);
            &&& line.len() <= fuel
            &&& forall|k: int|
                #![trigger line[k]]
                0 <= k < line.len() ==> plays_best(
                    book,
                    tb,
                    rules,
                    analysis::line_end(rules, s, line.take(k)),
                    line[k] as int,
                )
            &&& line.len() < fuel ==> lost(book, tb, model::pits(s), analysis::line_end(rules, s, line))
        }),
    decreases fuel,
{
    let line = known_line(book, tb, rules, s, fuel);
    let end = analysis::line_end(rules, s, line);
    if fuel > 0 && !model::over(s) {
        if tb is Some {
            tb->0.lemma_knows(s);
            if tb->0.pits() == model::pits(s) && model::in_play(s) <= tb->0.limit() {
                lemma_table_choice(tb->0, rules, s);
            }
        }
        if known_move(book, tb, rules, s) is Some && model::legal(
            s,
            known_move(book, tb, rules, s)->0,
        ) {
            let m = known_move(book, tb, rules, s)->0;
            let t = model::after(rules, s, m);
            let rest = known_line(book, tb, rules, t, (fuel - 1) as nat);
            model::lemma_after(rules, s, m);
            lemma_best_play(book, tb, rules, t, (fuel - 1) as nat);
            analysis::lemma_line_first(rules, s, m as usize, rest);
            assert(line == seq![m as usize] + rest);
            assert(plays_best(book, tb, rules, s, m)) by {
                if (tb matches Some(t) ==> t.correct(rules)) && book.right_of(rules, s) {
                    lemma_known_move_is_best(book, tb, rules, s);
                }
            }
            assert forall|k: int|
                #![trigger line[k]]
                0 <= k < line.len() implies plays_best(
                book,
                tb,
                rules,
                analysis::line_end(rules, s, line.take(k)),
                line[k] as int,
            ) by {
                if k == 0 {
                    assert(line.take(0) =~= Seq::<usize>::empty());
                    assert(line[0] == m);
                } else {
                    assert(line.take(k) =~= seq![m as usize] + rest.take(k - 1));
                    analysis::lemma_line_first(rules, s, m as usize, rest.take(k - 1));
                    assert(line[k] == rest[k - 1]);
                }
            }
        } else {
            assert(line =~= Seq::<usize>::empty());
        }
    } else {
        assert(line =~= Seq::<usize>::empty());
    }
}

/// The known move of a position, by a correct tablebase and a book that is right of the
/// position, keeps what the position is worth.
proof fn lemma_known_move_is_best(
    book: &Book,
    tb: Option<&Tablebase>,
    rules: Rules,
    s: Seq<int>,
)
    requires
        model::valid(s),
        !model::over(s),
        known_move(book, tb, rules, s) is Some,
        tb matches Some(t) ==> t.correct(rules),
        book.right_of(rules, s),
    ensures
        value::move_margin(rules, s, known_move(book, tb, rules, s)->0) == value::game_value(
            rules,
            s,
        ),
{
    let m = known_move(book, tb, rules, s)->0;
    let from_book = book.knows(s) matches Some((_, Some(b)));
    if !from_book {
        let t = tb->0;
        t.lemma_knows(s);
        lemma_table_best(t, rules, s, model::pits(s));
        value::lemma_game_value_is_best(rules, s);
        assert forall|j: int| model::legal(s, j) implies #[trigger] table_margin(t, rules, s, j)
            == value::move_margin(rules, s, j) by {
            model::lemma_after(rules, s, j);
            t.lemma_knows(model::after(rules, s, j));
        }
        let j = choose|j: int|
            model::legal(s, j) && #[trigger] value::move_margin(rules, s, j) == value::game_value(
                rules,
                s,
            );
        assert(table_margin(t, rules, s, j) <= table_margin(t, rules, s, m));
        assert(value::move_margin(rules, s, m) <= value::game_value(rules, s));
    }
}

// ---------------------------------------------------------------------------
// Laws of books
// ---------------------------------------------------------------------------

/// What is in scope of a book: the opening, unless it is over; and with one ply more,
/// everything that was in scope and every position that a legal move leads to from there,
/// unless the game is over in it. Nothing else is.
pub proof fn lemma_scope(rules: Rules, s: Seq<int>, plies: int, t: Seq<int>)
    requires
        model::valid(s),
        plies >= 0,
    ensures
        in_scope(rules, s, 0, t) <==> t == s && !model::over(s),
        in_scope(rules, s, plies, t) ==> in_scope(rules, s, plies + 1, t),
        in_scope(rules, s, plies, t) ==> forall|i: int| #[trigger]
            model::legal(t, i) && i <= usize::MAX && !model::over(model::after(rules, t, i))
                ==> in_scope(rules, s, plies + 1, model::after(rules, t, i)),
        in_scope(rules, s, plies + 1, t) ==> in_scope(rules, s, plies, t) || exists|
            u: Seq<int>,
            i: int,
        | #[trigger]
            in_scope(rules, s, plies, u) && #[trigger] model::legal(u, i) && t == model::after(
                rules,
                u,
                i,
            ),
{
    let none = Seq::<usize>::empty();
    assert(legal_line(rules, s, none));
    assert(analysis::line_end(rules, s, none) == s);
    if in_scope(rules, s, 0, t) {
        let k = choose|k: int| 0 <= k <= 0 && #[trigger] reached(rules, s, k, t);
        let line = choose|line: Seq<usize>|
            line.len() == k && #[trigger] legal_line(rules, s, line) && analysis::line_end(
                rules,
                s,
                line,
            ) == t;
        assert(line =~= none);
    }
    if t == s && !model::over(s) {
        assert(reached(rules, s, 0, s));
    }
    if in_scope(rules, s, plies, t) {
        let k = choose|k: int| 0 <= k <= plies && #[trigger] reached(rules, s, k, t);
        assert(0 <= k <= plies + 1 && reached(rules, s, k, t));
        assert forall|i: int| #[trigger]
            model::legal(t, i) && i <= usize::MAX && !model::over(
                model::after(rules, t, i),
            ) implies in_scope(rules, s, plies + 1, model::after(rules, t, i)) by {
            lemma_reached_next(rules, s, k, t, i as usize);
        }
    }
    if in_scope(rules, s, plies + 1, t) {
        let k = choose|k: int| 0 <= k <= plies + 1 && #[trigger] reached(rules, s, k, t);
        if k <= plies {
            assert(in_scope(rules, s, plies, t));
        } else {
            let (u, i) = lemma_reached_before(rules, s, plies, t);
            assert(in_scope(rules, s, plies, u));
            assert(model::legal(u, i as int));
        }
    }
}

/// A new entry is found under its key, whatever was there before, and changes no other.
pub proof fn lemma_entry_put(entries: Seq<Entry>, e: Entry, key: u128)
    requires
        distinct(entries),
    ensures
        distinct(put(entries, e)),
        has_key(put(entries, e), e.0),
        put(entries, e)[place_of(put(entries, e), e.0)] == e,
        key != e.0 ==> (has_key(put(entries, e), key) <==> has_key(entries, key)),
        key != e.0 && has_key(entries, key) ==> put(entries, e)[place_of(put(entries, e), key)]
            == entries[place_of(entries, key)],
        !has_key(entries, e.0) ==> put(entries, e).len() == entries.len() + 1,
        has_key(entries, e.0) ==> put(entries, e).len() == entries.len(),
        forall|j: int|
            0 <= j < entries.len() ==> (#[trigger] put(entries, e)[j]).0 == entries[j].0,
{
    let now = put(entries, e);
    let k = if has_key(entries, e.0) {
        place_of(entries, e.0)
    } else {
        entries.len() as int
    };
    assert(now[k] == e);
    assert forall|j: int| 0 <= j < now.len() && j != k implies #[trigger] now[j] == entries[j] by {}
    assert forall|a: int, b: int| 0 <= a < b < now.len() implies (#[trigger] now[a]).0 != (
    #[trigger] now[b]).0 by {
        if a != k && b != k {
            assert(entries[a].0 != entries[b].0);
        } else if has_key(entries, e.0) {
            assert(entries[k].0 == e.0);
            assert(entries[a].0 != entries[b].0);
        }
    }
    assert(has_key(now, e.0));
    let p = place_of(now, e.0);
    assert(now[p].0 == e.0);
    assert(p == k) by {
        if p < k {
            assert(now[p].0 != now[k].0);
        } else if k < p {
            assert(now[k].0 != now[p].0);
        }
    }
    if key != e.0 {
        if has_key(entries, key) {
            let q = place_of(entries, key);
            assert(entries[q].0 == key);
            assert(q != k) by {
                if has_key(entries, e.0) {
                    assert(entries[k].0 == e.0);
                }
            }
            assert(now[q].0 == key);
            assert(has_key(now, key));
            let r = place_of(now, key);
            assert(now[r].0 == key);
            assert(r == q) by {
                if r < q {
                    assert(now[r].0 != now[q].0);
                } else if q < r {
                    assert(now[q].0 != now[r].0);
                }
            }
        }
        if has_key(now, key) {
            let q = choose|q: int| 0 <= q < now.len() && (#[trigger] now[q]).0 == key;
            assert(q != k);
            assert(entries[q].0 == key);
        }
    }
}

/// An entry that records 255 has no move; every other number is the pit to play.
pub proof fn lemma_recorded(best: u8)
    ensures
        best == 255 ==> recorded(best) is None,
        best != 255 ==> recorded(best) == Some(best as usize),
{
}

proof fn lemma_records_at(entries: Seq<Entry>, j: int)
    requires
        0 <= j < entries.len(),
    ensures
        records(entries).len() == 19 * entries.len(),
        records(entries).subrange(19 * j, 19 * j + 19) == record(entries[j]),
    decreases entries.len(),
{
    let front = entries.drop_last();
    lemma_records_len(front);
    lemma_records_len(entries);
    lemma_record_len(entries.last());
    if j < front.len() {
        lemma_records_at(front, j);
        assert(records(entries).subrange(19 * j, 19 * j + 19) =~= records(front).subrange(
            19 * j,
            19 * j + 19,
        ));
    } else {
        assert(records(entries).subrange(19 * j, 19 * j + 19) =~= record(entries[j]));
    }
}

proof fn lemma_magic()
    ensures
        bytes::digits(MAGIC as nat, 8) == seq![75u8, 65, 76, 65, 66, 75, 48, 49],
{
    bytes::lemma_digits_len(MAGIC as nat, 8);
    reveal_with_fuel(bytes::digits, 9);
    assert(bytes::digits(MAGIC as nat, 8) =~= seq![75u8, 65, 76, 65, 66, 75, 48, 49]);
}

/// The bytes of a book file: `KALABK01`, then in four bytes the pits per side and in eight
/// the number of entries, and then for each entry sixteen bytes of key, two of differential
/// and one of best move, always with the least significant byte first.
pub proof fn lemma_file_bytes(pits: int, entries: Seq<Entry>)
    requires
        0 <= pits <= u32::MAX,
        entries.len() <= u64::MAX,
    ensures
        ({
            let f = file(pits, entries);
            &&& f.len() == 20 + 19 * entries.len()
            &&& f.take(8) == seq![75u8, 65, 76, 65, 66, 75, 48, 49]
            &&& forall|k: int|
                0 <= k < 4 ==> #[trigger] f[8 + k] == (pits / bytes::span(k as nat) as int) % 256
            &&& forall|k: int|
                0 <= k < 8 ==> #[trigger] f[12 + k] == (entries.len() as int / bytes::span(
                    k as nat,
                ) as int) % 256
            &&& forall|j: int|
                0 <= j < entries.len() ==> {
                    let r = #[trigger] f.subrange(20 + 19 * j, 39 + 19 * j);
                    &&& bytes::number(r.take(16)) == entries[j].0
                    &&& entries[j].1.0 == if r[17] >= 128 {
                        r[16] + 256 * r[17] - 65536
                    } else {
                        r[16] + 256 * r[17]
                    }
                    &&& entries[j].1.1 == r[18]
                }
        }),
{
    let f = file(pits, entries);
    lemma_magic();
    lemma_records_len(entries);
    bytes::lemma_digits_len(pits as nat, 4);
    bytes::lemma_digits_len(entries.len(), 8);
    bytes::lemma_span();
    assert(f.take(8) =~= bytes::digits(MAGIC as nat, 8));
    assert forall|k: int| 0 <= k < 4 implies #[trigger] f[8 + k] == (pits / bytes::span(
        k as nat,
    ) as int) % 256 by {
        bytes::lemma_byte(pits as nat, 4, k);
    }
    assert forall|k: int| 0 <= k < 8 implies #[trigger] f[12 + k] == (entries.len() as int
        / bytes::span(k as nat) as int) % 256 by {
        bytes::lemma_byte(entries.len(), 8, k);
    }
    assert forall|j: int| 0 <= j < entries.len() implies {
        let r = #[trigger] f.subrange(20 + 19 * j, 39 + 19 * j);
        &&& bytes::number(r.take(16)) == entries[j].0
        &&& entries[j].1.0 == if r[17] >= 128 {
            r[16] + 256 * r[17] - 65536
        } else {
            r[16] + 256 * r[17]
        }
        &&& entries[j].1.1 == r[18]
    } by {
        let r = f.subrange(20 + 19 * j, 39 + 19 * j);
        let e = entries[j];
        let v = e.1.0 as int;
        lemma_records_at(entries, j);
        assert(r =~= records(entries).subrange(19 * j, 19 * j + 19));
        lemma_record_len(e);
        assert(r.take(16) =~= r.subrange(0, 16));
        bytes::lemma_number_of_digits(e.0 as nat, 16);
        let b = r.subrange(16, 18);
        bytes::lemma_two_bytes(b, v);
        bytes::lemma_number_of_digits(bytes::unsigned(v) as nat, 2);
        assert(b[0] == r[16] && b[1] == r[17]);
        bytes::lemma_byte(e.1.1 as nat, 1, 0);
        assert(r.subrange(18, 19)[0] == r[18]);
    }
}

/// Which byte strings start with a book: those with the magic string, a whole header, and
/// all the entries that it names.
pub proof fn lemma_loadable(f: Seq<u8>)
    ensures
        load_error(f) is None <==> {
            &&& f.len() >= 20
            &&& f.take(8) == seq![75u8, 65, 76, 65, 66, 75, 48, 49]
            &&& f.len() >= 20 + 19 * bytes::number(f.subrange(12, 20))
        },
        f.len() >= 8 && f.take(8) != seq![75u8, 65, 76, 65, 66, 75, 48, 49] ==> load_error(f) == Some(
            LoadError::NotATable,
        ),
        f.len() < 8 ==> load_error(f) == Some(LoadError::UnexpectedEnd),
        f.len() >= 8 && f.take(8) == seq![75u8, 65, 76, 65, 66, 75, 48, 49] && load_error(f) is Some
            ==> load_error(f) == Some(LoadError::UnexpectedEnd),
{
    lemma_magic();
    bytes::lemma_span();
    bytes::lemma_number_of_digits(MAGIC as nat, 8);
    if f.len() >= 8 && bytes::number(f.take(8)) == MAGIC {
        bytes::lemma_digits_of_number(f.take(8));
    }
}

} // verus!
