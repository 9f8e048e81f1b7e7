//! Offline endgame tablebase.
//!
//! Stores the store-independent future differential ([`value::future`], see
//! [`crate::endgame`]) for **every** pit layout with at most `cap` seeds in play,
//! on a fixed board size. Unlike the in-memory [`Endgame`] (built lazily during a
//! single search), a tablebase is built once, written to disk, then loaded and
//! queried in constant time during any later search.
//!
//! # Indexing (mirror-canonical)
//!
//! A pit layout is the `2N` pit counts **mover-first** (the side to move's pits,
//! then the opponent's). Kalah is player-symmetric, so the value of "the mover
//! holds `A` against `B`" is independent of *which* player the mover is; indexing
//! mover-first makes the two mirror positions share one entry.
//!
//! Layouts are mapped to a dense index by [`crate::counting`], so the table is
//! just a flat list of numbers, with no keys stored.
//!
//! # File format (little-endian)
//!
//! ```text
//! magic        : 8 bytes  = b"KALATB02"
//! pits_per_side: u32
//! seeds_cap    : u32
//! num_layouts  : u64       (= C(cap + 2N, 2N))
//! data         : i16 * num_layouts
//! ```

use vstd::prelude::*;

use crate::board;
use crate::board::{Board, Player, Rules, MAX_CELLS, MAX_PITS, MAX_SEEDS};
use crate::bytes;
use crate::bytes::{LoadError, Reader};
use crate::counting;
use crate::counting::Pascal;
use crate::endgame::Endgame;
use crate::model;
use crate::value;

verus! {

/// The magic string `KALATB02`, read as a number.
pub const MAGIC: u64 = 0x3230_4254_414C_414B;

// ---------------------------------------------------------------------------
// The file format
// ---------------------------------------------------------------------------

/// Table entries as they stand in a file.
pub open spec fn encoded(entries: Seq<i16>) -> Seq<u8>
    decreases entries.len(),
{
    if entries.len() == 0 {
        Seq::empty()
    } else {
        encoded(entries.drop_last()) + bytes::digits(
            bytes::unsigned(entries.last() as int) as nat,
            2,
        )
    }
}

/// The `j`-th entry of the data of a file.
pub open spec fn decoded(data: Seq<u8>, j: int) -> int {
    bytes::signed(bytes::number(data.subrange(2 * j, 2 * j + 2)) as int)
}

/// The contents of a tablebase file.
pub open spec fn file(pits: int, cap: int, entries: Seq<i16>) -> Seq<u8> {
    bytes::digits(MAGIC as nat, 8) + bytes::digits(pits as nat, 4) + bytes::digits(cap as nat, 4)
        + bytes::digits(entries.len(), 8) + encoded(entries)
}

/// The board size that a file names.
pub open spec fn file_pits(f: Seq<u8>) -> int {
    bytes::number(f.subrange(8, 12)) as int
}

/// The cap that a file names.
pub open spec fn file_cap(f: Seq<u8>) -> int {
    bytes::number(f.subrange(12, 16)) as int
}

/// The number of entries that a file names.
pub open spec fn file_count(f: Seq<u8>) -> int {
    bytes::number(f.subrange(16, 24)) as int
}

/// Why a byte string does not start with a tablebase, if it does not.
pub open spec fn load_error(f: Seq<u8>) -> Option<LoadError> {
    if f.len() < 8 {
        Some(LoadError::UnexpectedEnd)
    } else if bytes::number(f.take(8)) != MAGIC {
        Some(LoadError::NotATable)
    } else if f.len() < 24 {
        Some(LoadError::UnexpectedEnd)
    } else if file_count(f) != counting::saturated(
        counting::layouts(file_cap(f), 2 * file_pits(f)),
    ) {
        Some(LoadError::NotATable)
    } else if f.len() < 24 + 2 * file_count(f) {
        Some(LoadError::UnexpectedEnd)
    } else {
        None
    }
}

proof fn lemma_encoded_len(entries: Seq<i16>)
    ensures
        encoded(entries).len() == 2 * entries.len(),
    decreases entries.len(),
{
    if entries.len() > 0 {
        lemma_encoded_len(entries.drop_last());
        bytes::lemma_digits_len(bytes::unsigned(entries.last() as int) as nat, 2);
    }
}

proof fn lemma_decoded(entries: Seq<i16>, j: int)
    requires
        0 <= j < entries.len(),
    ensures
        decoded(encoded(entries), j) == entries[j],
    decreases entries.len(),
{
    let front = entries.drop_last();
    let v = bytes::unsigned(entries.last() as int) as nat;
    lemma_encoded_len(front);
    lemma_encoded_len(entries);
    bytes::lemma_span();
    bytes::lemma_number_of_digits(v, 2);
    if j < front.len() {
        lemma_decoded(front, j);
        assert(encoded(entries).subrange(2 * j, 2 * j + 2) =~= encoded(front).subrange(
            2 * j,
            2 * j + 2,
        ));
    } else {
        assert(encoded(entries).subrange(2 * j, 2 * j + 2) =~= bytes::digits(v, 2));
    }
}

/// What was written can be read: the file of a table starts with a tablebase that
/// has the same size, the same cap and the same entries.
pub proof fn lemma_file_round_trip(pits: int, cap: int, entries: Seq<i16>)
    requires
        0 <= pits <= u32::MAX,
        0 <= cap <= u32::MAX,
        entries.len() == counting::layouts(cap, 2 * pits),
        entries.len() <= u64::MAX,
    ensures
        load_error(file(pits, cap, entries)) is None,
        file_pits(file(pits, cap, entries)) == pits,
        file_cap(file(pits, cap, entries)) == cap,
        file_count(file(pits, cap, entries)) == entries.len(),
        file(pits, cap, entries).len() == 24 + 2 * entries.len(),
        forall|j: int|
            0 <= j < entries.len() ==> #[trigger] decoded(file(pits, cap, entries).skip(24), j)
                == entries[j],
{
    let f = file(pits, cap, entries);
    bytes::lemma_span();
    bytes::lemma_number_of_digits(MAGIC as nat, 8);
    bytes::lemma_number_of_digits(pits as nat, 4);
    bytes::lemma_number_of_digits(cap as nat, 4);
    bytes::lemma_number_of_digits(entries.len(), 8);
    lemma_encoded_len(entries);
    assert(f.take(8) =~= bytes::digits(MAGIC as nat, 8));
    assert(f.subrange(8, 12) =~= bytes::digits(pits as nat, 4));
    assert(f.subrange(12, 16) =~= bytes::digits(cap as nat, 4));
    assert(f.subrange(16, 24) =~= bytes::digits(entries.len(), 8));
    assert(f.skip(24) =~= encoded(entries));
    assert forall|j: int| 0 <= j < entries.len() implies #[trigger] decoded(f.skip(24), j)
        == entries[j] by {
        lemma_decoded(entries, j);
    }
}

// ---------------------------------------------------------------------------
// The table
// ---------------------------------------------------------------------------

/// An endgame tablebase for one board size.
pub struct Tablebase {
    pits_per_side: usize,
    cap: u32,
    /// The differential of each layout, at the layout's rank.
    data: Vec<i16>,
    /// For ranking layouts.
    pascal: Pascal,
}

/// Build a zero-store board from a canonical layout (mover pits then opponent
/// pits), with `P0` as the mover. By mirror symmetry this one orientation covers
/// both sides.
pub fn layout_board(pits_per_side: usize, layout: &[u8]) -> (b: Board)
    requires
        1 <= pits_per_side <= MAX_PITS,
        layout@.len() == 2 * pits_per_side,
        model::total(board::ints(layout@)) <= MAX_SEEDS,
    ensures
        b.wf(),
        b.pits() == pits_per_side,
        b.mover() == Player::P0,
        value::layout(b.pos()) == board::ints(layout@),
        model::bank(b.pos()) == 0,
        model::their_bank(b.pos()) == 0,
{
    let n: usize = pits_per_side;
    let mut cells: Vec<u8> = vec![0u8; 2 * n + 2];
    let mut i: usize = 0;
    while i < n
        invariant
            i <= n,
            n <= MAX_PITS,
            layout@.len() == 2 * n,
            cells@.len() == 2 * n + 2,
            forall|r: int| 0 <= r < i ==> #[trigger] cells@[r] == layout@[r],
            forall|r: int| i <= r <= n ==> #[trigger] cells@[r] == 0,
            forall|r: int| n + 1 <= r < n + 1 + i ==> #[trigger] cells@[r] == layout@[r - 1],
            forall|r: int| n + 1 + i <= r < 2 * n + 2 ==> #[trigger] cells@[r] == 0,
        decreases n - i,
    {
        cells.set(i, layout[i]);
        cells.set(n + 1 + i, layout[n + i]);
        i = i + 1;
    }
    proof {
        let l = board::ints(layout@);
        let s = board::ints(cells@);
        assert(model::pits(s) == n);
        assert(value::layout(s) =~= l);
        value::lemma_layout_total(s);
        assert(model::valid(s));
        model::lemma_total_parts(s);
    }
    Board::new(n, cells, Player::P0).unwrap()
}

impl Tablebase {
    /// Pits per side of the boards that the table is for.
    pub closed spec fn pits(&self) -> int {
        self.pits_per_side as int
    }

    /// The largest number of seeds in play that the table covers.
    pub closed spec fn limit(&self) -> int {
        self.cap as int
    }

    /// The entries, in the order of their rank.
    pub closed spec fn entries(&self) -> Seq<i16> {
        self.data@
    }

    /// There is one entry for each layout.
    #[verifier::type_invariant]
    pub open spec fn wf(&self) -> bool {
        &&& 0 <= self.pits() <= u32::MAX
        &&& 0 <= self.limit() <= u32::MAX
        &&& self.entries().len() == counting::layouts(self.limit(), 2 * self.pits())
        &&& self.entries().len() <= usize::MAX
    }

    /// What the table says of a layout, if it covers it.
    pub open spec fn knows(&self, l: Seq<int>) -> Option<int> {
        if self.pits() >= 1 && counting::is_layout(l, 2 * self.pits(), self.limit()) {
            Some(self.entries()[counting::rank_of(l) as int] as int)
        } else {
            None
        }
    }

    /// What the table says is true of every position that it covers.
    pub open spec fn correct(&self, rules: Rules) -> bool {
        forall|s: Seq<int>|
            model::valid(s) && model::pits(s) == self.pits() && model::in_play(s) <= self.limit()
                ==> self.knows(#[trigger] value::layout(s)) == Some(value::future(rules, s))
    }

    /// Which positions the table covers.
    pub proof fn lemma_knows(&self, s: Seq<int>)
        requires
            model::valid(s),
        ensures
            self.knows(value::layout(s)) is Some <==> self.pits() == model::pits(s)
                && model::in_play(s) <= self.limit(),
    {
        value::lemma_layout_total(s);
        let l = value::layout(s);
        assert(l.len() == 2 * model::pits(s));
        assert forall|j: int| 0 <= j < l.len() implies #[trigger] l[j] >= 0 by {
            if j < model::pits(s) {
                assert(l[j] == s[j]);
            } else {
                assert(l[j] == s[j + 1]);
            }
        }
    }

    /// The two mirrors of a position share one entry: the same pits for the mover
    /// and for the opponent give the same answer whichever player the mover is.
    pub proof fn lemma_mirror(&self, a: Board, b: Board)
        requires
            a.mover() == Player::P0,
            b.mover() == Player::P1,
            model::mine(a.seen_by(Player::P0)) == model::mine(b.seen_by(Player::P1)),
            model::theirs(a.seen_by(Player::P0)) == model::theirs(b.seen_by(Player::P1)),
        ensures
            self.knows(value::layout(a.pos())) == self.knows(value::layout(b.pos())),
    {
    }

    /// Pits per side of the boards that the table is for.
    pub fn pits_per_side(&self) -> (n: usize)
        ensures
            n == self.pits(),
    {
        self.pits_per_side
    }

    /// The largest number of seeds in play that the table covers.
    pub fn cap(&self) -> (c: u32)
        ensures
            c == self.limit(),
    {
        self.cap
    }

    /// Number of entries the table would hold for `(pits_per_side, cap)`, useful
    /// for sizing checks before building; the largest `u64` if there are more.
    /// Thanks to mirror canonicalization one entry serves both sides, so this is
    /// just the layout count.
    pub fn entry_count(pits_per_side: usize, cap: u32) -> (c: u64)
        requires
            2 * pits_per_side + cap <= u64::MAX,
        ensures
            c == counting::saturated(counting::layouts(cap as int, 2 * pits_per_side)),
    {
        counting::num_layouts(cap as u64, 2 * pits_per_side as u64)
    }

    /// Build the tablebase for every layout with at most `cap` seeds in play. Each
    /// layout is read as (mover pits, opponent pits); mirror symmetry means no
    /// per-side pass is needed.
    pub fn build(rules: Rules, pits_per_side: usize, cap: u32) -> (tb: Tablebase)
        requires
            1 <= pits_per_side <= MAX_PITS,
            cap <= MAX_SEEDS,
            counting::layouts(cap as int, 2 * pits_per_side) <= usize::MAX,
        ensures
            tb.pits() == pits_per_side,
            tb.limit() == cap,
            tb.correct(rules),
    {
        let n: usize = pits_per_side;
        let m: usize = 2 * n;
        let ghost mi = m as int;
        let ghost ci = cap as int;
        let pascal = Pascal::new();
        let total: usize = counting::num_layouts(cap as u64, m as u64) as usize;
        let mut data: Vec<i16> = vec![0i16; total];
        let mut memo = Endgame::new(rules, cap);
        let mut pits: Vec<u8> = vec![0u8; m];
        let ghost mut l = board::ints(pits@);
        proof {
            model::lemma_total_zero(l);
            assert forall|k: Seq<int>|
                counting::is_layout(k, mi, ci) && #[trigger] counting::precedes(
                    k,
                    l,
                ) implies false by {
                let j = choose|j: int| #[trigger] counting::parts_at(k, l, j);
                assert(k[j] < l[j]);
            }
        }
        let mut more = true;
        while more
            invariant
                1 <= n <= MAX_PITS,
                m == 2 * n,
                m == mi,
                cap == ci,
                cap <= MAX_SEEDS,
                pits@.len() == m,
                l == board::ints(pits@),
                counting::is_layout(l, mi, ci),
                data@.len() == counting::layouts(ci, mi),
                data@.len() == total,
                memo.wf(),
                memo.plays() == rules,
                forall|k: Seq<int>|
                    counting::is_layout(k, mi, ci) && (counting::precedes(k, l) || (!more && k
                        == l)) ==> #[trigger] entry_right(rules, data@, k),
                !more ==> forall|k: Seq<int>|
                    counting::is_layout(k, mi, ci) ==> !#[trigger] counting::precedes(l, k),
            decreases
                    if more {
                        to_come(l, mi, ci)
                    } else {
                        0
                    },
        {
            let ghost before = data@;
            let ghost at = l;
            proof {
                counting::lemma_rank_range(l, mi, ci);
                lemma_progress(l, l, mi, ci);
            }
            let b = layout_board(n, pits.as_slice());
            let g = memo.g(&b);
            let r: usize = pascal.rank(pits.as_slice()) as usize;
            data.set(r, g);
            proof {
                assert forall|k: Seq<int>|
                    counting::is_layout(k, mi, ci) && (counting::precedes(k, at) || k
                        == at) implies #[trigger] entry_right(rules, data@, k) by {
                    lemma_store(rules, before, data@, k, at, mi, ci, g, b.pos());
                }
            }
            more = counting::next_layout(cap, &mut pits);
            proof {
                l = board::ints(pits@);
                assert forall|k: Seq<int>|
                    counting::is_layout(k, mi, ci) && counting::precedes(
                    k,
                    l,
                ) implies #[trigger] entry_right(
                    rules,
                    data@,
                    k,
                ) by {
                    if k != at && !counting::precedes(k, at) {
                        counting::lemma_precedes_total(k, at);
                        assert(counting::precedes(at, k));
                    }
                }
                if more {
                    lemma_progress(at, l, mi, ci);
                }
            }
        }
        proof {
            assert forall|k: Seq<int>| counting::is_layout(k, mi, ci) implies #[trigger] entry_right(
                rules,
                data@,
                k,
            ) by {
                if k != l {
                    counting::lemma_precedes_total(k, l);
                    assert(!counting::precedes(l, k));
                }
            }
        }
        let tb = Tablebase { pits_per_side: n, cap, data, pascal };
        proof {
            assert forall|s: Seq<int>|
                model::valid(s) && model::pits(s) == tb.pits() && model::in_play(s)
                    <= tb.limit() implies tb.knows(#[trigger] value::layout(s)) == Some(
                value::future(rules, s),
            ) by {
                tb.lemma_knows(s);
                let k = value::layout(s);
                assert(counting::is_layout(k, mi, ci));
                assert(entry_right(rules, tb.data@, k));
            }
        }
        tb
    }

    /// Look up the differential (mover-perspective) of a position, if its seed
    /// count is within the table and the board size matches. Returns `None`
    /// otherwise. Mirror-canonical: works for either side to move via the same
    /// entry.
    pub fn lookup(&self, b: &Board) -> (g: Option<i16>)
        ensures
            match g {
                Some(g) => self.knows(value::layout(b.pos())) == Some(g as int),
                None => self.knows(value::layout(b.pos())) is None,
            },
            g is Some <==> self.pits() == b.pits() && model::in_play(b.pos()) <= self.limit(),
    {
        proof {
            use_type_invariant(self);
            use_type_invariant(b);
            b.lemma_seen();
            self.lemma_knows(b.pos());
        }
        if b.pits_per_side() != self.pits_per_side || b.seeds_in_play() > self.cap {
            return None;
        }
        let n: usize = b.pits_per_side();
        let mover = b.turn();
        let other = mover.other();
        let mut pits: [u8; 32] = [0u8;32];
        let ghost l = value::layout(b.pos());
        let mut i: usize = 0;
        proof {
            model::lemma_flip(b.pos());
        }
        while i < n
            invariant
                n == b.pits(),
                n <= MAX_PITS,
                n == model::pits(b.pos()),
                b.pos().len() == 2 * n + 2,
                i <= n,
                mover == b.mover(),
                other == mover.opponent(),
                b.seen_by(other) == model::flip(b.pos()),
                l == value::layout(b.pos()),
                l.len() == 2 * n,
                forall|r: int| 0 <= r < i ==> #[trigger] pits[r] == l[r],
                forall|r: int| n <= r < n + i ==> #[trigger] pits[r] == l[r],
            decreases n - i,
        {
            pits[i] = b.pit(mover, i);
            pits[n + i] = b.pit(other, i);
            i = i + 1;
        }
        let all: &[u8] = pits.as_slice();
        let row: &[u8] = vstd::slice::slice_subrange(all, 0, 2 * n);
        proof {
            assert(board::ints(row@) =~= l);
            value::lemma_layout_total(b.pos());
            counting::lemma_rank_range(l, 2 * n as int, self.limit());
        }
        Some(self.data[self.pascal.rank(row) as usize])
    }

    /// Serialize to bytes (see the file-format docs above).
    pub fn to_bytes(&self) -> (out: Vec<u8>)
        ensures
            out@ == file(self.pits(), self.limit(), self.entries()),
    {
        proof {
            use_type_invariant(self);
        }
        let mut out: Vec<u8> = Vec::new();
        bytes::push_number(&mut out, MAGIC as u128, 8);
        bytes::push_number(&mut out, self.pits_per_side as u128, 4);
        bytes::push_number(&mut out, self.cap as u128, 4);
        bytes::push_number(&mut out, self.data.len() as u128, 8);
        let ghost header = out@;
        let count: usize = self.data.len();
        let mut i: usize = 0;
        assert(header + encoded(self.data@.take(0)) =~= header);
        while i < count
            invariant
                i <= count,
                count == self.data@.len(),
                out@ == header + encoded(self.data@.take(i as int)),
            decreases count - i,
        {
            let ghost front = self.data@.take(i as int);
            bytes::push_i16(&mut out, self.data[i]);
            assert(self.data@.take(i + 1).drop_last() =~= front);
            assert(out@ =~= header + encoded(self.data@.take(i + 1)));
            i = i + 1;
        }
        assert(self.data@.take(count as int) =~= self.data@);
        assert(out@ =~= file(self.pits(), self.limit(), self.entries()));
        out
    }

    /// Load a tablebase from an in-memory byte string. Bytes after the table are
    /// ignored.
    pub fn from_bytes(bytes: &[u8]) -> (res: Result<Tablebase, LoadError>)
        ensures
            match res {
                Ok(tb) => {
                    &&& load_error(bytes@) is None
                    &&& tb.pits() == file_pits(bytes@)
                    &&& tb.limit() == file_cap(bytes@)
                    &&& tb.entries().len() == file_count(bytes@)
                    &&& forall|j: int|
                        0 <= j < tb.entries().len() ==> #[trigger] tb.entries()[j] == decoded(
                            bytes@.skip(24),
                            j,
                        )
                },
                Err(e) => load_error(bytes@) == Some(e),
            },
    {
        let mut r = Reader::new(bytes);
        Self::from_reader(&mut r)
    }

    /// Take a tablebase off the front of what `r` has still to read (see the
    /// file-format docs above).
    pub fn from_reader(r: &mut Reader) -> (res: Result<Tablebase, LoadError>)
        requires
            old(r).wf(),
        ensures
            final(r).wf(),
            match res {
                Ok(tb) => {
                    &&& load_error(old(r).rest()) is None
                    &&& tb.pits() == file_pits(old(r).rest())
                    &&& tb.limit() == file_cap(old(r).rest())
                    &&& tb.entries().len() == file_count(old(r).rest())
                    &&& forall|j: int|
                        0 <= j < tb.entries().len() ==> #[trigger] tb.entries()[j] == decoded(
                            old(r).rest().skip(24),
                            j,
                        )
                    &&& final(r).rest() == old(r).rest().skip(24 + 2 * file_count(old(r).rest()))
                },
                Err(e) => load_error(old(r).rest()) == Some(e),
            },
    {
        let ghost f = r.rest();
        proof {
            bytes::lemma_span();
        }
        let magic: u128 = match r.read_number(8) {
            Some(v) => v,
            None => {
                return Err(LoadError::UnexpectedEnd);
            },
        };
        if magic != MAGIC as u128 {
            return Err(LoadError::NotATable);
        }
        assert(f.len() >= 12 ==> r.rest().take(4) =~= f.subrange(8, 12));
        let pits: u128 = match r.read_number(4) {
            Some(v) => v,
            None => {
                return Err(LoadError::UnexpectedEnd);
            },
        };
        assert(r.rest() =~= f.skip(12));
        assert(f.len() >= 16 ==> r.rest().take(4) =~= f.subrange(12, 16));
        let cap: u128 = match r.read_number(4) {
            Some(v) => v,
            None => {
                return Err(LoadError::UnexpectedEnd);
            },
        };
        assert(r.rest() =~= f.skip(16));
        assert(f.len() >= 24 ==> r.rest().take(8) =~= f.subrange(16, 24));
        let count: u128 = match r.read_number(8) {
            Some(v) => v,
            None => {
                return Err(LoadError::UnexpectedEnd);
            },
        };
        assert(r.rest() =~= f.skip(24));
        if count != Self::entry_count(pits as usize, cap as u32) as u128 {
            return Err(LoadError::NotATable);
        }
        if count > r.remaining() as u128 / 2 {
            return Err(LoadError::UnexpectedEnd);
        }
        let count: usize = count as usize;
        let mut data: Vec<i16> = Vec::with_capacity(count);
        let mut i: usize = 0;
        assert(f.skip(24).skip(0) =~= f.skip(24));
        while i < count
            invariant
                i <= count,
                24 + 2 * count <= f.len(),
                r.wf(),
                r.rest() == f.skip(24).skip(2 * i),
                data@.len() == i,
                forall|j: int|
                    0 <= j < i ==> #[trigger] data@[j] == decoded(f.skip(24), j),
            decreases count - i,
        {
            assert(r.rest().take(2) =~= f.skip(24).subrange(2 * i, 2 * i + 2));
            match r.read_i16() {
                Some(v) => {
                    data.push(v);
                },
                None => {
                    return Err(LoadError::UnexpectedEnd);
                },
            }
            assert(r.rest() =~= f.skip(24).skip(2 * (i + 1)));
            i = i + 1;
        }
        assert(f.skip(24).skip(2 * count) =~= f.skip(24 + 2 * count));
        Ok(
            Tablebase {
                pits_per_side: pits as usize,
                cap: cap as u32,
                data,
                pascal: Pascal::new(),
            },
        )
    }
}

/// The entry of layout `k` is the future of every position with these pits.
spec fn entry_right(rules: Rules, data: Seq<i16>, k: Seq<int>) -> bool {
    forall|s: Seq<int>|
        model::valid(s) && #[trigger] value::layout(s) == k ==> data[counting::rank_of(k) as int]
            == value::future(rules, s)
}

/// Storing the future of a position at the rank of its pits makes that entry
/// right and leaves the other entries alone.
proof fn lemma_store(
    rules: Rules,
    before: Seq<i16>,
    data: Seq<i16>,
    k: Seq<int>,
    at: Seq<int>,
    m: int,
    cap: int,
    g: i16,
    s: Seq<int>,
)
    requires
        m >= 1,
        counting::is_layout(k, m, cap),
        counting::is_layout(at, m, cap),
        before.len() == counting::layouts(cap, m),
        data == before.update(counting::rank_of(at) as int, g),
        k == at || entry_right(rules, before, k),
        model::valid(s),
        value::layout(s) == at,
        g == value::future(rules, s),
    ensures
        entry_right(rules, data, k),
{
    counting::lemma_rank_bound(k, m, cap);
    counting::lemma_rank_bound(at, m, cap);
    if counting::rank_of(k) == counting::rank_of(at) {
        counting::lemma_rank_injective(k, at, m, cap);
    }
    assert forall|t: Seq<int>| model::valid(t) && #[trigger] value::layout(t) == k implies data[
    counting::rank_of(k) as int] == value::future(rules, t) by {
        if k == at {
            value::lemma_future_ignores_stores(rules, s, t);
        }
    }
}

/// A layout with the seeds that it leaves out in one more pit.
spec fn filled(l: Seq<int>, cap: int) -> Seq<int> {
    l.push(cap - model::total(l))
}

/// How many layouts, this one among them, an enumeration has still to visit.
spec fn to_come(l: Seq<int>, m: int, cap: int) -> int {
    counting::compositions(cap, m + 1) - counting::place_among_equals(filled(l, cap))
}

proof fn lemma_progress(a: Seq<int>, b: Seq<int>, m: int, cap: int)
    requires
        m >= 1,
        counting::is_layout(a, m, cap),
        counting::is_layout(b, m, cap),
        a == b || counting::precedes(a, b),
    ensures
        to_come(b, m, cap) > 0,
        a != b ==> to_come(b, m, cap) < to_come(a, m, cap),
{
    let x = filled(a, cap);
    let y = filled(b, cap);
    assert(x.drop_last() =~= a);
    assert(y.drop_last() =~= b);
    counting::lemma_sum_is_total(x);
    counting::lemma_sum_is_total(y);
    assert forall|j: int| 0 <= j < x.len() implies #[trigger] x[j] >= 0 by {
        if j < a.len() {
            assert(x[j] == a[j]);
        }
    }
    assert forall|j: int| 0 <= j < y.len() implies #[trigger] y[j] >= 0 by {
        if j < b.len() {
            assert(y[j] == b[j]);
        }
    }
    counting::lemma_place_bound(y);
    if a != b {
        let k = choose|k: int| #[trigger] counting::parts_at(a, b, k);
        assert(counting::parts_at(x, y, k)) by {
            assert forall|j: int| 0 <= j < k implies #[trigger] x[j] == y[j] by {
                assert(a[j] == b[j]);
            }
        }
        counting::lemma_place_increases(x, y, k);
    }
}

// ---------------------------------------------------------------------------
// Laws of tables
// ---------------------------------------------------------------------------

/// Entry `j` of the data of a file stands in the two bytes at `2 * j`.
proof fn lemma_encoded_at(entries: Seq<i16>, j: int)
    requires
        0 <= j < entries.len(),
    ensures
        encoded(entries).len() == 2 * entries.len(),
        encoded(entries).subrange(2 * j, 2 * j + 2) == bytes::digits(
            bytes::unsigned(entries[j] as int) as nat,
            2,
        ),
    decreases entries.len(),
{
    let front = entries.drop_last();
    let last = bytes::digits(bytes::unsigned(entries.last() as int) as nat, 2);
    lemma_encoded_len(front);
    lemma_encoded_len(entries);
    bytes::lemma_digits_len(bytes::unsigned(entries.last() as int) as nat, 2);
    if j < front.len() {
        lemma_encoded_at(front, j);
        assert(encoded(entries).subrange(2 * j, 2 * j + 2) =~= encoded(front).subrange(
            2 * j,
            2 * j + 2,
        ));
    } else {
        assert(encoded(entries).subrange(2 * j, 2 * j + 2) =~= last);
    }
}

proof fn lemma_magic()
    ensures
        bytes::digits(MAGIC as nat, 8) == seq![75u8, 65, 76, 65, 84, 66, 48, 50],
{
    bytes::lemma_digits_len(MAGIC as nat, 8);
    reveal_with_fuel(bytes::digits, 9);
    assert(bytes::digits(MAGIC as nat, 8) =~= seq![75u8, 65, 76, 65, 84, 66, 48, 50]);
}

/// The bytes of a tablebase file: `KALATB02`, then in four bytes the pits per side, in four
/// the cap and in eight the number of entries, and then two bytes for each entry, always
/// with the least significant byte first.
pub proof fn lemma_file_bytes(pits: int, cap: int, entries: Seq<i16>)
    requires
        0 <= pits <= u32::MAX,
        0 <= cap <= u32::MAX,
        entries.len() <= u64::MAX,
    ensures
        ({
            let f = file(pits, cap, entries);
            &&& f.len() == 24 + 2 * entries.len()
            &&& f.take(8) == seq![75u8, 65, 76, 65, 84, 66, 48, 50]
            &&& forall|k: int|
                0 <= k < 4 ==> #[trigger] f[8 + k] == (pits / bytes::span(k as nat) as int) % 256
            &&& forall|k: int|
                0 <= k < 4 ==> #[trigger] f[12 + k] == (cap / bytes::span(k as nat) as int) % 256
            &&& forall|k: int|
                0 <= k < 8 ==> #[trigger] f[16 + k] == (entries.len() as int / bytes::span(
                    k as nat,
                ) as int) % 256
            &&& forall|j: int|
                0 <= j < entries.len() ==> entries[j] == {
                    let b = #[trigger] f.subrange(24 + 2 * j, 26 + 2 * j);
                    if b[1] >= 128 {
                        b[0] + 256 * b[1] - 65536
                    } else {
                        b[0] + 256 * b[1]
                    }
                }
        }),
{
    let f = file(pits, cap, entries);
    lemma_magic();
    lemma_encoded_len(entries);
    bytes::lemma_digits_len(pits as nat, 4);
    bytes::lemma_digits_len(cap as nat, 4);
    bytes::lemma_digits_len(entries.len(), 8);
    bytes::lemma_span();
    assert(f.take(8) =~= bytes::digits(MAGIC as nat, 8));
    assert forall|k: int| 0 <= k < 4 implies #[trigger] f[8 + k] == (pits / bytes::span(
        k as nat,
    ) as int) % 256 by {
        bytes::lemma_byte(pits as nat, 4, k);
    }
    assert forall|k: int| 0 <= k < 4 implies #[trigger] f[12 + k] == (cap / bytes::span(
        k as nat,
    ) as int) % 256 by {
        bytes::lemma_byte(cap as nat, 4, k);
    }
    assert forall|k: int| 0 <= k < 8 implies #[trigger] f[16 + k] == (entries.len() as int
        / bytes::span(k as nat) as int) % 256 by {
        bytes::lemma_byte(entries.len(), 8, k);
    }
    assert forall|j: int| 0 <= j < entries.len() implies entries[j] == {
        let b = #[trigger] f.subrange(24 + 2 * j, 26 + 2 * j);
        if b[1] >= 128 {
            b[0] + 256 * b[1] - 65536
        } else {
            b[0] + 256 * b[1]
        }
    } by {
        let b = f.subrange(24 + 2 * j, 26 + 2 * j);
        let v = entries[j] as int;
        lemma_encoded_at(entries, j);
        assert(b =~= encoded(entries).subrange(2 * j, 2 * j + 2));
        bytes::lemma_two_bytes(b, v);
        bytes::lemma_number_of_digits(bytes::unsigned(v) as nat, 2);
    }
}

/// Which byte strings start with a tablebase: those with the magic string, a whole header,
/// as many entries named as there are layouts, and all of them there.
pub proof fn lemma_loadable(f: Seq<u8>)
    ensures
        load_error(f) is None <==> {
            &&& f.len() >= 24
            &&& f.take(8) == seq![75u8, 65, 76, 65, 84, 66, 48, 50]
            &&& bytes::number(f.subrange(16, 24)) == counting::saturated(
                counting::layouts(
                    bytes::number(f.subrange(12, 16)) as int,
                    2 * bytes::number(f.subrange(8, 12)) as int,
                ),
            )
            &&& f.len() >= 24 + 2 * bytes::number(f.subrange(16, 24))
        },
        f.len() >= 8 && f.take(8) != seq![75u8, 65, 76, 65, 84, 66, 48, 50] ==> load_error(f) == Some(
            LoadError::NotATable,
        ),
        f.len() < 8 ==> load_error(f) == Some(LoadError::UnexpectedEnd),
        8 <= f.len() < 24 && f.take(8) == seq![75u8, 65, 76, 65, 84, 66, 48, 50] ==> load_error(f)
            == Some(LoadError::UnexpectedEnd),
{
    let magic = seq![75u8, 65, 76, 65, 84, 66, 48, 50];
    lemma_magic();
    bytes::lemma_span();
    bytes::lemma_number_of_digits(MAGIC as nat, 8);
    if f.len() >= 8 && bytes::number(f.take(8)) == MAGIC {
        bytes::lemma_digits_of_number(f.take(8));
    }
}

/// A correct table tells of every position that it covers how much the mover gains from
/// there to the end by perfect play, whatever is in the stores.
pub proof fn lemma_true_entry(tb: &Tablebase, rules: Rules, s: Seq<int>)
    requires
        tb.correct(rules),
        model::valid(s),
    ensures
        s.len() == 2 * tb.pits() + 2 && model::in_play(s) <= tb.limit() ==> tb.knows(
            value::layout(s),
        ) == Some(value::game_value(rules, s) - model::lead(s)),
        !(s.len() == 2 * tb.pits() + 2 && model::in_play(s) <= tb.limit()) ==> tb.knows(
            value::layout(s),
        ) is None,
{
    tb.lemma_knows(s);
}

} // verus!
