//! A dense, open-addressing (linear-probing) transposition table.
//!
//! The table is one flat list of slots. Each slot fuses a position key (high
//! bits) with a payload (value, kind of bound, best move) in its 22 low bits, so
//! an entry takes 16 bytes and a look-up reads nothing but the slots. The table
//! doubles, up to a limit, to stay proportional to the working set. It never
//! overwrites a different key, so a cached subtree is never recomputed because of
//! another one. A free slot is zero, which no entry can equal because no key is
//! zero.

use vstd::prelude::*;

use crate::hash;

verus! {

/// How a cached value relates to the true one.
#[derive(Clone, Copy, Debug, PartialEq, Eq, Structural)]
pub enum Flag {
    /// It is the true value.
    Exact,
    /// The true value is at least as large.
    Lower,
    /// The true value is at most as large.
    Upper,
}

/// What the table says of a key.
#[derive(Clone, Copy, Debug, PartialEq, Eq, Structural)]
pub struct Probe {
    pub value: i16,
    pub flag: Flag,
    pub best: Option<usize>,
}

/// The number of payloads: a slot is its key times this, plus its payload.
pub const PAYLOADS: u128 = 0x40_0000;

/// Keys below this bound leave room for a payload.
pub const KEY_LIMIT: u128 = 0x400_0000_0000_0000_0000_0000_0000;

/// The payload's best-move digit when there is no best move.
pub const NO_MOVE: u128 = 15;

/// The number of slots of a new table.
pub const START_SLOTS: usize = 0x4000;

/// The smallest limit that a table can have.
pub const MIN_SLOTS: usize = 64;

/// The largest limit that a table can have.
pub const MAX_SLOTS: usize = 0x1000_0000;

/// Linear-probe bound. While the table can grow, chains are a few slots; this is
/// a safety valve once it cannot (a position past it goes uncached instead of
/// costing a scan of the whole table).
pub const MAX_PROBE: usize = 48;

/// The key of a slot.
pub open spec fn slot_key(e: u128) -> u128 {
    e / PAYLOADS
}

/// The payload of a slot.
pub open spec fn slot_probe(e: u128) -> Probe {
    let payload = e % PAYLOADS;
    let v = payload % 0x1_0000;
    let f = (payload / 0x1_0000) % 4;
    let m = payload / 0x4_0000;
    Probe {
        value: (if v >= 0x8000 {
            v - 0x1_0000
        } else {
            v as int
        }) as i16,
        flag: if f == 1 {
            Flag::Exact
        } else if f == 2 {
            Flag::Lower
        } else {
            Flag::Upper
        },
        best: if m == NO_MOVE {
            None
        } else {
            Some(m as usize)
        },
    }
}

/// Some slot holds `p` for `key`.
pub open spec fn stores(slots: Seq<u128>, key: u128, p: Probe) -> bool {
    exists|i: int| #[trigger] stores_at(slots, i, key, p)
}

/// Slot `i` holds `p` for `key`.
pub open spec fn stores_at(slots: Seq<u128>, i: int, key: u128, p: Probe) -> bool {
    0 <= i < slots.len() && slots[i] != 0 && slot_key(slots[i]) == key && slot_probe(slots[i]) == p
}

/// The slot at which the search for `key` is after `d` steps.
pub open spec fn probed(slots: Seq<u128>, key: u128, d: int) -> int {
    hash::ring(hash::home_slot(key, slots.len() as int), d, slots.len() as int)
}

/// What a search for `key` finds from its `d`-th step on: it ends at the key, at
/// a free slot, or at the probe bound.
pub open spec fn found(slots: Seq<u128>, key: u128, d: int) -> Option<Probe>
    decreases MAX_PROBE - d,
{
    if d >= MAX_PROBE {
        None
    } else {
        let e = slots[probed(slots, key, d)];
        if e == 0 {
            None
        } else if slot_key(e) == key {
            Some(slot_probe(e))
        } else {
            found(slots, key, d + 1)
        }
    }
}

/// The slot that says `p` of `key`.
pub open spec fn slot_of(key: u128, p: Probe) -> u128 {
    let v = if p.value < 0 {
        p.value + 0x1_0000
    } else {
        p.value as int
    };
    let f = match p.flag {
        Flag::Exact => 1int,
        Flag::Lower => 2,
        Flag::Upper => 3,
    };
    let m = match p.best {
        None => NO_MOVE as int,
        Some(m) => m as int,
    };
    (key * PAYLOADS + (m * 0x4_0000 + f * 0x1_0000 + v)) as u128
}

/// The slot for `key` from the `d`-th step of a search on: its own, or the first that is
/// free, within the probe bound.
pub open spec fn slot_for(slots: Seq<u128>, key: u128, d: int) -> Option<int>
    decreases MAX_PROBE - d,
{
    if d >= MAX_PROBE {
        None
    } else {
        let i = probed(slots, key, d);
        if slots[i] == 0 || slot_key(slots[i]) == key {
            Some(i)
        } else {
            slot_for(slots, key, d + 1)
        }
    }
}

/// The first free slot from the `d`-th step of a search for `key` on.
pub open spec fn free_from(slots: Seq<u128>, key: u128, d: int) -> int
    decreases slots.len() - d,
{
    if d >= slots.len() || slots[probed(slots, key, d)] == 0 {
        probed(slots, key, d)
    } else {
        free_from(slots, key, d + 1)
    }
}

/// Twice as many slots, into which the first `j` of these are moved.
pub open spec fn doubled(slots: Seq<u128>, j: int) -> Seq<u128>
    decreases j,
{
    if j <= 0 {
        Seq::new(2 * slots.len(), |i: int| 0u128)
    } else {
        let front = doubled(slots, j - 1);
        let e = slots[j - 1];
        if e == 0 {
            front
        } else {
            front.update(free_from(front, slot_key(e), 0), e)
        }
    }
}

/// The slots after `p` is stored for `key` in a table with this limit: first doubled, if
/// three in five are taken and the limit allows it.
pub open spec fn slots_after(slots: Seq<u128>, limit: int, key: u128, p: Probe) -> Seq<u128> {
    let room = if taken(slots) * 20 >= slots.len() * 12 && 2 * slots.len() <= limit {
        doubled(slots, slots.len() as int)
    } else {
        slots
    };
    match slot_for(room, key, 0) {
        Some(i) => room.update(i, slot_of(key, p)),
        None => room,
    }
}

/// Every slot that a search for `key` may look at is taken by another key.
pub open spec fn crowded(slots: Seq<u128>, key: u128) -> bool {
    forall|d: int|
        0 <= d < MAX_PROBE ==> #[trigger] slots[probed(slots, key, d)] != 0 && slot_key(
            slots[probed(slots, key, d)],
        ) != key
}

/// No key has two slots.
pub open spec fn lone(slots: Seq<u128>) -> bool {
    forall|i: int, j: int|
        0 <= i < j < slots.len() && #[trigger] slots[i] != 0 && #[trigger] slots[j] != 0
            ==> slot_key(slots[i]) != slot_key(slots[j])
}

/// Every slot from the home of `key` up to slot `i` is taken.
pub open spec fn linked(slots: Seq<u128>, key: u128, i: int) -> bool {
    forall|x: int|
        0 <= x < hash::distance(
            hash::home_slot(key, slots.len() as int),
            i,
            slots.len() as int,
        ) ==> #[trigger] slots[probed(slots, key, x)] != 0
}

/// No entry has a free slot between its home and itself.
pub open spec fn chained(slots: Seq<u128>) -> bool {
    forall|i: int|
        0 <= i < slots.len() && #[trigger] slots[i] != 0 ==> linked(slots, slot_key(slots[i]), i)
}

/// The number of slots that are taken.
pub open spec fn taken(slots: Seq<u128>) -> nat
    decreases slots.len(),
{
    if slots.len() == 0 {
        0
    } else {
        taken(slots.drop_last()) + if slots.last() != 0 {
            1nat
        } else {
            0
        }
    }
}

proof fn lemma_taken_update(slots: Seq<u128>, i: int, e: u128)
    requires
        0 <= i < slots.len(),
    ensures
        taken(slots.update(i, e)) == taken(slots) - (if slots[i] != 0 {
            1int
        } else {
            0
        }) + (if e != 0 {
            1int
        } else {
            0
        }),
    decreases slots.len(),
{
    let u = slots.update(i, e);
    if i == slots.len() - 1 {
        assert(u.drop_last() =~= slots.drop_last());
    } else {
        assert(u.drop_last() =~= slots.drop_last().update(i, e));
        lemma_taken_update(slots.drop_last(), i, e);
    }
}

proof fn lemma_taken_bound(slots: Seq<u128>)
    ensures
        taken(slots) <= slots.len(),
        (forall|i: int| 0 <= i < slots.len() ==> #[trigger] slots[i] != 0) ==> taken(slots)
            == slots.len(),
        (forall|i: int| 0 <= i < slots.len() ==> #[trigger] slots[i] == 0) ==> taken(slots) == 0,
    decreases slots.len(),
{
    if slots.len() > 0 {
        lemma_taken_bound(slots.drop_last());
        if forall|i: int| 0 <= i < slots.len() ==> #[trigger] slots[i] != 0 {
            assert forall|i: int| 0 <= i < slots.drop_last().len() implies #[trigger] slots.drop_last()[i]
                != 0 by {
                assert(slots.drop_last()[i] == slots[i]);
            }
            assert(slots[slots.len() - 1] != 0);
        }
        if forall|i: int| 0 <= i < slots.len() ==> #[trigger] slots[i] == 0 {
            assert forall|i: int| 0 <= i < slots.drop_last().len() implies #[trigger] slots.drop_last()[i]
                == 0 by {
                assert(slots.drop_last()[i] == slots[i]);
            }
            assert(slots[slots.len() - 1] == 0);
        }
    }
}

/// The parts of a slot can be told apart.
proof fn lemma_fused(key: int, m: int, f: int, v: int)
    requires
        0 < key,
        0 <= m < 16,
        1 <= f < 4,
        0 <= v < 0x1_0000,
    ensures
        ({
            let payload = m * 0x4_0000 + f * 0x1_0000 + v;
            let e = key * 0x40_0000 + payload;
            &&& e / 0x40_0000 == key
            &&& e % 0x40_0000 == payload
            &&& payload % 0x1_0000 == v
            &&& (payload / 0x1_0000) % 4 == f
            &&& payload / 0x4_0000 == m
        }),
{
    let payload = m * 0x4_0000 + f * 0x1_0000 + v;
    assert(payload / 0x1_0000 == m * 4 + f);
}

proof fn lemma_home(key: u128, len: int)
    requires
        0 < len,
    ensures
        0 <= hash::home_slot(key, len) < len,
{
}

/// Putting an entry for a key that has no slot into a free one that is linked to its
/// home.
proof fn lemma_link(slots: Seq<u128>, key: u128, i: int, entry: u128)
    requires
        0 <= i < slots.len(),
        lone(slots),
        chained(slots),
        slots[i] == 0,
        linked(slots, key, i),
        entry != 0,
        slot_key(entry) == key,
        forall|y: int|
            0 <= y < slots.len() && #[trigger] slots[y] != 0 ==> slot_key(slots[y]) != key,
    ensures
        lone(slots.update(i, entry)),
        chained(slots.update(i, entry)),
{
    let u = slots.update(i, entry);
    assert forall|a: int, b: int|
        0 <= a < b < u.len() && #[trigger] u[a] != 0 && #[trigger] u[b] != 0 implies slot_key(u[a])
        != slot_key(u[b]) by {
        if a != i {
            assert(u[a] == slots[a]);
        }
        if b != i {
            assert(u[b] == slots[b]);
        }
    }
    lemma_chained_update(slots, key, i, entry);
}

/// Taking one more slot, or the slot of the same key, breaks no chain.
proof fn lemma_chained_update(slots: Seq<u128>, key: u128, i: int, entry: u128)
    requires
        0 <= i < slots.len(),
        chained(slots),
        linked(slots, key, i),
        entry != 0,
        slot_key(entry) == key,
    ensures
        chained(slots.update(i, entry)),
{
    let u = slots.update(i, entry);
    assert forall|a: int| 0 <= a < u.len() && #[trigger] u[a] != 0 implies linked(
        u,
        slot_key(u[a]),
        a,
    ) by {
        let k = slot_key(u[a]);
        if a != i {
            assert(u[a] == slots[a]);
        }
        assert(linked(slots, k, a));
        assert forall|x: int|
            0 <= x < hash::distance(
                hash::home_slot(k, u.len() as int),
                a,
                u.len() as int,
            ) implies #[trigger] u[probed(u, k, x)] != 0 by {
            assert(slots[probed(slots, k, x)] != 0);
        }
    }
}

/// Putting an entry where a search for its key ends keeps the table in order.
proof fn lemma_chain(slots: Seq<u128>, key: u128, d: int, entry: u128)
    requires
        MIN_SLOTS <= slots.len(),
        0 <= d < MAX_PROBE,
        lone(slots),
        chained(slots),
        0 <= hash::home_slot(key, slots.len() as int) < slots.len(),
        forall|x: int|
            0 <= x < d ==> #[trigger] slots[probed(slots, key, x)] != 0 && slot_key(
                slots[probed(slots, key, x)],
            ) != key,
        slots[probed(slots, key, d)] == 0 || slot_key(slots[probed(slots, key, d)]) == key,
        entry != 0,
        slot_key(entry) == key,
    ensures
        lone(slots.update(probed(slots, key, d), entry)),
        chained(slots.update(probed(slots, key, d), entry)),
{
    let len = slots.len() as int;
    let home = hash::home_slot(key, len);
    let i = probed(slots, key, d);
    assert(hash::distance(home, i, len) == d);
    assert(linked(slots, key, i));
    if slots[i] == 0 {
        assert forall|y: int| 0 <= y < slots.len() && #[trigger] slots[y] != 0 implies slot_key(
            slots[y],
        ) != key by {
            if slot_key(slots[y]) == key {
                let e = hash::distance(home, y, len);
                assert(probed(slots, key, e) == y);
                assert(linked(slots, key, y));
                if d < e {
                    assert(slots[probed(slots, key, d)] != 0);
                }
            }
        }
        lemma_link(slots, key, i, entry);
    } else {
        let u = slots.update(i, entry);
        assert forall|a: int, b: int|
            0 <= a < b < u.len() && #[trigger] u[a] != 0 && #[trigger] u[b] != 0 implies slot_key(
            u[a],
        ) != slot_key(u[b]) by {
            assert(slots[a] != 0);
            assert(slots[b] != 0);
            assert(slot_key(u[a]) == slot_key(slots[a]));
            assert(slot_key(u[b]) == slot_key(slots[b]));
        }
        lemma_chained_update(slots, key, i, entry);
    }
}

/// A search for a key that has a slot finds it there, or cannot get that far.
proof fn lemma_found_at(slots: Seq<u128>, key: u128, i: int)
    requires
        MIN_SLOTS <= slots.len(),
        lone(slots),
        chained(slots),
        0 <= i < slots.len(),
        slots[i] != 0,
        slot_key(slots[i]) == key,
    ensures
        found(slots, key, 0) == Some(slot_probe(slots[i])) || (found(slots, key, 0) is None
            && crowded(slots, key)),
{
    let len = slots.len() as int;
    lemma_home(key, len);
    let home = hash::home_slot(key, len);
    let d = hash::distance(home, i, len);
    assert(probed(slots, key, d) == i);
    assert(linked(slots, key, i));
    assert forall|x: int| 0 <= x < d implies #[trigger] slots[probed(slots, key, x)] != 0
        && slot_key(slots[probed(slots, key, x)]) != key by {
        let y = probed(slots, key, x);
        assert(y != i);
        assert(slots[y] != 0);
        if y < i {
            assert(slot_key(slots[y]) != slot_key(slots[i]));
        } else {
            assert(slot_key(slots[i]) != slot_key(slots[y]));
        }
    }
    if d < MAX_PROBE {
        Tt::lemma_reach(slots, d, slots[i], key, 0);
        assert(slots.update(i, slots[i]) =~= slots);
    } else {
        assert(crowded(slots, key));
        Tt::lemma_crowded(slots, key, 0);
    }
}

/// What is found is held.
proof fn lemma_found_stores(slots: Seq<u128>, key: u128, d: int)
    requires
        MIN_SLOTS <= slots.len(),
        0 <= d,
        0 <= hash::home_slot(key, slots.len() as int) < slots.len(),
    ensures
        found(slots, key, d) matches Some(p) ==> stores(slots, key, p),
    decreases MAX_PROBE - d,
{
    if d < MAX_PROBE {
        let i = probed(slots, key, d);
        assert(0 <= i < slots.len());
        if slots[i] != 0 {
            if slot_key(slots[i]) == key {
                assert(stores_at(slots, i, key, slot_probe(slots[i])));
            } else {
                lemma_found_stores(slots, key, d + 1);
            }
        }
    }
}

/// The slots with the first `d` that a search for `key` looks at cleared.
spec fn cleared(slots: Seq<u128>, key: u128, d: int) -> Seq<u128>
    decreases d,
{
    if d <= 0 {
        slots
    } else {
        cleared(slots, key, d - 1).update(probed(slots, key, d - 1), 0)
    }
}

/// Crowded slots are many.
proof fn lemma_cleared(slots: Seq<u128>, key: u128, d: int)
    requires
        MIN_SLOTS <= slots.len(),
        0 <= d <= MAX_PROBE,
        0 <= hash::home_slot(key, slots.len() as int) < slots.len(),
        crowded(slots, key),
    ensures
        taken(slots) >= d,
        taken(cleared(slots, key, d)) == taken(slots) - d,
        cleared(slots, key, d).len() == slots.len(),
        forall|x: int|
            d <= x < MAX_PROBE ==> cleared(slots, key, d)[#[trigger] probed(slots, key, x)]
                == slots[probed(slots, key, x)],
    decreases d,
{
    if d > 0 {
        lemma_cleared(slots, key, d - 1);
        let c = cleared(slots, key, d - 1);
        let i = probed(slots, key, d - 1);
        assert(slots[i] != 0);
        lemma_taken_update(c, i, 0);
        assert forall|x: int| d <= x < MAX_PROBE implies cleared(slots, key, d)[#[trigger] probed(
            slots,
            key,
            x,
        )] == slots[probed(slots, key, x)] by {
            assert(probed(slots, key, x) != i);
        }
    }
}

/// What was found for a key is found, or cannot be because every slot that a search may
/// look at is taken by another key.
pub open spec fn still_found(slots: Seq<u128>, key: u128, p: Probe) -> bool {
    found(slots, key, 0) == Some(p) || (found(slots, key, 0) is None && crowded(slots, key))
}

/// What storing `p` for `key` does: it is found afterwards, unless every slot that a
/// search may look at is taken by another key; other keys keep what they have and stay
/// findable in the same way; and the limit stays.
pub open spec fn stored(before: Tt, after: Tt, key: u128, p: Probe) -> bool {
    &&& still_found(after.contents(), key, p)
    &&& forall|k: u128, q: Probe|
        k != key ==> #[trigger] after.holds(k, q) == before.holds(k, q)
    &&& forall|k: u128|
        k != key ==> ((#[trigger] found(before.contents(), k, 0)) matches Some(q) ==> still_found(
            after.contents(),
            k,
            q,
        ))
    &&& forall|q: Probe| #[trigger] after.holds(key, q) ==> q == p || before.holds(key, q)
    &&& before.size() <= after.size() <= before.size() + 1
    &&& after.limit() == before.limit()
}

/// A transposition table.
pub struct Tt {
    slots: Vec<u128>,
    occupancy: usize,
    max_slots: usize,
}

impl Tt {
    /// The slots.
    pub closed spec fn contents(&self) -> Seq<u128> {
        self.slots@
    }

    /// The number of slots up to which the table grows.
    pub closed spec fn limit(&self) -> usize {
        self.max_slots
    }

    /// The number of keys that the table holds.
    pub open spec fn size(&self) -> nat {
        taken(self.contents())
    }

    /// The number of slots is within the limit, the taken ones are counted, and every
    /// entry is where a search for its key leads.
    pub closed spec fn wf(&self) -> bool {
        &&& MIN_SLOTS <= self.slots@.len() <= self.max_slots
        &&& MIN_SLOTS <= self.max_slots <= MAX_SLOTS
        &&& self.occupancy == taken(self.slots@)
        &&& lone(self.slots@)
        &&& chained(self.slots@)
    }

    /// The memory of the table is bounded: it never has more slots than its limit.
    pub proof fn lemma_bounded(&self)
        requires
            self.wf(),
        ensures
            MIN_SLOTS <= self.contents().len() <= self.limit() <= MAX_SLOTS,
    {
    }

    /// What the table holds for a key is found, unless every slot that a search may
    /// look at is taken by another key.
    pub proof fn lemma_findable(&self, key: u128, p: Probe)
        requires
            self.wf(),
            self.holds(key, p),
        ensures
            found(self.contents(), key, 0) == Some(p) || (found(self.contents(), key, 0) is None
                && crowded(self.contents(), key)),
    {
        let i = choose|i: int| #[trigger] stores_at(self.contents(), i, key, p);
        lemma_found_at(self.contents(), key, i);
    }

    /// A table with few entries finds whatever it holds, and nothing else.
    pub proof fn lemma_uncrowded(&self, key: u128)
        requires
            self.wf(),
            self.size() < MAX_PROBE,
        ensures
            !crowded(self.contents(), key),
            forall|p: Probe| #[trigger]
                self.holds(key, p) <==> found(self.contents(), key, 0) == Some(p),
    {
        lemma_home(key, self.contents().len() as int);
        if crowded(self.contents(), key) {
            lemma_cleared(self.contents(), key, MAX_PROBE as int);
        }
        assert forall|p: Probe| #[trigger] self.holds(key, p) implies found(
            self.contents(),
            key,
            0,
        ) == Some(p) by {
            self.lemma_findable(key, p);
        }
        lemma_found_stores(self.contents(), key, 0);
    }

    /// Storing never overwrites a different key: of a new table to which two keys were
    /// written, each is found as it was written, and no other key is found.
    pub proof fn lemma_two_stores(
        a: Tt,
        b: Tt,
        c: Tt,
        k: u128,
        p: Probe,
        l: u128,
        q: Probe,
    )
        requires
            a.wf(),
            b.wf(),
            c.wf(),
            a.size() == 0,
            forall|key: u128, x: Probe| !#[trigger] a.holds(key, x),
            stored(a, b, k, p),
            stored(b, c, l, q),
            k != l,
        ensures
            found(c.contents(), k, 0) == Some(p),
            found(c.contents(), l, 0) == Some(q),
            forall|key: u128|
                key != k && key != l ==> (#[trigger] found(c.contents(), key, 0)) is None,
    {
        b.lemma_uncrowded(k);
        c.lemma_uncrowded(l);
        c.lemma_uncrowded(k);
        assert(b.holds(k, p));
        assert(c.holds(k, p));
        assert forall|key: u128| key != k && key != l implies (#[trigger] found(
            c.contents(),
            key,
            0,
        )) is None by {
            lemma_home(key, c.contents().len() as int);
            lemma_found_stores(c.contents(), key, 0);
            if found(c.contents(), key, 0) is Some {
                let x = found(c.contents(), key, 0)->0;
                assert(c.holds(key, x));
                assert(b.holds(key, x));
                assert(a.holds(key, x));
            }
        }
    }

    /// The table holds `p` for `key`.
    pub open spec fn holds(&self, key: u128, p: Probe) -> bool {
        stores(self.contents(), key, p)
    }

    /// An empty table that grows to `max_slots` slots.
    pub fn new(max_slots: usize) -> (t: Tt)
        requires
            MIN_SLOTS <= max_slots <= MAX_SLOTS,
        ensures
            t.wf(),
            t.limit() == max_slots,
            t.contents().len() <= max_slots,
            t.contents() == Seq::new(
                (if START_SLOTS < max_slots {
                    START_SLOTS
                } else {
                    max_slots
                }) as nat,
                |i: int| 0u128,
            ),
            t.size() == 0,
            forall|key: u128, p: Probe| !#[trigger] t.holds(key, p),
            forall|key: u128| (#[trigger] found(t.contents(), key, 0)) is None,
    {
        let n: usize = if START_SLOTS < max_slots {
            START_SLOTS
        } else {
            max_slots
        };
        let slots: Vec<u128> = vec![0u128; n];
        proof {
            lemma_taken_bound(slots@);
            assert forall|key: u128| (#[trigger] found(slots@, key, 0)) is None by {
                lemma_home(key, slots@.len() as int);
            }
        }
        Tt { slots, occupancy: 0, max_slots }
    }

    /// Pack an entry into a slot.
    fn encode(key: u128, p: Probe) -> (e: u128)
        requires
            0 < key < KEY_LIMIT,
            p.best matches Some(m) ==> m < 15,
        ensures
            e != 0,
            slot_key(e) == key,
            slot_probe(e) == p,
            e == slot_of(key, p),
    {
        let v: u128 = if p.value < 0 {
            (p.value as i32 + 0x1_0000) as u128
        } else {
            p.value as u128
        };
        let f: u128 = match p.flag {
            Flag::Exact => 1,
            Flag::Lower => 2,
            Flag::Upper => 3,
        };
        let m: u128 = match p.best {
            None => NO_MOVE,
            Some(m) => m as u128,
        };
        let payload: u128 = m * 0x4_0000 + f * 0x1_0000 + v;
        let e: u128 = key * PAYLOADS + payload;
        proof {
            lemma_fused(key as int, m as int, f as int, v as int);
        }
        e
    }

    /// Unpack the payload of a slot.
    fn decode(e: u128) -> (p: Probe)
        ensures
            p == slot_probe(e),
    {
        let payload: u128 = e % PAYLOADS;
        let v: u128 = payload % 0x1_0000;
        let f: u128 = (payload / 0x1_0000) % 4;
        let m: u128 = payload / 0x4_0000;
        Probe {
            value: if v >= 0x8000 {
                (v as i32 - 0x1_0000) as i16
            } else {
                v as i16
            },
            flag: if f == 1 {
                Flag::Exact
            } else if f == 2 {
                Flag::Lower
            } else {
                Flag::Upper
            },
            best: if m == NO_MOVE {
                None
            } else {
                Some(m as usize)
            },
        }
    }

    /// The slot at which the search for `key` starts.
    fn home(&self, key: u128) -> (i: usize)
        requires
            self.wf(),
        ensures
            i == hash::home_slot(key, self.contents().len() as int),
            i < self.contents().len(),
    {
        (hash::mix(key) % self.slots.len() as u64) as usize
    }

    /// The slot after `i`.
    fn next(&self, i: usize) -> (n: usize)
        requires
            self.wf(),
            i < self.contents().len(),
        ensures
            n == if i + 1 == self.contents().len() {
                0
            } else {
                i + 1
            },
    {
        if i + 1 == self.slots.len() {
            0
        } else {
            i + 1
        }
    }

    /// What the table says of `key`.
    pub fn get(&self, key: u128) -> (p: Option<Probe>)
        requires
            self.wf(),
        ensures
            p == found(self.contents(), key, 0),
            p matches Some(p) ==> self.holds(key, p),
    {
        let mut i: usize = self.home(key);
        let mut d: usize = 0;
        while d < MAX_PROBE
            invariant
                self.wf(),
                d <= MAX_PROBE,
                i == probed(self.contents(), key, d as int),
                i < self.contents().len(),
                0 <= hash::home_slot(key, self.contents().len() as int) < self.contents().len(),
                found(self.contents(), key, 0) == found(self.contents(), key, d as int),
            decreases MAX_PROBE - d,
        {
            let e = self.slots[i];
            if e == 0 {
                return None;
            }
            if e / PAYLOADS == key {
                let p = Self::decode(e);
                assert(stores_at(self.contents(), i as int, key, p));
                return Some(p);
            }
            i = self.next(i);
            d = d + 1;
        }
        None
    }

    /// Cache `p` for `key`, replacing what was cached for it. Leaves the table
    /// without an entry for `key` only if every slot that a search may look at is
    /// taken by another key.
    pub fn store(&mut self, key: u128, p: Probe)
        requires
            old(self).wf(),
            0 < key < KEY_LIMIT,
            p.best matches Some(m) ==> m < 15,
        ensures
            final(self).wf(),
            stored(*old(self), *final(self), key, p),
            final(self).contents() == slots_after(
                old(self).contents(),
                old(self).limit() as int,
                key,
                p,
            ),
            final(self).contents().len() <= final(self).limit(),
    {
        proof {
            lemma_taken_bound(self.slots@);
        }
        if self.occupancy as u64 * 20 >= self.slots.len() as u64 * 12 && 2 * self.slots.len()
            <= self.max_slots {
            self.grow();
        }
        let entry = Self::encode(key, p);
        let ghost before = self.slots@;
        let ghost after = slots_after(old(self).contents(), old(self).limit() as int, key, p);
        assert forall|k: u128, q: Probe| #[trigger] stores(before, k, q) == old(self).holds(
            k,
            q,
        ) by {
            assert(self.holds(k, q) == stores(before, k, q));
        }
        let mut i: usize = self.home(key);
        let mut d: usize = 0;
        while d < MAX_PROBE
            invariant
                self.wf(),
                self.slots@ == before,
                self.max_slots == old(self).max_slots,
                old(self).wf(),
                taken(before) == taken(old(self).slots@),
                d <= MAX_PROBE,
                i == probed(before, key, d as int),
                i < before.len(),
                0 <= hash::home_slot(key, before.len() as int) < before.len(),
                forall|k: u128, q: Probe| #[trigger]
                    stores(before, k, q) == old(self).holds(k, q),
                forall|x: int|
                    0 <= x < d ==> #[trigger] before[probed(before, key, x)] != 0 && slot_key(
                        before[probed(before, key, x)],
                    ) != key,
                after == match slot_for(before, key, d as int) {
                    Some(i) => before.update(i, entry),
                    None => before,
                },
                after == slots_after(old(self).contents(), old(self).limit() as int, key, p),
                entry != 0,
                slot_key(entry) == key,
                slot_probe(entry) == p,
            decreases MAX_PROBE - d,
        {
            let e = self.slots[i];
            if e == 0 || e / PAYLOADS == key {
                proof {
                    lemma_taken_update(before, i as int, entry);
                    lemma_taken_bound(before.update(i as int, entry));
                    Self::lemma_put(before, i as int, entry, key, p);
                    Self::lemma_reach(before, d as int, entry, key, 0);
                    lemma_chain(before, key, d as int, entry);
                }
                if e == 0 {
                    self.occupancy = self.occupancy + 1;
                }
                self.slots.set(i, entry);
                proof {
                    assert(self.slots@ == after);
                    old(self).lemma_kept(*self, key);
                }
                return;
            }
            i = self.next(i);
            d = d + 1;
        }
        proof {
            Self::lemma_crowded(before, key, 0);
            old(self).lemma_kept(*self, key);
        }
        // The probe chain is saturated: leave the position uncached.
    }

    /// What was found is still found, where it is still held.
    proof fn lemma_kept(&self, after: Tt, key: u128)
        requires
            self.wf(),
            after.wf(),
            forall|k: u128, q: Probe|
                k != key ==> #[trigger] after.holds(k, q) == self.holds(k, q),
        ensures
            forall|k: u128|
                k != key ==> ((#[trigger] found(self.contents(), k, 0)) matches Some(q)
                    ==> still_found(after.contents(), k, q)),
    {
        assert forall|k: u128| k != key && (#[trigger] found(self.contents(), k, 0)) is Some implies
        still_found(after.contents(), k, found(self.contents(), k, 0)->0) by {
            let q = found(self.contents(), k, 0)->0;
            lemma_home(k, self.contents().len() as int);
            lemma_found_stores(self.contents(), k, 0);
            assert(self.holds(k, q));
            assert(after.holds(k, q));
            after.lemma_findable(k, q);
        }
    }

    /// Filling a slot that is free or has the same key.
    proof fn lemma_put(slots: Seq<u128>, i: int, entry: u128, key: u128, p: Probe)
        requires
            0 <= i < slots.len(),
            slots[i] == 0 || slot_key(slots[i]) == key,
            entry != 0,
            slot_key(entry) == key,
            slot_probe(entry) == p,
        ensures
            forall|k: u128, q: Probe|
                k != key ==> #[trigger] stores(slots.update(i, entry), k, q) == stores(slots, k, q),
            forall|q: Probe| #[trigger]
                stores(slots.update(i, entry), key, q) ==> q == p || stores(slots, key, q),
            stores(slots.update(i, entry), key, p),
    {
        let u = slots.update(i, entry);
        assert forall|k: u128, q: Probe| k != key implies #[trigger] stores(u, k, q) == stores(
            slots,
            k,
            q,
        ) by {
            if stores(u, k, q) {
                let j = choose|j: int| #[trigger] stores_at(u, j, k, q);
                assert(stores_at(slots, j, k, q));
            }
            if stores(slots, k, q) {
                let j = choose|j: int| #[trigger] stores_at(slots, j, k, q);
                assert(stores_at(u, j, k, q));
            }
        }
        assert forall|q: Probe| #[trigger] stores(u, key, q) implies q == p || stores(
            slots,
            key,
            q,
        ) by {
            let j = choose|j: int| #[trigger] stores_at(u, j, key, q);
            if j != i {
                assert(stores_at(slots, j, key, q));
            }
        }
        assert(stores_at(u, i, key, p));
    }

    /// A search passes the slots of other keys and finds the entry put behind them.
    proof fn lemma_reach(slots: Seq<u128>, d: int, entry: u128, key: u128, x: int)
        requires
            MIN_SLOTS <= slots.len(),
            0 <= x <= d < MAX_PROBE,
            0 <= hash::home_slot(key, slots.len() as int) < slots.len(),
            entry != 0,
            slot_key(entry) == key,
            forall|x: int|
                0 <= x < d ==> #[trigger] slots[probed(slots, key, x)] != 0 && slot_key(
                    slots[probed(slots, key, x)],
                ) != key,
        ensures
            found(slots.update(probed(slots, key, d), entry), key, x) == Some(slot_probe(entry)),
        decreases d - x,
    {
        let u = slots.update(probed(slots, key, d), entry);
        assert(probed(u, key, x) == probed(slots, key, x));
        if x < d {
            assert(probed(slots, key, x) != probed(slots, key, d));
            Self::lemma_reach(slots, d, entry, key, x + 1);
        }
    }

    proof fn lemma_crowded(slots: Seq<u128>, key: u128, x: int)
        requires
            0 <= x <= MAX_PROBE,
            crowded(slots, key),
        ensures
            found(slots, key, x) is None,
        decreases MAX_PROBE - x,
    {
        if x < MAX_PROBE {
            assert(slots[probed(slots, key, x)] != 0);
            Self::lemma_crowded(slots, key, x + 1);
        }
    }

    /// Double the number of slots and give every entry a new one.
    fn grow(&mut self)
        requires
            old(self).wf(),
            2 * old(self).slots@.len() <= old(self).max_slots,
        ensures
            final(self).wf(),
            final(self).max_slots == old(self).max_slots,
            taken(final(self).slots@) == taken(old(self).slots@),
            final(self).contents() == doubled(
                old(self).contents(),
                old(self).contents().len() as int,
            ),
            final(self).contents().len() == 2 * old(self).contents().len(),
            forall|k: u128, q: Probe| #[trigger]
                final(self).holds(k, q) == old(self).holds(k, q),
    {
        let len: usize = self.slots.len();
        let new_len: usize = 2 * len;
        let mut slots: Vec<u128> = vec![0u128; new_len];
        let mut occupancy: usize = 0;
        let mut j: usize = 0;
        let ghost old_slots = self.slots@;
        proof {
            lemma_taken_bound(slots@);
            assert(old_slots.take(0) =~= Seq::<u128>::empty());
            assert(slots@ =~= doubled(old_slots, 0));
        }
        while j < len
            invariant
                j <= len,
                len == self.slots@.len(),
                old_slots == self.slots@,
                new_len == 2 * len,
                MIN_SLOTS <= len < MAX_SLOTS,
                new_len <= MAX_SLOTS,
                slots@.len() == new_len,
                slots@ == doubled(old_slots, j as int),
                lone(old_slots),
                lone(slots@),
                chained(slots@),
                occupancy == taken(slots@),
                occupancy <= j,
                occupancy == taken(old_slots.take(j as int)),
                forall|k: u128, q: Probe| #[trigger]
                    stores(slots@, k, q) == stores(old_slots.take(j as int), k, q),
            decreases len - j,
        {
            let e = self.slots[j];
            let ghost front = old_slots.take(j as int);
            let ghost next = old_slots.take(j + 1);
            let ghost before = slots@;
            assert(next.drop_last() =~= front);
            assert(next =~= front.push(e));
            if e != 0 {
                let key: u128 = e / PAYLOADS;
                let i = Self::free_slot(&slots, key);
                slots.set(i, e);
                proof {
                    assert forall|y: int| 0 <= y < before.len() && #[trigger] before[y]
                        != 0 implies slot_key(before[y]) != key by {
                        let q = slot_probe(before[y]);
                        let k = slot_key(before[y]);
                        assert(stores_at(before, y, k, q));
                        assert(stores(before, k, q));
                        let x = choose|x: int| #[trigger] stores_at(front, x, k, q);
                        assert(old_slots[x] == front[x]);
                        assert(old_slots[j as int] == e);
                    }
                    lemma_link(before, key, i as int, e);
                    lemma_taken_update(before, i as int, e);
                    Self::lemma_put(before, i as int, e, key, slot_probe(e));
                    assert forall|k: u128, q: Probe| #[trigger] stores(slots@, k, q) == stores(
                        next,
                        k,
                        q,
                    ) by {
                        Self::lemma_push(front, next, e, k, q);
                        if stores(before, k, q) {
                            let x = choose|x: int| #[trigger] stores_at(before, x, k, q);
                            assert(stores_at(slots@, x, k, q));
                        }
                    }
                }
                occupancy = occupancy + 1;
            } else {
                proof {
                    assert forall|k: u128, q: Probe| #[trigger] stores(slots@, k, q) == stores(
                        next,
                        k,
                        q,
                    ) by {
                        Self::lemma_push(front, next, e, k, q);
                    }
                }
            }
            j = j + 1;
        }
        assert(old_slots.take(len as int) =~= old_slots);
        self.slots = slots;
        self.occupancy = occupancy;
    }

    proof fn lemma_push(front: Seq<u128>, next: Seq<u128>, e: u128, k: u128, q: Probe)
        requires
            next == front.push(e),
        ensures
            stores(next, k, q) == (stores(front, k, q) || (e != 0 && slot_key(e) == k && slot_probe(
                e,
            ) == q)),
    {
        if stores(next, k, q) {
            let x = choose|x: int| #[trigger] stores_at(next, x, k, q);
            if x < front.len() {
                assert(stores_at(front, x, k, q));
            }
        }
        if stores(front, k, q) {
            let x = choose|x: int| #[trigger] stores_at(front, x, k, q);
            assert(stores_at(next, x, k, q));
        }
        if e != 0 && slot_key(e) == k && slot_probe(e) == q {
            assert(stores_at(next, front.len() as int, k, q));
        }
    }

    /// The first free slot from the home of `key` on.
    fn free_slot(slots: &Vec<u128>, key: u128) -> (i: usize)
        requires
            1 <= slots@.len() <= 2 * MAX_SLOTS,
            taken(slots@) < slots@.len(),
        ensures
            i < slots@.len(),
            slots@[i as int] == 0,
            linked(slots@, key, i as int),
            i == free_from(slots@, key, 0),
    {
        let len: usize = slots.len();
        let home: usize = (hash::mix(key) % len as u64) as usize;
        let mut i: usize = home;
        let ghost mut d: int = 0;
        while slots[i] != 0
            invariant
                len == slots@.len(),
                taken(slots@) < len,
                len <= 2 * MAX_SLOTS,
                home < len,
                home == hash::home_slot(key, len as int),
                0 <= d < len,
                i == hash::ring(home as int, d, len as int),
                i < len,
                free_from(slots@, key, 0) == free_from(slots@, key, d),
                forall|x: int|
                    0 <= x < d ==> #[trigger] slots@[hash::ring(home as int, x, len as int)] != 0,
            decreases len - d,
        {
            proof {
                if d + 1 == len {
                    assert forall|y: int| 0 <= y < len implies #[trigger] slots@[y] != 0 by {
                        let x = hash::distance(home as int, y, len as int);
                        assert(hash::ring(home as int, x, len as int) == y);
                        assert(x < d || y == i);
                    }
                    lemma_taken_bound(slots@);
                }
                d = d + 1;
            }
            i = if i + 1 == len {
                0
            } else {
                i + 1
            };
        }
        i
    }
}

// ---------------------------------------------------------------------------
// Laws of the table
// ---------------------------------------------------------------------------

/// A slot can be told apart: it gives back the key and what was said of it.
pub proof fn lemma_slot(key: u128, p: Probe)
    requires
        0 < key < KEY_LIMIT,
        p.best matches Some(m) ==> m < 15,
    ensures
        slot_of(key, p) != 0,
        slot_key(slot_of(key, p)) == key,
        slot_probe(slot_of(key, p)) == p,
{
    let v = if p.value < 0 {
        p.value + 0x1_0000
    } else {
        p.value as int
    };
    let f = match p.flag {
        Flag::Exact => 1int,
        Flag::Lower => 2,
        Flag::Upper => 3,
    };
    let m = match p.best {
        None => NO_MOVE as int,
        Some(m) => m as int,
    };
    lemma_fused(key as int, m, f, v);
}

proof fn lemma_probed(slots: Seq<u128>, key: u128, d: int)
    requires
        0 <= d <= slots.len(),
        slots.len() > 0,
    ensures
        0 <= probed(slots, key, d) < slots.len(),
{
    lemma_home(key, slots.len() as int);
}

proof fn lemma_free_from(slots: Seq<u128>, key: u128, d: int)
    requires
        0 <= d <= slots.len(),
        slots.len() > 0,
    ensures
        0 <= free_from(slots, key, d) < slots.len(),
    decreases slots.len() - d,
{
    lemma_probed(slots, key, d);
    if !(d >= slots.len() || slots[probed(slots, key, d)] == 0) {
        lemma_free_from(slots, key, d + 1);
    }
}

proof fn lemma_slot_for(slots: Seq<u128>, key: u128, d: int)
    requires
        0 <= d,
        slots.len() >= MAX_PROBE,
    ensures
        slot_for(slots, key, d) matches Some(i) ==> 0 <= i < slots.len(),
    decreases MAX_PROBE - d,
{
    if d < MAX_PROBE {
        lemma_probed(slots, key, d);
        lemma_slot_for(slots, key, d + 1);
    }
}

proof fn lemma_doubled_len(slots: Seq<u128>, j: int)
    requires
        slots.len() > 0,
    ensures
        doubled(slots, j).len() == 2 * slots.len(),
    decreases j,
{
    if j > 0 {
        lemma_doubled_len(slots, j - 1);
        lemma_free_from(doubled(slots, j - 1), slot_key(slots[j - 1]), 0);
    }
}

/// The table doubles when an entry is stored while three in five of its slots are taken, as
/// long as the limit allows it, and otherwise keeps its size.
pub proof fn lemma_growth(slots: Seq<u128>, limit: int, key: u128, p: Probe)
    requires
        slots.len() >= MIN_SLOTS,
    ensures
        5 * taken(slots) >= 3 * slots.len() && 2 * slots.len() <= limit ==> slots_after(
            slots,
            limit,
            key,
            p,
        ).len() == 2 * slots.len(),
        5 * taken(slots) < 3 * slots.len() || 2 * slots.len() > limit ==> slots_after(
            slots,
            limit,
            key,
            p,
        ).len() == slots.len(),
{
    let more = doubled(slots, slots.len() as int);
    lemma_doubled_len(slots, slots.len() as int);
    lemma_slot_for(more, key, 0);
    lemma_slot_for(slots, key, 0);
}

/// A search for a key goes from its home slot to the next, round the end, for at most 48
/// slots, and ends at the key or at a free slot.
pub proof fn lemma_probe(slots: Seq<u128>, key: u128, d: int)
    requires
        slots.len() >= MIN_SLOTS,
        0 <= d < 48,
    ensures
        ({
            let at = (hash::mixed(key) as int % slots.len() as int + d) % slots.len() as int;
            let e = slots[at];
            &&& e == 0 ==> found(slots, key, d) is None
            &&& e != 0 && e / 0x40_0000 == key ==> found(slots, key, d) == Some(slot_probe(e))
            &&& e != 0 && e / 0x40_0000 != key ==> found(slots, key, d) == found(slots, key, d + 1)
        }),
        found(slots, key, 48) is None,
{
    let n = slots.len() as int;
    let home = hash::mixed(key) as int % n;
    lemma_home(key, n);
    if home + d < n {
        vstd::arithmetic::div_mod::lemma_small_mod((home + d) as nat, n as nat);
    } else {
        vstd::arithmetic::div_mod::lemma_small_mod((home + d - n) as nat, n as nat);
        vstd::arithmetic::div_mod::lemma_mod_add_multiples_vanish(home + d - n, n);
    }
}

} // verus!
