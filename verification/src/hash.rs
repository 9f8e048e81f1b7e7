//! A hash table over `u128` keys, and the hash function that it and the
//! transposition table share.
//!
//! The keys are well-distributed packed bit-fields, so a multiply-xor mix is
//! enough; the table stores the full key, so a collision only costs a probe,
//! never correctness.

use vstd::prelude::*;

verus! {

/// The digest of a key.
pub open spec fn mixed(key: u128) -> u64 {
    let a = (key as u64) ^ ((key >> 64) as u64).wrapping_mul(0x9E37_79B9_7F4A_7C15);
    let b = a ^ (a >> 32);
    let c = b.wrapping_mul(0xFF51_AFD7_ED55_8CCD);
    c ^ (c >> 29)
}

/// Mix a key down to a `u64`.
pub fn mix(key: u128) -> (digest: u64)
    ensures
        digest == mixed(key),
        ({
            let a = (key as u64) ^ ((key >> 64) as u64).wrapping_mul(0x9E37_79B9_7F4A_7C15);
            let b = a ^ (a >> 32);
            let c = b.wrapping_mul(0xFF51_AFD7_ED55_8CCD);
            digest == c ^ (c >> 29)
        }),
{
    let a: u64 = (key as u64) ^ ((key >> 64) as u64).wrapping_mul(0x9E37_79B9_7F4A_7C15);
    let b: u64 = a ^ (a >> 32);
    let c: u64 = b.wrapping_mul(0xFF51_AFD7_ED55_8CCD);
    c ^ (c >> 29)
}

/// A hasher for `u128` keys. The state is the digest of the last key written.
#[derive(Default)]
pub struct U128Hasher(u64);

impl U128Hasher {
    /// The digest of the last key written, zero before the first.
    pub closed spec fn digest(&self) -> u64 {
        self.0
    }

    /// A hasher to which nothing was written.
    pub fn new() -> (h: U128Hasher)
        ensures
            h.digest() == 0,
    {
        U128Hasher(0)
    }

    /// The digest of the last key written.
    pub fn finish(&self) -> (digest: u64)
        ensures
            digest == self.digest(),
    {
        self.0
    }

    /// Keys are fed via [`U128Hasher::write_u128`]; bytes leave the state alone.
    pub fn write(&mut self, _bytes: &[u8])
        ensures
            final(self).digest() == old(self).digest(),
    {
    }

    /// Hash a key.
    pub fn write_u128(&mut self, i: u128)
        ensures
            final(self).digest() == mixed(i),
    {
        self.0 = mix(i);
    }
}

/// The slot at distance `d` from `home` on a ring of `len` slots.
pub open spec fn ring(home: int, d: int, len: int) -> int {
    if home + d < len {
        home + d
    } else {
        home + d - len
    }
}

/// The distance from `home` to slot `i` on a ring of `len` slots.
pub open spec fn distance(home: int, i: int, len: int) -> int {
    if i >= home {
        i - home
    } else {
        i - home + len
    }
}

/// The slot at which the search for a key starts.
pub open spec fn home_slot(key: u128, len: int) -> int {
    mixed(key) as int % len
}

/// The number of keys that a map can hold: so many that the index of a larger one would
/// not fit in the address space.
pub const MAX_ENTRIES: usize = usize::MAX / 8;

/// A map from `u128` keys to small values.
///
/// The entries lie in one dense array, in the order in which their keys were
/// first inserted; an open-addressing index of twice the size or more finds
/// them. An index slot is zero when it is free and otherwise one more than the
/// number of its entry.
pub struct U128Map<V> {
    entries: Vec<(u128, V)>,
    slots: Vec<usize>,
    /// The slot of each entry.
    place: Ghost<Seq<int>>,
}

impl<V: Copy> U128Map<V> {
    /// The entries, in order of first insertion.
    pub closed spec fn in_order(&self) -> Seq<(u128, V)> {
        self.entries@
    }

    /// The keys of the map.
    pub open spec fn has(&self, key: u128) -> bool {
        exists|j: int| 0 <= j < self.in_order().len() && (#[trigger] self.in_order()[j]).0 == key
    }

    /// The value of a key that the map has.
    pub open spec fn value_of(&self, key: u128) -> V {
        let j = choose|j: int|
            0 <= j < self.in_order().len() && (#[trigger] self.in_order()[j]).0 == key;
        self.in_order()[j].1
    }

    /// The index finds the entry of every key, and no key has two entries.
    pub closed spec fn wf(&self) -> bool {
        &&& indexes(self.slots@, self.place@, self.entries@)
        &&& distinct(self.entries@)
        &&& self.entries@.len() < self.slots@.len()
    }

    /// An empty map.
    pub fn new() -> (map: U128Map<V>)
        ensures
            map.wf(),
            map.in_order() == Seq::<(u128, V)>::empty(),
    {
        U128Map { entries: Vec::new(), slots: vec![0usize;16], place: Ghost(Seq::empty()) }
    }

    /// The number of keys.
    pub fn len(&self) -> (n: usize)
        ensures
            n == self.in_order().len(),
    {
        self.entries.len()
    }

    /// Whether the map has no key.
    pub fn is_empty(&self) -> (empty: bool)
        ensures
            empty == (self.in_order().len() == 0),
    {
        self.entries.len() == 0
    }

    /// Entry number `j` in order of first insertion.
    pub fn entry(&self, j: usize) -> (e: (u128, V))
        requires
            j < self.in_order().len(),
        ensures
            e == self.in_order()[j as int],
    {
        self.entries[j]
    }

    /// No key has two entries, and the entry of a key holds its value.
    pub proof fn lemma_entries(&self)
        requires
            self.wf(),
        ensures
            forall|a: int, b: int|
                0 <= a < b < self.in_order().len() ==> (#[trigger] self.in_order()[a]).0 != (
                #[trigger] self.in_order()[b]).0,
            forall|j: int|
                0 <= j < self.in_order().len() ==> self.has((#[trigger] self.in_order()[j]).0)
                    && self.value_of(self.in_order()[j].0) == self.in_order()[j].1,
    {
        assert forall|j: int| 0 <= j < self.in_order().len() implies self.has(
            (#[trigger] self.in_order()[j]).0,
        ) && self.value_of(self.in_order()[j].0) == self.in_order()[j].1 by {
            lemma_value_of(*self, j);
        }
    }

    /// Where the search for `key` ends: at the slot of its entry, or at the free
    /// slot that its entry would take.
    fn find(&self, key: u128) -> (i: usize)
        requires
            self.wf(),
        ensures
            i < self.slots@.len(),
            self.slots@[i as int] > 0 ==> self.entries@[self.slots@[i as int] - 1].0 == key,
            self.slots@[i as int] == 0 ==> !self.has(key) && reaches(self.slots@, key, i as int),
    {
        let len: usize = self.slots.len();
        let mut i: usize = (mix(key) % (len as u64)) as usize;
        let ghost home = i as int;
        let mut d: usize = 0;
        assert(home == home_slot(key, len as int));
        while d < len
            invariant
                self.wf(),
                len == self.slots@.len(),
                len > 0,
                home == home_slot(key, len as int),
                0 <= home < len,
                d <= len,
                i == ring(home, d as int, len as int) || (d == len && i == home),
                forall|c: int|
                    #![trigger ring(home, c, len as int)]
                    0 <= c < d ==> self.slots@[ring(home, c, len as int)] > 0 && self.entries@[
                    self.slots@[ring(home, c, len as int)] - 1].0 != key,
            decreases len - d,
        {
            assert(0 <= i < len);
            let e = self.slots[i];
            if e == 0 {
                proof {
                    assert forall|j: int| 0 <= j < self.in_order().len() implies (
                    #[trigger] self.in_order()[j]).0 != key by {
                        if self.entries@[j].0 == key {
                            let at = distance(home, self.place@[j], len as int);
                            assert(ring(home, at, len as int) == self.place@[j]);
                            if at < d {
                            } else if at > d {
                                assert(self.slots@[ring(home, d as int, len as int)] != 0);
                            }
                        }
                    }
                    assert forall|c: int|
                        0 <= c < distance(home, i as int, len as int) implies self.slots@[
                    #[trigger] ring(home, c, len as int)] != 0 by {}
                }
                return i;
            }
            if self.entries[e - 1].0 == key {
                return i;
            }
            i = i + 1;
            if i == len {
                i = 0;
            }
            d = d + 1;
        }
        proof {
            assert forall|i: int| 0 <= i < len implies #[trigger] self.slots@[i] > 0 by {
                assert(i == ring(home, distance(home, i, len as int), len as int));
            }
            lemma_free_slot(self.slots@, self.place@, self.entries@);
        }
        i
    }

    /// The value of `key`, if the map has it.
    pub fn get(&self, key: u128) -> (v: Option<V>)
        requires
            self.wf(),
        ensures
            match v {
                Some(v) => self.has(key) && self.value_of(key) == v,
                None => !self.has(key),
            },
    {
        let i = self.find(key);
        let e = self.slots[i];
        if e == 0 {
            None
        } else {
            proof {
                assert(self.in_order()[e - 1].0 == key);
                lemma_value_of(*self, e - 1);
            }
            Some(self.entries[e - 1].1)
        }
    }

    /// Give `key` the value `v`. A new key goes last; a known one keeps its
    /// place.
    pub fn insert(&mut self, key: u128, v: V)
        requires
            old(self).wf(),
            old(self).in_order().len() < MAX_ENTRIES,
        ensures
            final(self).wf(),
            final(self).has(key),
            final(self).value_of(key) == v,
            forall|k: u128| k != key ==> #[trigger] final(self).has(k) == old(self).has(k),
            forall|k: u128|
                k != key && old(self).has(k) ==> #[trigger] final(self).value_of(k) == old(
                    self,
                ).value_of(k),
            !old(self).has(key) ==> final(self).in_order() == old(self).in_order().push((key, v)),
            old(self).has(key) ==> exists|j: int|
                0 <= j < old(self).in_order().len() && old(self).in_order()[j].0 == key
                    && #[trigger] old(self).in_order().update(j, (key, v)) == final(self).in_order(),
    {
        if self.entries.len() + 1 >= self.slots.len() / 2 {
            self.grow();
        }
        let ghost before = *self;
        let i = self.find(key);
        let e = self.slots[i];
        if e == 0 {
            let ghost slots0 = self.slots@;
            let ghost place0 = self.place@;
            let ghost entries0 = self.entries@;
            self.entries.push((key, v));
            let n: usize = self.entries.len();
            self.slots[i] = n;
            self.place = Ghost(place0.push(i as int));
            proof {
                lemma_index_push(slots0, place0, entries0, key, v, i as int);
                assert(self.entries@ =~= entries0.push((key, v)));
                assert forall|j: int| 0 <= j < entries0.len() implies (#[trigger] entries0[j]).0
                    != key by {
                    assert(before.in_order()[j].0 != key);
                }
                assert(self.in_order()[n - 1] == (key, v));
                lemma_value_of(*self, n - 1);
                assert forall|k: u128| k != key implies #[trigger] self.has(k) == before.has(
                    k,
                ) by {
                    if before.has(k) {
                        let j = choose|j: int|
                            0 <= j < before.in_order().len() && (#[trigger] before.in_order()[j]).0
                                == k;
                        assert(self.in_order()[j].0 == k);
                    }
                    if self.has(k) {
                        let j = choose|j: int|
                            0 <= j < self.in_order().len() && (#[trigger] self.in_order()[j]).0
                                == k;
                        assert(before.in_order()[j].0 == k);
                    }
                }
                assert forall|k: u128| k != key && before.has(k) implies #[trigger] self.value_of(k)
                    == before.value_of(k) by {
                    let j = choose|j: int|
                        0 <= j < before.in_order().len() && (#[trigger] before.in_order()[j]).0
                            == k;
                    assert(self.in_order()[j] == before.in_order()[j]);
                    lemma_value_of(*self, j);
                    lemma_value_of(before, j);
                }
            }
        } else {
            let ghost entries0 = self.entries@;
            self.entries[e - 1] = (key, v);
            proof {
                let at = e - 1;
                assert(self.entries@ =~= entries0.update(at, (key, v)));
                assert(before.in_order()[at].0 == key);
                assert(before.in_order().update(at, (key, v)) == self.in_order());
                assert forall|j: int| 0 <= j < entries0.len() implies (#[trigger] self.entries@[j]).0
                    == entries0[j].0 by {}
                lemma_same_keys(self.slots@, self.place@, entries0, self.entries@);
                assert(self.in_order()[at].0 == key);
                lemma_value_of(*self, at);
                assert forall|k: u128| k != key implies #[trigger] self.has(k) == before.has(
                    k,
                ) by {
                    if before.has(k) {
                        let j = choose|j: int|
                            0 <= j < before.in_order().len() && (#[trigger] before.in_order()[j]).0
                                == k;
                        assert(self.in_order()[j].0 == k);
                    }
                    if self.has(k) {
                        let j = choose|j: int|
                            0 <= j < self.in_order().len() && (#[trigger] self.in_order()[j]).0
                                == k;
                        assert(before.in_order()[j].0 == k);
                    }
                }
                assert forall|k: u128| k != key && before.has(k) implies #[trigger] self.value_of(k)
                    == before.value_of(k) by {
                    let j = choose|j: int|
                        0 <= j < before.in_order().len() && (#[trigger] before.in_order()[j]).0
                            == k;
                    assert(self.in_order()[j] == before.in_order()[j]);
                    lemma_value_of(*self, j);
                    lemma_value_of(before, j);
                }
            }
        }
    }

    /// Double the index.
    fn grow(&mut self)
        requires
            old(self).wf(),
            old(self).in_order().len() < MAX_ENTRIES,
        ensures
            final(self).wf(),
            final(self).in_order() == old(self).in_order(),
            final(self).slots@.len() > 2 * old(self).in_order().len() + 2,
    {
        let n: usize = self.entries.len();
        let len: usize = 4 * n + 16;
        let mut slots: Vec<usize> = vec![0usize; len];
        let ghost mut place: Seq<int> = Seq::empty();
        let mut j: usize = 0;
        while j < n
            invariant
                self.wf(),
                *self == *old(self),
                n == self.entries@.len(),
                j <= n,
                len == slots@.len(),
                len == 4 * n + 16,
                indexes(slots@, place, self.entries@.take(j as int)),
            decreases n - j,
        {
            let (key, v) = self.entries[j];
            let ghost part = self.entries@.take(j as int);
            let i = free_slot::<V>(&slots, key, Ghost(place), Ghost(part));
            let ghost slots0 = slots@;
            slots[i] = j + 1;
            proof {
                lemma_index_push(slots0, place, part, key, v, i as int);
                place = place.push(i as int);
                assert(self.entries@.take(j + 1) =~= part.push((key, v)));
            }
            j = j + 1;
        }
        assert(self.entries@.take(n as int) =~= self.entries@);
        self.slots = slots;
        self.place = Ghost(place);
    }
}

/// No two entries share a key.
spec fn distinct<V>(entries: Seq<(u128, V)>) -> bool {
    forall|a: int, b: int|
        0 <= a < b < entries.len() ==> (#[trigger] entries[a]).0 != (#[trigger] entries[b]).0
}

/// No slot between the home of `key` and slot `i` is free.
spec fn reaches(slots: Seq<usize>, key: u128, i: int) -> bool {
    let home = home_slot(key, slots.len() as int);
    forall|d: int|
        0 <= d < distance(home, i, slots.len() as int) ==> slots[#[trigger] ring(
            home,
            d,
            slots.len() as int,
        )] != 0
}

/// The slots that are taken are those of the entries, one each, and every entry
/// can be reached from the home of its key.
spec fn indexes<V>(slots: Seq<usize>, place: Seq<int>, entries: Seq<(u128, V)>) -> bool {
    &&& slots.len() > 0
    &&& place.len() == entries.len()
    &&& forall|i: int|
        0 <= i < slots.len() && #[trigger] slots[i] > 0 ==> slots[i] <= entries.len()
            && place[slots[i] - 1] == i
    &&& forall|j: int|
        0 <= j < entries.len() ==> 0 <= #[trigger] place[j] < slots.len() && slots[place[j]] == j
            + 1 && reaches(slots, entries[j].0, place[j])
}

/// An index that is larger than the number of entries has a free slot.
proof fn lemma_free_slot<V>(slots: Seq<usize>, place: Seq<int>, entries: Seq<(u128, V)>)
    requires
        indexes(slots, place, entries),
        entries.len() < slots.len(),
    ensures
        exists|i: int| 0 <= i < slots.len() && #[trigger] slots[i] == 0,
{
    if forall|i: int| 0 <= i < slots.len() ==> #[trigger] slots[i] > 0 {
        let owners = slots.map_values(|e: usize| e as int - 1);
        assert(owners.no_duplicates()) by {
            assert forall|a: int, b: int|
                0 <= a < owners.len() && 0 <= b < owners.len() && a != b implies owners[a]
                != owners[b] by {
                assert(slots[a] > 0 && slots[b] > 0);
                assert(place[slots[a] - 1] == a);
                assert(place[slots[b] - 1] == b);
            }
        }
        owners.unique_seq_to_set();
        let range = vstd::set_lib::set_int_range(0, entries.len() as int);
        vstd::set_lib::lemma_int_range(0, entries.len() as int);
        assert(owners.to_set().subset_of(range)) by {
            assert forall|x: int| owners.to_set().contains(x) implies range.contains(x) by {
                let a = choose|a: int| 0 <= a < owners.len() && owners[a] == x;
                assert(slots[a] > 0);
            }
        }
        vstd::set_lib::lemma_len_subset(owners.to_set(), range);
    }
}

/// A new entry may take the free slot that the search for its key ends at.
proof fn lemma_index_push<V>(
    slots: Seq<usize>,
    place: Seq<int>,
    entries: Seq<(u128, V)>,
    key: u128,
    v: V,
    i: int,
)
    requires
        indexes(slots, place, entries),
        0 <= i < slots.len(),
        slots[i] == 0,
        reaches(slots, key, i),
        entries.len() < usize::MAX,
    ensures
        indexes(
            slots.update(i, (entries.len() + 1) as usize),
            place.push(i),
            entries.push((key, v)),
        ),
{
    let n = entries.len();
    let s = slots.update(i, (n + 1) as usize);
    let p = place.push(i);
    let e = entries.push((key, v));
    assert forall|q: int| 0 <= q < s.len() && #[trigger] s[q] > 0 implies s[q] <= e.len() && p[s[q]
        - 1] == q by {
        if q != i {
            assert(slots[q] > 0);
        }
    }
    assert forall|j: int| 0 <= j < e.len() implies 0 <= #[trigger] p[j] < s.len() && s[p[j]] == j
        + 1 && reaches(s, e[j].0, p[j]) by {
        let k = e[j].0;
        let home = home_slot(k, s.len() as int);
        if j < n {
            assert(place[j] == p[j]);
            assert(entries[j] == e[j]);
            assert(reaches(slots, k, place[j]));
            assert(p[j] != i);
        }
        assert forall|d: int| 0 <= d < distance(home, p[j], s.len() as int) implies s[
        #[trigger] ring(home, d, s.len() as int)] != 0 by {
            assert(slots[ring(home, d, slots.len() as int)] != 0);
        }
    }
}

/// The index does not depend on the values.
proof fn lemma_same_keys<V>(
    slots: Seq<usize>,
    place: Seq<int>,
    a: Seq<(u128, V)>,
    b: Seq<(u128, V)>,
)
    requires
        indexes(slots, place, a),
        distinct(a),
        a.len() == b.len(),
        forall|j: int| 0 <= j < a.len() ==> (#[trigger] b[j]).0 == a[j].0,
    ensures
        indexes(slots, place, b),
        distinct(b),
{
    assert forall|j: int| 0 <= j < b.len() implies 0 <= #[trigger] place[j] < slots.len()
        && slots[place[j]] == j + 1 && reaches(slots, b[j].0, place[j]) by {
        assert(b[j].0 == a[j].0);
    }
    assert forall|x: int, y: int| 0 <= x < y < b.len() implies (#[trigger] b[x]).0 != (
    #[trigger] b[y]).0 by {
        assert(a[x].0 != a[y].0);
    }
}

/// The value of a key is that of its one entry.
proof fn lemma_value_of<V: Copy>(map: U128Map<V>, j: int)
    requires
        map.wf(),
        0 <= j < map.in_order().len(),
    ensures
        map.has(map.in_order()[j].0),
        map.value_of(map.in_order()[j].0) == map.in_order()[j].1,
{
    let key = map.in_order()[j].0;
    let i = choose|i: int|
        0 <= i < map.in_order().len() && (#[trigger] map.in_order()[i]).0 == key;
    if i < j {
        assert(map.entries@[i].0 != map.entries@[j].0);
    } else if j < i {
        assert(map.entries@[j].0 != map.entries@[i].0);
    }
}

/// The first free slot at or after the home of `key`.
fn free_slot<V>(
    slots: &Vec<usize>,
    key: u128,
    Ghost(place): Ghost<Seq<int>>,
    Ghost(entries): Ghost<Seq<(u128, V)>>,
) -> (i: usize)
    requires
        indexes(slots@, place, entries),
        entries.len() < slots@.len(),
    ensures
        i < slots@.len(),
        slots@[i as int] == 0,
        reaches(slots@, key, i as int),
{
    let len: usize = slots.len();
    let mut i: usize = (mix(key) % (len as u64)) as usize;
    let ghost home = i as int;
    let mut d: usize = 0;
    while d < len && slots[i] != 0
        invariant
            len == slots@.len(),
            len > 0,
            home == home_slot(key, len as int),
            0 <= home < len,
            d <= len,
            i < len,
            i == ring(home, d as int, len as int) || (d == len && i == home),
            forall|c: int|
                0 <= c < d ==> slots@[#[trigger] ring(home, c, len as int)] != 0,
        decreases len - d,
    {
        i = i + 1;
        if i == len {
            i = 0;
        }
        d = d + 1;
    }
    proof {
        if d == len {
            lemma_free_slot(slots@, place, entries);
            let free = choose|free: int| 0 <= free < slots@.len() && #[trigger] slots@[free] == 0;
            assert(free == ring(home, distance(home, free, len as int), len as int));
        }
        assert forall|c: int| 0 <= c < distance(home, i as int, len as int) implies slots@[
        #[trigger] ring(home, c, len as int)] != 0 by {}
    }
    i
}

} // verus!
