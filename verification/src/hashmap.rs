//! A hash map with open addressing: linear probing over three parallel arrays, and
//! tombstones for what was removed.

use crate::hasher::{mix, HashKey, QuickHasher};
use core::hash::Hasher;
use vstd::prelude::*;

verus! {

/// The hash stored in a slot that was never used.
pub const EMPTY: u64 = 0;

/// The hash stored in a slot whose entry was removed.
pub const TOMBSTONE: u64 = 1;

/// The smallest number of slots a table has.
pub const DEFAULT_CAPACITY: usize = 8;

/// The hash under which the key with view `id` is stored: what the hasher makes of the
/// key's bytes, moved up by 2 where it would be one of the two marks.
pub open spec fn spec_hash_key<K: HashKey>(id: K::V) -> u64 {
    let raw = mix(0, K::key_bytes(id));
    if raw <= TOMBSTONE {
        (raw + 2) as u64
    } else {
        raw
    }
}

/// Whether `n` is a power of two.
pub open spec fn is_power_of_two(n: usize) -> bool {
    n > 0 && n & ((n - 1) as usize) == 0
}

/// Whether `capacity` is the number of slots of a table made for `wanted` entries: the
/// smallest power of two that is at least 8 and at least `wanted`.
pub open spec fn is_table_capacity(capacity: usize, wanted: usize) -> bool {
    &&& is_power_of_two(capacity)
    &&& capacity >= DEFAULT_CAPACITY
    &&& capacity >= wanted
    &&& (capacity == DEFAULT_CAPACITY || capacity < 2 * wanted)
}

/// The slot where the probe for `hash` starts.
spec fn home_of(hash: u64, mask: usize) -> int {
    ((hash as usize) & mask) as int
}

/// The slot that a probe from `home` reaches after `d` steps.
spec fn probe(home: int, d: int, capacity: int) -> int {
    if home + d < capacity {
        home + d
    } else {
        home + d - capacity
    }
}

/// The number of steps from `home` to `slot`.
spec fn distance(home: int, slot: int, capacity: int) -> int {
    if slot >= home {
        slot - home
    } else {
        slot + capacity - home
    }
}

/// Whether the slot that lies `d` steps down the probe of the entry in slot `i` is in use
/// or was in use: a search for that entry does not stop there.
spec fn path_is_used(hashes: Seq<u64>, mask: usize, i: int, d: int) -> bool {
    hashes[probe(home_of(hashes[i], mask), d, hashes.len() as int)] != EMPTY
}

/// How many of the hashes mark an entry.
spec fn count_occupied(hashes: Seq<u64>) -> nat
    decreases hashes.len(),
{
    if hashes.len() == 0 {
        0
    } else {
        count_occupied(hashes.drop_last()) + if hashes.last() > TOMBSTONE {
            1nat
        } else {
            0nat
        }
    }
}

/// How many of the hashes are tombstones.
spec fn count_tombstones(hashes: Seq<u64>) -> nat
    decreases hashes.len(),
{
    if hashes.len() == 0 {
        0
    } else {
        count_tombstones(hashes.drop_last()) + if hashes.last() == TOMBSTONE {
            1nat
        } else {
            0nat
        }
    }
}

/// Entries and tombstones are no more than the slots, and as many where no slot is
/// empty; and no slot is occupied exactly where the count of entries is 0.
proof fn lemma_counts_bounded(hashes: Seq<u64>)
    ensures
        count_occupied(hashes) + count_tombstones(hashes) <= hashes.len(),
        (forall|i: int| 0 <= i < hashes.len() ==> hashes[i] != EMPTY) ==> count_occupied(hashes)
            + count_tombstones(hashes) == hashes.len(),
        (forall|i: int| 0 <= i < hashes.len() ==> hashes[i] <= TOMBSTONE) ==> count_occupied(
            hashes,
        ) == 0,
        (forall|i: int| 0 <= i < hashes.len() ==> hashes[i] == EMPTY) ==> count_tombstones(hashes)
            == 0,
        count_occupied(hashes) == 0 ==> (forall|i: int|
            0 <= i < hashes.len() ==> hashes[i] <= TOMBSTONE),
    decreases hashes.len(),
{
    if hashes.len() > 0 {
        lemma_counts_bounded(hashes.drop_last());
        assert forall|i: int| 0 <= i < hashes.len() - 1 implies hashes.drop_last()[i]
            == hashes[i] by {}
        if count_occupied(hashes) == 0 {
            assert forall|i: int| 0 <= i < hashes.len() implies hashes[i] <= TOMBSTONE by {
                if i < hashes.len() - 1 {
                    assert(hashes.drop_last()[i] == hashes[i]);
                }
            }
        }
    }
}

/// Writing one hash changes each count by what the slot held and holds.
proof fn lemma_counts_update(hashes: Seq<u64>, i: int, hash: u64)
    requires
        0 <= i < hashes.len(),
    ensures
        count_occupied(hashes.update(i, hash)) + (if hashes[i] > TOMBSTONE {
            1nat
        } else {
            0nat
        }) == count_occupied(hashes) + (if hash > TOMBSTONE {
            1nat
        } else {
            0nat
        }),
        count_tombstones(hashes.update(i, hash)) + (if hashes[i] == TOMBSTONE {
            1nat
        } else {
            0nat
        }) == count_tombstones(hashes) + (if hash == TOMBSTONE {
            1nat
        } else {
            0nat
        }),
    decreases hashes.len(),
{
    let updated = hashes.update(i, hash);
    if i == hashes.len() - 1 {
        assert(updated.drop_last() =~= hashes.drop_last());
    } else {
        lemma_counts_update(hashes.drop_last(), i, hash);
        assert(updated.drop_last() =~= hashes.drop_last().update(i, hash));
    }
}

/// The entries among the first `i` slots are no more than all, and one more with slot
/// `i` if it is occupied.
proof fn lemma_counts_prefix(hashes: Seq<u64>, i: int)
    requires
        0 <= i <= hashes.len(),
    ensures
        count_occupied(hashes.take(i)) <= count_occupied(hashes),
        i < hashes.len() ==> count_occupied(hashes.take(i + 1)) == count_occupied(hashes.take(i))
            + (if hashes[i] > TOMBSTONE {
            1nat
        } else {
            0nat
        }),
    decreases hashes.len() - i,
{
    if i < hashes.len() {
        assert(hashes.take(i + 1).drop_last() =~= hashes.take(i));
        lemma_counts_prefix(hashes, i + 1);
    } else {
        assert(hashes.take(i) =~= hashes);
    }
}

/// The count of entries, taken from the first slot on.
proof fn lemma_counts_first(hashes: Seq<u64>)
    requires
        hashes.len() > 0,
    ensures
        count_occupied(hashes) == count_occupied(hashes.drop_first()) + (if hashes[0] > TOMBSTONE {
            1nat
        } else {
            0nat
        }),
    decreases hashes.len(),
{
    if hashes.len() == 1 {
        assert(hashes.drop_last() =~= hashes.drop_first());
    } else {
        lemma_counts_first(hashes.drop_last());
        assert(hashes.drop_last().drop_first() =~= hashes.drop_first().drop_last());
    }
}

/// A power of two from 8 up is a multiple of 4.
proof fn lemma_capacity_in_quarters(capacity: usize)
    by (bit_vector)
    requires
        capacity >= 8,
        capacity & ((capacity - 1) as usize) == 0,
    ensures
        capacity % 4 == 0,
{
}

/// Under the mask of a power of two, the step after the last slot is slot 0.
proof fn lemma_mask_wraps(i: usize, capacity: usize)
    by (bit_vector)
    requires
        capacity > 0,
        capacity & ((capacity - 1) as usize) == 0,
        i < capacity,
    ensures
        ((i + 1) as usize) & ((capacity - 1) as usize) == (if i + 1 == capacity {
            0
        } else {
            (i + 1) as usize
        }),
{
}

/// What the mask leaves is a slot of the table.
proof fn lemma_mask_bounds(x: usize, capacity: usize)
    by (bit_vector)
    requires
        capacity > 0,
    ensures
        x & ((capacity - 1) as usize) < capacity,
{
}

/// Twice a power of two is one, where it fits.
proof fn lemma_double_power_of_two(p: usize)
    by (bit_vector)
    requires
        p > 0,
        p & ((p - 1) as usize) == 0,
        ((2 * p) as usize) > p,
    ensures
        ((2 * p) as usize) & ((2 * p - 1) as usize) == 0,
{
}

/// A map from keys to values, kept in a table of slots that is probed linearly.
///
/// A slot's hash says what the slot holds: `EMPTY`, `TOMBSTONE`, or the hash of the key
/// of the entry that is stored there. The view is the map from the views of the stored
/// keys to their values.
pub struct HashMap<K, V> {
    keys: Vec<Option<K>>,
    values: Vec<Option<V>>,
    hashes: Vec<u64>,
    mask: usize,
    elements: usize,
    tombstone_count: usize,
}

impl<K: HashKey, V> View for HashMap<K, V> {
    type V = Map<K::V, V>;

    closed spec fn view(&self) -> Map<K::V, V> {
        Map::new(
            |id: K::V| exists|i: int| self.holds_at(i, id),
            |id: K::V| self.values@[choose|i: int| self.holds_at(i, id)]->0,
        )
    }
}

impl<K: HashKey, V> HashMap<K, V> {
    /// Whether slot `i` holds the entry of the key with view `id`.
    spec fn holds_at(&self, i: int, id: K::V) -> bool {
        &&& 0 <= i < self.hashes@.len()
        &&& self.hashes@[i] > TOMBSTONE
        &&& self.keys@[i] is Some
        &&& self.keys@[i]->0@ == id
    }

    /// The number of slots.
    pub closed spec fn spec_capacity(&self) -> nat {
        self.hashes@.len()
    }

    /// The number of tombstones.
    pub closed spec fn spec_tombstones(&self) -> nat {
        self.tombstone_count as nat
    }

    /// Whether entries and tombstones together fill three quarters of the slots, so that
    /// the next insertion rebuilds the table first.
    pub open spec fn is_loaded(&self) -> bool {
        self@.len() + self.spec_tombstones() >= 3 * self.spec_capacity() / 4
    }

    /// The three arrays are as long as the table, which is a power of two of slots, and
    /// a slot has a key and a value exactly where its hash marks an entry.
    spec fn slots_agree(&self) -> bool {
        let capacity = self.hashes@.len();
        &&& self.keys@.len() == capacity
        &&& self.values@.len() == capacity
        &&& capacity >= DEFAULT_CAPACITY
        &&& capacity <= usize::MAX
        &&& is_power_of_two(capacity as usize)
        &&& self.mask == capacity - 1
        &&& forall|i: int|
            0 <= i < capacity ==> ((#[trigger] self.keys@[i]) is Some <==> self.hashes@[i]
                > TOMBSTONE)
        &&& forall|i: int|
            0 <= i < capacity ==> ((#[trigger] self.values@[i]) is Some <==> self.hashes@[i]
                > TOMBSTONE)
    }

    /// Every entry is stored under the hash of its key, no key is stored twice, and no
    /// empty slot lies on the probe of an entry before its slot.
    spec fn keys_in_place(&self) -> bool {
        let capacity = self.hashes@.len() as int;
        &&& forall|i: int|
            0 <= i < capacity && self.hashes@[i] > TOMBSTONE ==> #[trigger] self.hashes@[i]
                == spec_hash_key::<K>(self.keys@[i]->0@)
        &&& forall|i: int, j: int|
            0 <= i < capacity && 0 <= j < capacity && i != j && #[trigger] self.hashes@[i]
                > TOMBSTONE && #[trigger] self.hashes@[j] > TOMBSTONE ==> self.keys@[i]->0@
                != self.keys@[j]->0@
        &&& forall|i: int, d: int|
            0 <= i < capacity && self.hashes@[i] > TOMBSTONE && 0 <= d < distance(
                home_of(self.hashes@[i], self.mask),
                i,
                capacity,
            ) ==> #[trigger] path_is_used(self.hashes@, self.mask, i, d)
    }

    /// The two counters count the entries and the tombstones, and the view has as many
    /// keys as there are entries.
    spec fn counts_agree(&self) -> bool {
        &&& self.elements == count_occupied(self.hashes@)
        &&& self.tombstone_count == count_tombstones(self.hashes@)
        &&& self@.dom().finite()
        &&& self@.len() == self.elements
    }

    /// Whether the table is sound: every function of the map expects a sound map and
    /// leaves one.
    pub closed spec fn wf(&self) -> bool {
        &&& self.slots_agree()
        &&& self.keys_in_place()
        &&& self.counts_agree()
        &&& 4 * (self.elements + self.tombstone_count) <= 3 * self.hashes@.len()
    }

    /// The number of entries.
    pub fn len(&self) -> (n: usize)
        requires
            self.wf(),
        ensures
            n == self@.len(),
    {
        self.elements
    }

    /// The number of slots.
    pub fn capacity(&self) -> (n: usize)
        ensures
            n == self.spec_capacity(),
    {
        self.hashes.len()
    }

    /// Whether the map holds no entry.
    pub fn is_empty(&self) -> (b: bool)
        requires
            self.wf(),
        ensures
            b == (self@.len() == 0),
    {
        self.elements == 0
    }

    /// An empty map with the smallest table.
    pub fn new() -> (m: Self)
        ensures
            m.wf(),
            m@ == Map::<K::V, V>::empty(),
            m.spec_capacity() == DEFAULT_CAPACITY,
            m.spec_tombstones() == 0,
    {
        let m = Self::with_capacity(DEFAULT_CAPACITY);
        assert(m.spec_capacity() == 8) by {
            let c = m.spec_capacity() as usize;
            assert(c == 8) by (bit_vector)
                requires
                    c >= 8,
                    c == 8 || c < 16,
                    c > 0 && c & ((c - 1) as usize) == 0,
            ;
        }
        m
    }

    /// An empty map whose table has the smallest power of two of slots that is at least
    /// 8 and at least `capacity`.
    pub fn with_capacity(capacity: usize) -> (m: Self)
        requires
            capacity <= usize::MAX / 2 + 1,
        ensures
            m.wf(),
            m@ == Map::<K::V, V>::empty(),
            is_table_capacity(m.spec_capacity() as usize, capacity),
            m.spec_capacity() <= usize::MAX,
            m.spec_tombstones() == 0,
    {
        let mut slots: usize = DEFAULT_CAPACITY;
        assert(is_power_of_two(8)) by (bit_vector);
        while slots < capacity
            invariant
                is_power_of_two(slots),
                slots >= DEFAULT_CAPACITY,
                slots == DEFAULT_CAPACITY || slots < 2 * capacity,
                capacity <= usize::MAX / 2 + 1,
            decreases usize::MAX - slots,
        {
            proof {
                assert(2 * slots <= usize::MAX);
                lemma_double_power_of_two(slots);
            }
            slots = slots * 2;
        }
        Self::with_slots(slots)
    }

    /// An empty map whose table has `slots` slots.
    fn with_slots(slots: usize) -> (m: Self)
        requires
            is_power_of_two(slots),
            slots >= DEFAULT_CAPACITY,
        ensures
            m.wf(),
            m@ == Map::<K::V, V>::empty(),
            m.spec_capacity() == slots,
            m.spec_tombstones() == 0,
    {
        let mut keys: Vec<Option<K>> = Vec::with_capacity(slots);
        let mut values: Vec<Option<V>> = Vec::with_capacity(slots);
        let mut hashes: Vec<u64> = Vec::with_capacity(slots);
        let mut i: usize = 0;
        while i < slots
            invariant
                i <= slots,
                keys@.len() == i,
                values@.len() == i,
                hashes@.len() == i,
                forall|j: int| 0 <= j < i ==> (#[trigger] keys@[j]) is None,
                forall|j: int| 0 <= j < i ==> (#[trigger] values@[j]) is None,
                forall|j: int| 0 <= j < i ==> #[trigger] hashes@[j] == EMPTY,
            decreases slots - i,
        {
            keys.push(None);
            values.push(None);
            hashes.push(EMPTY);
            i = i + 1;
        }
        let m = HashMap { keys, values, hashes, mask: slots - 1, elements: 0, tombstone_count: 0 };
        proof {
            lemma_counts_bounded(m.hashes@);
            assert(m@ =~= Map::<K::V, V>::empty());
        }
        m
    }

    /// The hash under which `key` is stored.
    pub fn hash_key(&self, key: &K) -> (hash: u64)
        ensures
            hash == spec_hash_key::<K>(key@),
            hash > TOMBSTONE,
    {
        let mut hasher = QuickHasher::new();
        key.feed(&mut hasher);
        let hash = hasher.finish();
        if hash <= TOMBSTONE {
            hash + 2
        } else {
            hash
        }
    }

    /// Whether `j` is the first slot on the probe from `home` that holds no entry.
    spec fn is_first_free(&self, home: int, j: int) -> bool {
        &&& 0 <= j < self.hashes@.len()
        &&& self.hashes@[j] <= TOMBSTONE
        &&& forall|d: int|
            0 <= d < distance(home, j, self.hashes@.len() as int) ==> #[trigger] self.hashes@[probe(
                home,
                d,
                self.hashes@.len() as int,
            )] > TOMBSTONE
    }

    /// Whether the first slot without an entry on the probe of the key with view `id` is a
    /// tombstone: an entry for that key, if the map has none, takes its place.
    pub closed spec fn meets_tombstone(&self, id: K::V) -> bool {
        exists|j: int|
            self.is_first_free(home_of(spec_hash_key::<K>(id), self.mask), j)
                && #[trigger] self.hashes@[j] == TOMBSTONE
    }

    /// A probe has one first free slot.
    proof fn lemma_first_free_is_one(&self, home: int, j: int, k: int)
        requires
            0 <= home < self.hashes@.len(),
            self.is_first_free(home, j),
            self.is_first_free(home, k),
        ensures
            j == k,
    {
        let cap = self.hashes@.len() as int;
        let dj = distance(home, j, cap);
        let dk = distance(home, k, cap);
        assert(probe(home, dj, cap) == j);
        assert(probe(home, dk, cap) == k);
        if dj < dk {
            assert(self.hashes@[probe(home, dj, cap)] > TOMBSTONE);
        }
        if dk < dj {
            assert(self.hashes@[probe(home, dk, cap)] > TOMBSTONE);
        }
    }

    /// The slot of `key`, whose hash is `hash`: the slot that holds its entry, or, if the
    /// map has none, the first slot on its probe that is free, a tombstone before an
    /// empty slot.
    fn find_slot(&self, hash: u64, key: &K) -> (r: Option<usize>)
        requires
            self.wf(),
            hash == spec_hash_key::<K>(key@),
        ensures
            r is Some,
            r->0 < self.spec_capacity(),
            self@.contains_key(key@) ==> self.holds_at(r->0 as int, key@),
            !self@.contains_key(key@) ==> self.is_first_free(home_of(hash, self.mask), r->0 as int),
    {
        let capacity: usize = self.hashes.len();
        let ghost cap = capacity as int;
        proof {
            lemma_mask_bounds(#[verifier::truncate] (hash as usize), capacity);
        }
        let mut i: usize = (#[verifier::truncate] (hash as usize)) & self.mask;
        let start_i: usize = i;
        let ghost home = start_i as int;
        let mut first_tombstone: Option<usize> = None;
        let ghost mut tombstone_at: int = 0;
        let mut visited: usize = 0;
        while visited < capacity
            invariant
                self.wf(),
                hash == spec_hash_key::<K>(key@),
                hash > TOMBSTONE,
                capacity == self.hashes@.len(),
                cap == capacity,
                home == home_of(hash, self.mask),
                home == start_i,
                0 <= home < cap,
                visited <= capacity,
                i < capacity,
                visited < capacity ==> i == probe(home, visited as int, cap),
                forall|d: int| 0 <= d < visited ==> #[trigger] self.hashes@[probe(home, d, cap)] != EMPTY,
                forall|d: int| 0 <= d < visited ==> !self.holds_at(#[trigger] probe(home, d, cap), key@),
                first_tombstone is None ==> forall|d: int|
                    0 <= d < visited ==> #[trigger] self.hashes@[probe(home, d, cap)] > TOMBSTONE,
                first_tombstone is Some ==> 0 <= tombstone_at < visited && first_tombstone->0
                    == probe(home, tombstone_at, cap) && self.hashes@[first_tombstone->0 as int]
                    == TOMBSTONE && forall|d: int|
                    0 <= d < tombstone_at ==> #[trigger] self.hashes@[probe(home, d, cap)]
                        > TOMBSTONE,
            decreases capacity - visited,
        {
            let current_hash = self.hashes[i];
            if current_hash == EMPTY {
                proof {
                    assert forall|s: int| !self.holds_at(s, key@) by {
                        if self.holds_at(s, key@) {
                            let ds = distance(home, s, cap);
                            assert(probe(home, ds, cap) == s);
                            if visited < ds {
                                assert(path_is_used(self.hashes@, self.mask, s, visited as int));
                            }
                        }
                    }
                    assert(distance(home, i as int, cap) == visited);
                    if first_tombstone is Some {
                        assert(distance(home, first_tombstone->0 as int, cap) == tombstone_at);
                    }
                }
                return match first_tombstone {
                    Some(t) => Some(t),
                    None => Some(i),
                };
            }
            if current_hash == TOMBSTONE && first_tombstone.is_none() {
                first_tombstone = Some(i);
                proof {
                    tombstone_at = visited as int;
                }
            } else if current_hash == hash {
                let found = match &self.keys[i] {
                    Some(current_key) => key.same_key(current_key),
                    None => false,
                };
                if found {
                    assert(self.holds_at(i as int, key@));
                    return Some(i);
                }
            }
            proof {
                lemma_mask_wraps(i, capacity);
                assert(self.mask == (capacity - 1) as usize);
            }
            i = (i + 1) & self.mask;
            visited = visited + 1;
            if i == start_i {
                proof {
                    assert(visited == capacity);
                    self.lemma_probe_meets_empty(home);
                }
                return first_tombstone;
            }
        }
        proof {
            self.lemma_probe_meets_empty(home);
        }
        first_tombstone
    }

    /// A sound table has an empty slot, which every probe meets.
    proof fn lemma_probe_meets_empty(&self, home: int)
        requires
            self.wf(),
            0 <= home < self.hashes@.len(),
        ensures
            exists|d: int|
                0 <= d < self.hashes@.len() && #[trigger] self.hashes@[probe(
                    home,
                    d,
                    self.hashes@.len() as int,
                )] == EMPTY,
    {
        let cap = self.hashes@.len() as int;
        if forall|d: int| 0 <= d < cap ==> #[trigger] self.hashes@[probe(home, d, cap)] != EMPTY {
            assert forall|s: int| 0 <= s < cap implies self.hashes@[s] != EMPTY by {
                assert(probe(home, distance(home, s, cap), cap) == s);
            }
            lemma_counts_bounded(self.hashes@);
            assert(false);
        }
    }

    /// The value stored for `key`, or `None` if there is none.
    pub fn get(&self, key: &K) -> (r: Option<&V>)
        requires
            self.wf(),
        ensures
            r == (if self@.contains_key(key@) {
                Some(&self@[key@])
            } else {
                None
            }),
    {
        if self.elements == 0 {
            proof {
                self.lemma_no_entry(key@);
            }
            return None;
        }
        let hash = self.hash_key(key);
        let i = match self.find_slot(hash, key) {
            Some(i) => i,
            None => {
                return None;
            },
        };
        if self.hashes[i] <= TOMBSTONE {
            return None;
        }
        proof {
            self.lemma_value_at(i as int, key@);
        }
        self.values[i].as_ref()
    }

    /// A map without entries has none for `id`.
    proof fn lemma_no_entry(&self, id: K::V)
        requires
            self.wf(),
            self.elements == 0,
        ensures
            !self@.contains_key(id),
    {
        if self@.dom().contains(id) {
            vstd::set_lib::lemma_set_empty_equivalency_len(self@.dom());
        }
    }

    /// The value stored for `key`, for writing, or `None` if there is none.
    pub fn get_mut(&mut self, key: &K) -> (r: Option<&mut V>)
        requires
            old(self).wf(),
        ensures
            final(self).wf(),
            final(self).spec_capacity() == old(self).spec_capacity(),
            final(self).spec_tombstones() == old(self).spec_tombstones(),
            !old(self)@.contains_key(key@) ==> r is None && final(self)@ == old(self)@,
            old(self)@.contains_key(key@) ==> r is Some,
            old(self)@.contains_key(key@) ==> *r->0 == old(self)@[key@],
            old(self)@.contains_key(key@) ==> final(self)@ == old(self)@.insert(
                key@,
                *final(r->0),
            ),
    {
        if self.elements == 0 {
            proof {
                self.lemma_no_entry(key@);
            }
            return None;
        }
        let hash = self.hash_key(key);
        let i = match self.find_slot(hash, key) {
            Some(i) => i,
            None => {
                return None;
            },
        };
        if self.hashes[i] <= TOMBSTONE {
            return None;
        }
        proof {
            self.lemma_value_at(i as int, key@);
        }
        let ghost before = *self;
        proof {
            assert forall|after: Self|
                #![trigger after.wf()]
                #![trigger after@]
                after.hashes@ == before.hashes@ && after.keys@ == before.keys@ && after.mask
                    == before.mask && after.elements == before.elements && after.tombstone_count
                    == before.tombstone_count && after.values@.len() == before.values@.len()
                    && after.values@[i as int] is Some && after.values@ == before.values@.update(
                    i as int,
                    after.values@[i as int],
                ) implies after.wf() && after@ == before@.insert(
                key@,
                after.values@[i as int]->0,
            ) by {
                assert(after.hashes@ =~= before.hashes@.update(i as int, hash));
                assert(after.keys@ =~= before.keys@.update(i as int, before.keys@[i as int]));
                Self::lemma_after_store(
                    &before,
                    &after,
                    i as int,
                    hash,
                    before.keys@[i as int]->0,
                    after.values@[i as int]->0,
                );
            }
        }
        match &mut self.values[i] {
            Some(value) => Some(value),
            None => None,
        }
    }

    /// The entry in slot `i` is the entry of the view.
    proof fn lemma_value_at(&self, i: int, id: K::V)
        requires
            self.slots_agree(),
            self.keys_in_place(),
            self.holds_at(i, id),
        ensures
            self@.contains_key(id),
            self.values@[i] is Some,
            self@[id] == self.values@[i]->0,
    {
        let j = choose|j: int| self.holds_at(j, id);
        assert(self.holds_at(j, id));
        if j != i {
            assert(self.hashes@[i] > TOMBSTONE && self.hashes@[j] > TOMBSTONE);
        }
    }

    /// Whether the map has an entry for `key`.
    pub fn contains_key(&self, key: &K) -> (b: bool)
        requires
            self.wf(),
        ensures
            b == self@.contains_key(key@),
    {
        self.get(key).is_some()
    }

    /// What holds of a table after an entry was stored in slot `j`: over the entry of the
    /// same key, or, for a new key, in the first free slot of its probe.
    proof fn lemma_after_store(before: &Self, after: &Self, j: int, hash: u64, key: K, value: V)
        requires
            before.slots_agree(),
            before.keys_in_place(),
            before.counts_agree(),
            hash == spec_hash_key::<K>(key@),
            0 <= j < before.hashes@.len(),
            before.holds_at(j, key@) || (!before@.contains_key(key@) && before.is_first_free(
                home_of(hash, before.mask),
                j,
            )),
            after.hashes@ == before.hashes@.update(j, hash),
            after.keys@ == before.keys@.update(j, Some(key)),
            after.values@ == before.values@.update(j, Some(value)),
            after.mask == before.mask,
            after.elements == before.elements + (if before.hashes@[j] > TOMBSTONE {
                0int
            } else {
                1int
            }),
            after.tombstone_count == before.tombstone_count - (if before.hashes@[j] == TOMBSTONE {
                1int
            } else {
                0int
            }),
        ensures
            after.slots_agree(),
            after.keys_in_place(),
            after.counts_agree(),
            after@ == before@.insert(key@, value),
    {
        let cap = before.hashes@.len() as int;
        assert(hash > TOMBSTONE);
        lemma_counts_update(before.hashes@, j, hash);
        assert forall|i: int, id: K::V| i != j implies after.holds_at(i, id) == before.holds_at(
            i,
            id,
        ) by {}
        assert forall|id: K::V| after.holds_at(j, id) == (id == key@) by {}
        assert(after.holds_at(j, key@));
        assert(after.slots_agree());
        assert forall|i: int|
            0 <= i < cap && i != j && before.hashes@[i] > TOMBSTONE implies before.keys@[i]->0@
            != key@ by {
            if before.keys@[i]->0@ == key@ {
                assert(before.holds_at(i, key@));
                if before.holds_at(j, key@) {
                    assert(before.hashes@[i] > TOMBSTONE && before.hashes@[j] > TOMBSTONE);
                }
            }
        }
        assert forall|i: int, d: int|
            0 <= i < cap && after.hashes@[i] > TOMBSTONE && 0 <= d < distance(
                home_of(after.hashes@[i], after.mask),
                i,
                cap,
            ) implies #[trigger] path_is_used(after.hashes@, after.mask, i, d) by {
            if i != j || before.hashes@[j] > TOMBSTONE {
                if i == j {
                    assert(before.holds_at(j, key@));
                }
                assert(after.hashes@[i] == before.hashes@[i]);
                assert(path_is_used(before.hashes@, before.mask, i, d));
            } else {
                assert(before.hashes@[probe(home_of(hash, before.mask), d, cap)] > TOMBSTONE);
            }
        }
        assert(after.keys_in_place());
        assert forall|id: K::V| after@.contains_key(id) == before@.insert(
            key@,
            value,
        ).contains_key(id) by {
            if id != key@ {
                if after@.contains_key(id) {
                    let i = choose|i: int| after.holds_at(i, id);
                    assert(before.holds_at(i, id));
                }
                if before@.contains_key(id) {
                    let i = choose|i: int| before.holds_at(i, id);
                    assert(after.holds_at(i, id));
                }
            }
        }
        assert forall|id: K::V| after@.contains_key(id) implies after@[id] == before@.insert(
            key@,
            value,
        )[id] by {
            let i = choose|i: int| after.holds_at(i, id);
            after.lemma_value_at(i, id);
            if id != key@ {
                assert(before.holds_at(i, id));
                before.lemma_value_at(i, id);
            }
        }
        assert(after@ =~= before@.insert(key@, value));
        if before.holds_at(j, key@) {
            assert(before@.contains_key(key@));
        }
    }

    /// What holds of a table after the entry in slot `i` was replaced by a tombstone.
    proof fn lemma_after_remove(before: &Self, after: &Self, i: int, id: K::V)
        requires
            before.slots_agree(),
            before.keys_in_place(),
            before.counts_agree(),
            before.holds_at(i, id),
            after.hashes@ == before.hashes@.update(i, TOMBSTONE),
            after.keys@ == before.keys@.update(i, None),
            after.values@ == before.values@.update(i, None),
            after.mask == before.mask,
            after.elements == before.elements - 1,
            after.tombstone_count == before.tombstone_count + 1,
        ensures
            after.slots_agree(),
            after.keys_in_place(),
            after.counts_agree(),
            after@ == before@.remove(id),
    {
        let cap = before.hashes@.len() as int;
        lemma_counts_update(before.hashes@, i, TOMBSTONE);
        assert forall|k: int, other: K::V| k != i implies after.holds_at(k, other)
            == before.holds_at(k, other) by {}
        assert forall|other: K::V| !after.holds_at(i, other) by {}
        assert(after.slots_agree());
        assert forall|k: int, d: int|
            0 <= k < cap && after.hashes@[k] > TOMBSTONE && 0 <= d < distance(
                home_of(after.hashes@[k], after.mask),
                k,
                cap,
            ) implies #[trigger] path_is_used(after.hashes@, after.mask, k, d) by {
            assert(after.hashes@[k] == before.hashes@[k]);
            assert(path_is_used(before.hashes@, before.mask, k, d));
        }
        assert(after.keys_in_place());
        assert forall|other: K::V| after@.contains_key(other) == before@.remove(id).contains_key(
            other,
        ) by {
            if after@.contains_key(other) {
                let k = choose|k: int| after.holds_at(k, other);
                assert(before.holds_at(k, other));
                if other == id {
                    assert(before.hashes@[k] > TOMBSTONE && before.hashes@[i] > TOMBSTONE);
                }
            }
            if before@.contains_key(other) && other != id {
                let k = choose|k: int| before.holds_at(k, other);
                assert(after.holds_at(k, other));
            }
        }
        assert forall|other: K::V| after@.contains_key(other) implies after@[other]
            == before@.remove(id)[other] by {
            let k = choose|k: int| after.holds_at(k, other);
            after.lemma_value_at(k, other);
            assert(before.holds_at(k, other));
            before.lemma_value_at(k, other);
        }
        assert(after@ =~= before@.remove(id));
        assert(before@.contains_key(id));
    }

    /// Stores the entry in the slot that `find_slot` gives, in a table that has room.
    fn insert_unchecked(&mut self, hash: u64, key: K, value: V)
        requires
            old(self).wf(),
            hash == spec_hash_key::<K>(key@),
            4 * (old(self)@.len() + old(self).spec_tombstones() + 1) <= 3 * old(self).spec_capacity(),
        ensures
            final(self).wf(),
            final(self)@ == old(self)@.insert(key@, value),
            final(self).spec_capacity() == old(self).spec_capacity(),
            final(self).spec_tombstones() <= old(self).spec_tombstones(),
    {
        let i = self.find_slot(hash, &key).unwrap();
        let ghost before = *self;
        if self.hashes[i] <= TOMBSTONE {
            self.elements = self.elements + 1;
            if self.hashes[i] == TOMBSTONE {
                proof {
                    lemma_counts_update(before.hashes@, i as int, hash);
                }
                self.tombstone_count = self.tombstone_count - 1;
            }
        }
        self.hashes[i] = hash;
        self.keys[i] = Some(key);
        self.values[i] = Some(value);
        proof {
            if before@.contains_key(key@) {
                before.lemma_value_at(i as int, key@);
            }
            Self::lemma_after_store(&before, &*self, i as int, hash, key, value);
        }
    }

    /// Moves every entry into a new table of `new_capacity` slots; tombstones stay behind.
    fn rebuild(&mut self, new_capacity: usize)
        requires
            old(self).wf(),
            is_power_of_two(new_capacity),
            new_capacity >= 2 * old(self).spec_capacity(),
        ensures
            final(self).wf(),
            final(self)@ == old(self)@,
            final(self).spec_capacity() == new_capacity,
            final(self).spec_tombstones() == 0,
    {
        proof {
            assert(old(self).spec_capacity() >= DEFAULT_CAPACITY);
        }
        let mut new_map: HashMap<K, V> = Self::with_slots(new_capacity);
        let ghost before = *self;
        let capacity: usize = self.hashes.len();
        let mut i: usize = 0;
        while i < capacity
            invariant
                before.wf(),
                i <= capacity,
                capacity == before.hashes@.len(),
                self.hashes@ == before.hashes@,
                self.keys@.len() == capacity,
                self.values@.len() == capacity,
                forall|j: int| i <= j < capacity ==> self.keys@[j] == before.keys@[j],
                forall|j: int| i <= j < capacity ==> self.values@[j] == before.values@[j],
                new_map.wf(),
                new_map.spec_capacity() == new_capacity,
                new_capacity >= 2 * capacity,
                new_map.spec_tombstones() == 0,
                new_map@.len() == count_occupied(before.hashes@.take(i as int)),
                forall|id: K::V|
                    new_map@.contains_key(id) <==> exists|j: int|
                        0 <= j < i && #[trigger] before.holds_at(j, id),
                forall|id: K::V| new_map@.contains_key(id) ==> new_map@[id] == before@[id],
            decreases capacity - i,
        {
            let hash = self.hashes[i];
            proof {
                lemma_counts_prefix(before.hashes@, i as int);
                lemma_counts_prefix(before.hashes@, i as int + 1);
            }
            if hash > TOMBSTONE {
                assert(before.keys@[i as int] is Some && before.values@[i as int] is Some);
                assert(self.keys@[i as int] == before.keys@[i as int]);
                assert(self.values@[i as int] == before.values@[i as int]);
                let key = self.keys[i].take().unwrap();
                let value = self.values[i].take().unwrap();
                proof {
                    assert(before.holds_at(i as int, key@));
                    before.lemma_value_at(i as int, key@);
                    if new_map@.contains_key(key@) {
                        let j = choose|j: int| 0 <= j < i && #[trigger] before.holds_at(j, key@);
                        assert(before.hashes@[j] > TOMBSTONE && before.hashes@[i as int]
                            > TOMBSTONE);
                    }
                }
                let ghost earlier = new_map@;
                new_map.insert_unchecked(hash, key, value);
                proof {
                    assert forall|id: K::V|
                        new_map@.contains_key(id) <==> exists|j: int|
                            0 <= j < i + 1 && #[trigger] before.holds_at(j, id) by {
                        if new_map@.contains_key(id) && id != key@ {
                            let j = choose|j: int| 0 <= j < i && #[trigger] before.holds_at(j, id);
                            assert(0 <= j < i + 1 && before.holds_at(j, id));
                        }
                        if exists|j: int| 0 <= j < i + 1 && #[trigger] before.holds_at(j, id) {
                            let j = choose|j: int|
                                0 <= j < i + 1 && #[trigger] before.holds_at(j, id);
                            if j < i {
                                assert(earlier.contains_key(id));
                            }
                        }
                    }
                }
            } else {
                proof {
                    assert forall|id: K::V|
                        new_map@.contains_key(id) <==> exists|j: int|
                            0 <= j < i + 1 && #[trigger] before.holds_at(j, id) by {
                        if new_map@.contains_key(id) {
                            let j = choose|j: int| 0 <= j < i && #[trigger] before.holds_at(j, id);
                            assert(0 <= j < i + 1 && before.holds_at(j, id));
                        }
                        if exists|j: int| 0 <= j < i + 1 && #[trigger] before.holds_at(j, id) {
                            let j = choose|j: int|
                                0 <= j < i + 1 && #[trigger] before.holds_at(j, id);
                            assert(j < i);
                        }
                    }
                }
            }
            i = i + 1;
        }
        proof {
            assert forall|id: K::V| new_map@.contains_key(id) == before@.contains_key(id) by {
                if before@.contains_key(id) {
                    let j = choose|j: int| before.holds_at(j, id);
                    assert(0 <= j < i && before.holds_at(j, id));
                }
            }
            assert(new_map@ =~= before@);
        }
        *self = new_map;
    }

    /// Doubles the table.
    fn resize(&mut self)
        requires
            old(self).wf(),
            2 * old(self).spec_capacity() <= usize::MAX,
        ensures
            final(self).wf(),
            final(self)@ == old(self)@,
            final(self).spec_capacity() == 2 * old(self).spec_capacity(),
            final(self).spec_tombstones() == 0,
    {
        let capacity: usize = self.hashes.len();
        proof {
            lemma_double_power_of_two(capacity);
        }
        self.rebuild(capacity * 2);
    }

    /// Stores `value` for `key`. If the map has an entry for the key, its value is
    /// replaced and returned, and the slot then holds the new key; else the entry takes
    /// the first free slot of the key's probe. A loaded table is doubled first.
    pub fn insert(&mut self, key: K, value: V) -> (r: Option<V>)
        requires
            old(self).wf(),
            !old(self).is_loaded() || 2 * old(self).spec_capacity() <= usize::MAX,
        ensures
            final(self).wf(),
            final(self)@ == old(self)@.insert(key@, value),
            r == (if old(self)@.contains_key(key@) {
                Some(old(self)@[key@])
            } else {
                None
            }),
            final(self).spec_capacity() == (if old(self).is_loaded() {
                2 * old(self).spec_capacity()
            } else {
                old(self).spec_capacity()
            }),
            final(self).spec_tombstones() <= (if old(self).is_loaded() {
                0
            } else {
                old(self).spec_tombstones()
            }),
            !old(self).is_loaded() ==> final(self).spec_tombstones() == old(self).spec_tombstones()
                - (if !old(self)@.contains_key(key@) && old(self).meets_tombstone(key@) {
                1int
            } else {
                0int
            }),
    {
        proof {
            lemma_capacity_in_quarters(self.hashes@.len() as usize);
        }
        if self.elements + self.tombstone_count >= self.hashes.len() / 4 * 3 {
            self.resize();
        }
        proof {
            lemma_capacity_in_quarters(self.hashes@.len() as usize);
        }
        let hash = self.hash_key(&key);
        let i = self.find_slot(hash, &key).unwrap();
        let ghost before = *self;
        if self.hashes[i] > TOMBSTONE {
            proof {
                before.lemma_value_at(i as int, key@);
            }
            let mut old_value = Some(value);
            core::mem::swap(&mut old_value, &mut self.values[i]);
            self.keys[i] = Some(key);
            proof {
                assert(self.hashes@ =~= before.hashes@.update(i as int, hash));
                Self::lemma_after_store(&before, &*self, i as int, hash, key, value);
            }
            return old_value;
        }
        proof {
            if before@.contains_key(key@) {
                before.lemma_value_at(i as int, key@);
            }
            let home = home_of(hash, before.mask);
            lemma_mask_bounds(hash as usize, before.hashes@.len() as usize);
            if before.meets_tombstone(key@) {
                let j = choose|j: int|
                    before.is_first_free(home, j) && #[trigger] before.hashes@[j] == TOMBSTONE;
                before.lemma_first_free_is_one(home, i as int, j);
            }
        }
        if self.hashes[i] == TOMBSTONE {
            proof {
                lemma_counts_update(before.hashes@, i as int, hash);
            }
            self.tombstone_count = self.tombstone_count - 1;
        }
        self.elements = self.elements + 1;
        self.hashes[i] = hash;
        self.keys[i] = Some(key);
        self.values[i] = Some(value);
        proof {
            Self::lemma_after_store(&before, &*self, i as int, hash, key, value);
        }
        None
    }

    /// Removes the entry of `key` and returns its value, or `None` if there is none. The
    /// slot becomes a tombstone.
    pub fn remove(&mut self, key: &K) -> (r: Option<V>)
        requires
            old(self).wf(),
        ensures
            final(self).wf(),
            final(self)@ == old(self)@.remove(key@),
            r == (if old(self)@.contains_key(key@) {
                Some(old(self)@[key@])
            } else {
                None
            }),
            final(self).spec_capacity() == old(self).spec_capacity(),
            final(self).spec_tombstones() == old(self).spec_tombstones() + (if old(self)@.contains_key(key@) {
                1nat
            } else {
                0nat
            }),
    {
        if self.elements == 0 {
            proof {
                self.lemma_no_entry(key@);
                assert(self@.remove(key@) =~= self@);
            }
            return None;
        }
        let hash = self.hash_key(key);
        let i = match self.find_slot(hash, key) {
            Some(i) => i,
            None => {
                return None;
            },
        };
        if self.hashes[i] <= TOMBSTONE {
            assert(self@.remove(key@) =~= self@);
            return None;
        }
        let ghost before = *self;
        proof {
            before.lemma_value_at(i as int, key@);
        }
        self.elements = self.elements - 1;
        self.tombstone_count = self.tombstone_count + 1;
        self.hashes[i] = TOMBSTONE;
        self.keys[i] = None;
        let value = self.values[i].take();
        proof {
            Self::lemma_after_remove(&before, &*self, i as int, key@);
        }
        value
    }

    /// Removes every entry and every tombstone; the table keeps its slots.
    pub fn clear(&mut self)
        requires
            old(self).wf(),
        ensures
            final(self).wf(),
            final(self)@ == Map::<K::V, V>::empty(),
            final(self).spec_capacity() == old(self).spec_capacity(),
            final(self).spec_tombstones() == 0,
    {
        let capacity: usize = self.hashes.len();
        let mut i: usize = 0;
        while i < capacity
            invariant
                i <= capacity,
                capacity == old(self).hashes@.len(),
                self.hashes@.len() == capacity,
                self.keys@.len() == capacity,
                self.values@.len() == capacity,
                self.mask == old(self).mask,
                forall|j: int| 0 <= j < i ==> #[trigger] self.hashes@[j] == EMPTY,
                forall|j: int| 0 <= j < i ==> (#[trigger] self.keys@[j]) is None,
                forall|j: int| 0 <= j < i ==> (#[trigger] self.values@[j]) is None,
            decreases capacity - i,
        {
            self.hashes[i] = EMPTY;
            self.keys[i] = None;
            self.values[i] = None;
            i = i + 1;
        }
        self.elements = 0;
        self.tombstone_count = 0;
        proof {
            lemma_counts_bounded(self.hashes@);
            assert(self@ =~= Map::<K::V, V>::empty());
        }
    }

    /// Makes sure that the table has a slot for each entry and for `additional` more: if
    /// it has fewer, the entries move to a table made for that many.
    pub fn reserve(&mut self, additional: usize)
        requires
            old(self).wf(),
            old(self)@.len() + additional <= usize::MAX / 2 + 1,
        ensures
            final(self).wf(),
            final(self)@ == old(self)@,
            old(self)@.len() + additional <= old(self).spec_capacity() ==> final(self).spec_capacity() == old(self).spec_capacity() && final(self).spec_tombstones() == old(self).spec_tombstones(),
            old(self)@.len() + additional > old(self).spec_capacity() ==> is_table_capacity(
                final(self).spec_capacity() as usize,
                (old(self)@.len() + additional) as usize,
            ) && final(self).spec_tombstones() == 0,
    {
        let needed_capacity: usize = self.elements + additional;
        if needed_capacity > self.hashes.len() {
            let capacity: usize = self.hashes.len();
            let mut new_capacity: usize = capacity;
            while new_capacity < needed_capacity
                invariant
                    is_power_of_two(new_capacity),
                    new_capacity >= capacity,
                    capacity >= DEFAULT_CAPACITY,
                    capacity < needed_capacity,
                    new_capacity < 2 * needed_capacity,
                    needed_capacity <= usize::MAX / 2 + 1,
                decreases usize::MAX - new_capacity,
            {
                proof {
                    assert(2 * new_capacity <= usize::MAX);
                    lemma_double_power_of_two(new_capacity);
                }
                new_capacity = new_capacity * 2;
            }
            proof {
                assert(new_capacity >= 2 * capacity) by (bit_vector)
                    requires
                        new_capacity > capacity,
                        capacity > 0 && capacity & ((capacity - 1) as usize) == 0,
                        new_capacity > 0 && new_capacity & ((new_capacity - 1) as usize) == 0,
                ;
            }
            self.rebuild(new_capacity);
        }
    }

    /// The entries in the slots from `start` on, in the order of the slots.
    pub closed spec fn entries_from(&self, start: int) -> Seq<(K, V)>
        decreases self.spec_capacity() - start,
    {
        if start < 0 || start >= self.hashes@.len() {
            Seq::empty()
        } else if self.hashes@[start] > TOMBSTONE {
            seq![(self.keys@[start]->0, self.values@[start]->0)] + self.entries_from(start + 1)
        } else {
            self.entries_from(start + 1)
        }
    }

    /// The entries in the order of their slots, which is not the order in which they
    /// were inserted.
    pub open spec fn entries(&self) -> Seq<(K, V)> {
        self.entries_from(0)
    }

    /// Whether `entry` stands in a slot at or after `start`.
    spec fn stands_from(&self, start: int, entry: (K, V)) -> bool {
        exists|j: int|
            start <= j && #[trigger] self.holds_at(j, entry.0@) && self.values@[j] == Some(entry.1)
    }

    /// The entries from slot `start` on are as many as the occupied slots there, and each
    /// stands in one of them.
    proof fn lemma_entries_from(&self, start: int)
        requires
            self.wf(),
            0 <= start <= self.hashes@.len(),
        ensures
            self.entries_from(start).len() == count_occupied(self.hashes@.skip(start)),
            forall|n: int|
                0 <= n < self.entries_from(start).len() ==> self.stands_from(
                    start,
                    #[trigger] self.entries_from(start)[n],
                ),
        decreases self.hashes@.len() - start,
    {
        if start < self.hashes@.len() {
            self.lemma_entries_from(start + 1);
            lemma_counts_first(self.hashes@.skip(start));
            assert(self.hashes@.skip(start).drop_first() =~= self.hashes@.skip(start + 1));
            let rest = self.entries_from(start + 1);
            assert forall|n: int| 0 <= n < self.entries_from(start).len() implies self.stands_from(
                start,
                #[trigger] self.entries_from(start)[n],
            ) by {
                let e = self.entries_from(start)[n];
                if self.hashes@[start] > TOMBSTONE && n == 0 {
                    assert(self.values@[start] is Some);
                    assert(e == (self.keys@[start]->0, self.values@[start]->0));
                    assert(start <= start && self.holds_at(start, e.0@) && self.values@[start]
                        == Some(e.1));
                } else {
                    let m = if self.hashes@[start] > TOMBSTONE {
                        n - 1
                    } else {
                        n
                    };
                    assert(self.entries_from(start)[n] == rest[m]);
                    assert(self.stands_from(start + 1, rest[m]));
                    let j = choose|j: int|
                        start + 1 <= j && #[trigger] self.holds_at(j, rest[m].0@) && self.values@[j]
                            == Some(rest[m].1);
                    assert(start <= j && self.holds_at(j, e.0@) && self.values@[j] == Some(e.1));
                }
            }
        } else {
            assert(self.hashes@.skip(start) =~= Seq::<u64>::empty());
        }
    }

    /// Two tables that differ in the value of slot `i` alone have the same entries after it.
    proof fn lemma_entries_apart(before: &Self, after: &Self, i: int, start: int)
        requires
            before.slots_agree(),
            after.hashes@ == before.hashes@,
            after.keys@ == before.keys@,
            after.values@.len() == before.values@.len(),
            after.values@ == before.values@.update(i, after.values@[i]),
            0 <= i < start,
        ensures
            after.entries_from(start) == before.entries_from(start),
        decreases before.hashes@.len() - start,
    {
        if 0 <= start < before.hashes@.len() {
            Self::lemma_entries_apart(before, after, i, start + 1);
            assert(after.values@[start] == before.values@[start]);
        }
    }

    /// The iteration goes over the entries of the view: there are as many, and each is a
    /// key of the view with its value.
    pub proof fn lemma_entries_are_the_view(&self)
        requires
            self.wf(),
        ensures
            self.entries().len() == self@.len(),
            forall|n: int|
                0 <= n < self.entries().len() ==> self@.contains_key(
                    (#[trigger] self.entries()[n]).0@,
                ) && self@[self.entries()[n].0@] == self.entries()[n].1,
    {
        self.lemma_entries_from(0);
        assert(self.hashes@.skip(0) =~= self.hashes@);
        assert forall|n: int| 0 <= n < self.entries().len() implies self@.contains_key(
            (#[trigger] self.entries()[n]).0@,
        ) && self@[self.entries()[n].0@] == self.entries()[n].1 by {
            let e = self.entries()[n];
            assert(self.stands_from(0, e));
            let j = choose|j: int|
                0 <= j && #[trigger] self.holds_at(j, e.0@) && self.values@[j] == Some(e.1);
            self.lemma_value_at(j, e.0@);
        }
    }

    /// An iterator over the entries, in the order of their slots, that hands out each
    /// value for writing.
    pub fn iter_mut(&mut self) -> (it: IterMut<'_, K, V>)
        requires
            old(self).wf(),
        ensures
            *it.hash_map == *old(self),
            it.index == 0,
            *final(self) == *final(it.hash_map),
    {
        IterMut { hash_map: self, index: 0 }
    }

    /// An iterator over the entries, in the order of their slots.
    pub fn iter(&self) -> (it: Iter<'_, K, V>)
        requires
            self.wf(),
        ensures
            it.remaining() == self.entries(),
    {
        Iter { hash_map: self, index: 0 }
    }
}

impl<K: HashKey, V> Default for HashMap<K, V> {
    /// An empty map with the smallest table.
    fn default() -> (m: Self)
        ensures
            m.wf(),
            m@ == Map::<K::V, V>::empty(),
            m.spec_capacity() == DEFAULT_CAPACITY,
            m.spec_tombstones() == 0,
    {
        HashMap::new()
    }
}

/// An iterator over the entries of a map, in the order of their slots.
pub struct Iter<'a, K: HashKey, V> {
    hash_map: &'a HashMap<K, V>,
    index: usize,
}

impl<'a, K: HashKey, V> Iter<'a, K, V> {
    #[verifier::type_invariant]
    spec fn inv(self) -> bool {
        self.hash_map.wf() && self.index <= self.hash_map.hashes@.len()
    }

    /// The entries still to come, in order.
    pub closed spec fn remaining(&self) -> Seq<(K, V)> {
        self.hash_map.entries_from(self.index as int)
    }

    /// The next entry, or `None` after the last.
    pub fn next(&mut self) -> (r: Option<(&'a K, &'a V)>)
        ensures
            old(self).remaining().len() == 0 ==> r is None && final(self).remaining() == old(self).remaining(),
            old(self).remaining().len() > 0 ==> r == Some(
                (&old(self).remaining()[0].0, &old(self).remaining()[0].1),
            ) && final(self).remaining() == old(self).remaining().drop_first(),
    {
        proof {
            use_type_invariant(&*self);
        }
        let map: &'a HashMap<K, V> = self.hash_map;
        while self.index < map.hashes.len()
            invariant
                map == self.hash_map,
                map.wf(),
                self.index <= map.hashes@.len(),
                self.remaining() == old(self).remaining(),
            decreases map.hashes@.len() - self.index,
        {
            let i: usize = self.index;
            self.index = i + 1;
            if map.hashes[i] > TOMBSTONE {
                let key: &'a K = map.keys[i].as_ref().unwrap();
                let value: &'a V = map.values[i].as_ref().unwrap();
                assert(self.remaining() =~= old(self).remaining().drop_first());
                return Some((key, value));
            }
        }
        None
    }
}

/// An iterator over the entries of a map, in the order of their slots, that hands out
/// each value for writing.
///
/// The fields are open: what is written through `hash_map` is written to the map.
pub struct IterMut<'a, K: HashKey, V> {
    /// The map.
    pub hash_map: &'a mut HashMap<K, V>,
    /// The slot that is looked at next.
    pub index: usize,
}

impl<'a, K: HashKey, V> IterMut<'a, K, V> {
    /// The entries still to come, in order.
    pub open spec fn remaining(&self) -> Seq<(K, V)> {
        self.hash_map.entries_from(self.index as int)
    }

    /// The next entry, its value for writing, or `None` after the last.
    pub fn next(&mut self) -> (r: Option<(&K, &mut V)>)
        requires
            old(self).hash_map.wf(),
        ensures
            *final(final(self).hash_map) == *final(old(self).hash_map),
            final(self).hash_map.wf(),
            final(self).hash_map.spec_capacity() == old(self).hash_map.spec_capacity(),
            final(self).hash_map.spec_tombstones() == old(self).hash_map.spec_tombstones(),
            old(self).remaining().len() == 0 ==> r is None && *final(self).hash_map == *old(self).hash_map,
            old(self).remaining().len() > 0 ==> r is Some && *(r->0).0 == old(self).remaining()[0].0
                && *(r->0).1 == old(self).remaining()[0].1,
            old(self).remaining().len() > 0 ==> final(self).hash_map@ == old(self).hash_map@.insert(
                (r->0).0@,
                *final((r->0).1),
            ),
            old(self).remaining().len() > 0 ==> final(self).remaining() == old(self).remaining().drop_first(),
    {
        let capacity: usize = self.hash_map.hashes.len();
        while self.index < capacity && self.hash_map.hashes[self.index] <= TOMBSTONE
            invariant
                self.hash_map.wf(),
                *self.hash_map == *old(self).hash_map,
                *final(self.hash_map) == *final(old(self).hash_map),
                capacity == self.hash_map.hashes@.len(),
                self.remaining() == old(self).remaining(),
            decreases capacity - self.index,
        {
            self.index = self.index + 1;
        }
        if self.index >= capacity {
            return None;
        }
        let i: usize = self.index;
        self.index = i + 1;
        let ghost before = *self.hash_map;
        let ghost hash = before.hashes@[i as int];
        let ghost id = before.keys@[i as int]->0@;
        proof {
            assert(before.holds_at(i as int, id));
            before.lemma_value_at(i as int, id);
            assert forall|after: HashMap<K, V>|
                #![trigger after.wf()]
                #![trigger after@]
                #![trigger after.entries_from(i as int + 1)]
                after.hashes@ == before.hashes@ && after.keys@ == before.keys@ && after.mask
                    == before.mask && after.elements == before.elements
                    && after.tombstone_count == before.tombstone_count
                    && after.values@.len() == before.values@.len()
                    && after.values@[i as int] is Some && after.values@
                    == before.values@.update(
                    i as int,
                    after.values@[i as int],
                ) implies after.wf() && after@ == before@.insert(
                id,
                after.values@[i as int]->0,
            ) && after.entries_from(i as int + 1) == before.entries_from(i as int + 1) by {
                assert(after.hashes@ =~= before.hashes@.update(i as int, hash));
                assert(after.keys@ =~= before.keys@.update(
                    i as int,
                    before.keys@[i as int],
                ));
                HashMap::lemma_after_store(
                    &before,
                    &after,
                    i as int,
                    hash,
                    before.keys@[i as int]->0,
                    after.values@[i as int]->0,
                );
                HashMap::lemma_entries_apart(&before, &after, i as int, i as int + 1);
            }
            assert(old(self).remaining() =~= seq![
                (before.keys@[i as int]->0, before.values@[i as int]->0),
            ] + before.entries_from(i as int + 1));
            assert(old(self).remaining().drop_first() =~= before.entries_from(
                i as int + 1,
            ));
        }
        let map = &mut *self.hash_map;
        match (&map.keys[i], &mut map.values[i]) {
            (Some(key), Some(value)) => Some((key, value)),
            _ => None,
        }
    }
}

} // verus!