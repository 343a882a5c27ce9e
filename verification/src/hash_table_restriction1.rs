//! The table with removal, an item counter and growth.
//!
//! Key `0` marks an empty slot and key `u32::MAX` a removed one (a
//! tombstone); both are reserved.  Every operation probes from
//! `integer_hash(key)`.  A lookup or a removal passes over tombstones and
//! stops at the key or at an empty slot; an insert of a new key takes the
//! first tombstone or empty slot of its probe path.  Every insert adds one to
//! the item counter (also when it only replaces a value) and every removal
//! that finds its key takes one off.  After an insert, when the counter
//! divided by the size exceeds the load factor, the table doubles: the
//! counter restarts from zero and every live entry of the old array is
//! inserted again, in array order, into an empty array twice as large (see
//! `growing`).
use vstd::prelude::*;
use crate::chain::{is_key, lemma_empty, map_of};
use crate::growing::{
    hash_fn, insert_or_grow, law_get, law_remove, law_set, set_spec, table_ok,
};
use crate::hashing::{integer_hash, is_pow2, murmur_spec};
use crate::load_factor::LoadFactor;
use crate::probe::{
    can_place, copy_entries, copy_pairs, empty_entries, empty_slots, find_key, find_place, found, get_spec, pairs,
    remove_spec, Slot, TOMBSTONE,
};

verus! {

/// One slot: a key (`0` when empty, `u32::MAX` when removed) and a value.
#[derive(Clone, Copy)]
pub struct Entry {
    key: u32,
    value: u32,
}

impl Entry {
    /// An empty slot.
    pub fn new() -> (r: Self)
        ensures
            r.pair() == (0u32, 0u32),
    {
        Entry { key: 0, value: 0 }
    }
}

impl Default for Entry {
    /// An empty slot.
    fn default() -> (r: Self)
        ensures
            r.pair() == (0u32, 0u32),
    {
        Entry::new()
    }
}

impl Slot for Entry {
    closed spec fn pair(&self) -> (u32, u32) {
        (self.key, self.value)
    }

    fn with_pair(key: u32, value: u32) -> (r: Self) {
        Entry { key, value }
    }

    fn key(&self) -> (r: u32) {
        self.key
    }

    fn value(&self) -> (r: u32) {
        self.value
    }
}

/// A growing open-addressing table with tombstone removal and an item
/// counter.
pub struct HashTable {
    m_entries: Vec<Entry>,
    m_array_size: u32,
    load_factor_thres: LoadFactor,
    item_count: u32,
}

impl View for HashTable {
    type V = Map<u32, u32>;

    /// The map from each live key held by the table to its value.
    closed spec fn view(&self) -> Map<u32, u32> {
        map_of(self.slots(), true)
    }
}

impl HashTable {
    /// The `(key, value)` pairs of the slots, in array order.
    pub closed spec fn slots(&self) -> Seq<(u32, u32)> {
        pairs(self.m_entries@)
    }

    /// The number of slots.
    pub closed spec fn capacity(&self) -> nat {
        self.m_array_size as nat
    }

    /// The item counter.
    pub closed spec fn count(&self) -> u32 {
        self.item_count
    }

    /// The slots together with the item counter.
    pub open spec fn state(&self) -> (Seq<(u32, u32)>, u32) {
        (self.slots(), self.count())
    }

    /// The threshold above which the table grows.
    pub closed spec fn load_factor(&self) -> LoadFactor {
        self.load_factor_thres
    }

    /// The table's invariant: as many slots as the size, a power of two, a
    /// usable load factor, live keys unique and reachable, and a counter no
    /// smaller than the number of live slots.
    pub closed spec fn wf(&self) -> bool {
        &&& self.m_entries@.len() == self.m_array_size
        &&& is_pow2(self.m_array_size)
        &&& self.load_factor_thres.valid()
        &&& table_ok(self.slots(), self.item_count, false, true)
    }

    /// The facts of the invariant that callers rely on.
    pub proof fn lemma_wf(&self)
        requires
            self.wf(),
        ensures
            self.slots().len() == self.capacity(),
            is_pow2(self.capacity() as u32),
            self.capacity() <= u32::MAX,
            self.load_factor().valid(),
            table_ok(self.slots(), self.count(), false, true),
    {
    }

    /// A table of `max_size` empty slots and a zero counter, which grows
    /// when the counter over the size exceeds `load_factor`; `max_size`
    /// must be a power of two.
    pub fn new(max_size: u32, load_factor: LoadFactor) -> (r: Self)
        requires
            is_pow2(max_size),
            load_factor.valid(),
        ensures
            r.wf(),
            r.capacity() == max_size,
            r.slots() == empty_slots(max_size as nat),
            r.count() == 0,
            r.load_factor() == load_factor,
            r@ == Map::<u32, u32>::empty(),
    {
        proof {
            lemma_empty(max_size as nat, hash_fn(false), true);
        }
        HashTable {
            m_entries: empty_entries(max_size),
            m_array_size: max_size,
            load_factor_thres: load_factor,
            item_count: 0,
        }
    }

    /// Stores `value` under `key`, adds one to the counter, and doubles the
    /// table if the counter over the size then exceeds the load factor.
    ///
    /// Keys `0` and `u32::MAX` and value `0` are reserved; the insert must be
    /// able to complete (see `can_set`).
    pub fn set_item(&mut self, key: u32, value: u32)
        requires
            old(self).wf(),
            key != 0,
            key != TOMBSTONE,
            value != 0,
            set_spec(old(self).slots(), old(self).count(), old(self).load_factor(), false, true, key, value) is Some,
        ensures
            final(self).wf(),
            final(self).load_factor() == old(self).load_factor(),
            Some(final(self).state()) == set_spec(
                old(self).slots(),
                old(self).count(),
                old(self).load_factor(),
                false,
                true,
                key,
                value,
            ),
            final(self)@ == old(self)@.insert(key, value),
    {
        proof {
            law_set(self.slots(), self.item_count, self.load_factor_thres, false, true, key, value);
        }
        let lf = self.load_factor_thres;
        let ok = insert_or_grow(
            &mut self.m_entries,
            &mut self.m_array_size,
            &mut self.item_count,
            lf,
            false,
            true,
            key,
            value,
        );
        assert(ok);
    }

    /// Whether `set_item(key, value)` can complete: the key and value are
    /// not reserved, some slot can take the key, the counter does not
    /// overflow, and no growth goes beyond `2^31` slots.
    pub fn can_set(&self, key: u32, value: u32) -> (r: bool)
        requires
            self.wf(),
        ensures
            r == set_spec(self.slots(), self.count(), self.load_factor(), false, true, key, value) is Some,
    {
        let mut entries = copy_entries(&self.m_entries);
        let mut size = self.m_array_size;
        let mut count = self.item_count;
        insert_or_grow(&mut entries, &mut size, &mut count, self.load_factor_thres, false, true, key, value)
    }

    /// Whether an insert of `key` has a slot to take: the table holds `key`,
    /// or some slot is empty or a tombstone.
    pub fn has_room(&self, key: u32) -> (r: bool)
        requires
            self.wf(),
        ensures
            r == can_place(self.slots(), murmur_spec(key), key, true),
    {
        find_place(&self.m_entries, self.m_array_size, integer_hash(key), key, true).is_some()
    }

    /// The value stored under `key`, or `0` when the table does not hold it.
    ///
    /// The reserved keys `0` and `u32::MAX` are never held, so they give `0`.
    pub fn get_item(&self, key: u32) -> (r: u32)
        requires
            self.wf(),
        ensures
            is_key(key, true) ==> r == get_spec(self.slots(), murmur_spec(key), key),
            !is_key(key, true) ==> r == 0,
            r == (if self@.contains_key(key) {
                self@[key]
            } else {
                0
            }),
    {
        if key == 0 || key == TOMBSTONE {
            return 0;
        }
        proof {
            law_get(self.slots(), self.item_count, false, true, key);
        }
        match find_key(&self.m_entries, self.m_array_size, integer_hash(key), key) {
            Some(i) => self.m_entries[i].value(),
            None => 0,
        }
    }

    /// Removes `key`: its slot becomes a tombstone (keeping the value), the
    /// counter goes down by one, and the value is returned; returns `0` and
    /// changes nothing when the table does not hold `key`, as for the
    /// reserved keys `0` and `u32::MAX`, which it never holds.
    pub fn remove_item(&mut self, key: u32) -> (r: u32)
        requires
            old(self).wf(),
        ensures
            final(self).wf(),
            final(self).capacity() == old(self).capacity(),
            final(self).load_factor() == old(self).load_factor(),
            final(self).slots() == (if is_key(key, true) {
                remove_spec(old(self).slots(), murmur_spec(key), key)
            } else {
                old(self).slots()
            }),
            final(self).count() == (if is_key(key, true) && found(old(self).slots(), murmur_spec(key), key) {
                (old(self).count() - 1) as u32
            } else {
                old(self).count()
            }),
            r == (if is_key(key, true) {
                get_spec(old(self).slots(), murmur_spec(key), key)
            } else {
                0
            }),
            final(self)@ == old(self)@.remove(key),
            r == (if old(self)@.contains_key(key) {
                old(self)@[key]
            } else {
                0
            }),
    {
        if key == 0 || key == TOMBSTONE {
            assert(self@.remove(key) =~= self@);
            return 0;
        }
        proof {
            law_remove(self.slots(), self.item_count, false, true, key);
            law_get(self.slots(), self.item_count, false, true, key);
        }
        match find_key(&self.m_entries, self.m_array_size, integer_hash(key), key) {
            Some(i) => {
                let v = self.m_entries[i].value();
                self.m_entries.set(i, Entry::with_pair(TOMBSTONE, v));
                assert(self.slots() =~= remove_spec(old(self).slots(), murmur_spec(key), key));
                self.item_count = self.item_count - 1;
                v
            },
            None => 0,
        }
    }

    /// The `(key, value)` pairs of all slots, in array order.
    pub fn slot_pairs(&self) -> (r: Vec<(u32, u32)>)
        ensures
            r@ == self.slots(),
    {
        copy_pairs(&self.m_entries)
    }

    /// The number of slots.
    pub fn get_array_size(&self) -> (r: u32)
        ensures
            r == self.capacity(),
    {
        self.m_array_size
    }

    /// The item counter.
    pub fn get_item_count(&self) -> (r: u32)
        ensures
            r == self.count(),
    {
        self.item_count
    }

    /// Empties every slot; the size, the load factor and the counter stay.
    pub fn clear(&mut self)
        requires
            old(self).wf(),
        ensures
            final(self).wf(),
            final(self).capacity() == old(self).capacity(),
            final(self).load_factor() == old(self).load_factor(),
            final(self).count() == old(self).count(),
            final(self).slots() == empty_slots(old(self).capacity()),
            final(self)@ == Map::<u32, u32>::empty(),
    {
        proof {
            lemma_empty(self.m_array_size as nat, hash_fn(false), true);
        }
        self.m_entries = empty_entries(self.m_array_size);
    }
}

} // verus!
