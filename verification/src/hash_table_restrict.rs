//! The table with removal and growth whose load is recomputed by scanning
//! the slots.
//!
//! Key `0` marks an empty slot and key `u32::MAX` a removed one (a
//! tombstone); both are reserved.  Every operation probes from
//! `integer_hash2(key)`.  A lookup or a removal passes over tombstones and
//! stops at the key or at an empty slot; an insert of a new key takes the
//! first tombstone or empty slot of its probe path.  After an insert, when
//! the number of slots with a non-zero key and a non-zero value (tombstones
//! keep their value, so they count), divided by the size, exceeds the load
//! factor, the table doubles: every live entry of the old array is inserted
//! again, in array order, into an empty array twice as large (see
//! `growing`).
use vstd::prelude::*;
use crate::chain::{is_key, lemma_empty, map_of};
use crate::growing::{
    count_valued, hash_fn, insert_or_grow, law_get, law_remove, law_set, set_spec, table_ok,
    valued_count,
};
use crate::hashing::{integer_hash2, is_pow2, xorshift_mul_spec};
use crate::load_factor::LoadFactor;
use crate::probe::{
    can_place, copy_entries, copy_pairs, empty_entries, empty_slots, find_key, find_place, get_spec, pairs,
    remove_spec, Slot, TOMBSTONE,
};

verus! {

/// One slot: a key (`0` when empty, `u32::MAX` when removed) and a value.
pub struct Entry {
    key: u32,
    value: u32,
}

impl Entry {
    /// An empty slot.
    pub fn new() -> (r: Self)
        ensures
            r.pair() == (0u32, 0u32),
    {
        Entry { key: 0, value: 0 }
    }
}

impl Slot for Entry {
    closed spec fn pair(&self) -> (u32, u32) {
        (self.key, self.value)
    }

    fn with_pair(key: u32, value: u32) -> (r: Self) {
        Entry { key, value }
    }

    fn key(&self) -> (r: u32) {
        self.key
    }

    fn value(&self) -> (r: u32) {
        self.value
    }
}

/// A growing open-addressing table with tombstone removal.
pub struct HashTable {
    m_entries: Vec<Entry>,
    m_array_size: u32,
    load_factor_thres: LoadFactor,
    item_count: u32,
}

impl View for HashTable {
    type V = Map<u32, u32>;

    /// The map from each live key held by the table to its value.
    closed spec fn view(&self) -> Map<u32, u32> {
        map_of(self.slots(), true)
    }
}

impl HashTable {
    /// The `(key, value)` pairs of the slots, in array order.
    pub closed spec fn slots(&self) -> Seq<(u32, u32)> {
        pairs(self.m_entries@)
    }

    /// The number of slots.
    pub closed spec fn capacity(&self) -> nat {
        self.m_array_size as nat
    }

    /// The counter the table carries, which no operation changes from
    /// zero; the load is the number of slots with non-zero key and value.
    pub closed spec fn count(&self) -> u32 {
        self.item_count
    }

    /// The threshold above which the table grows.
    pub closed spec fn load_factor(&self) -> LoadFactor {
        self.load_factor_thres
    }

    /// The table's invariant: as many slots as the size, a power of two, a
    /// usable load factor, live keys unique and reachable, and a zero
    /// counter.
    pub closed spec fn wf(&self) -> bool {
        &&& self.item_count == 0
        &&& self.m_entries@.len() == self.m_array_size
        &&& is_pow2(self.m_array_size)
        &&& self.load_factor_thres.valid()
        &&& table_ok(self.slots(), self.item_count, true, false)
    }

    /// The facts of the invariant that callers rely on.
    pub proof fn lemma_wf(&self)
        requires
            self.wf(),
        ensures
            self.slots().len() == self.capacity(),
            is_pow2(self.capacity() as u32),
            self.capacity() <= u32::MAX,
            self.load_factor().valid(),
            self.count() == 0,
            table_ok(self.slots(), self.count(), true, false),
    {
    }

    /// A table of `max_size` empty slots, which grows when the share of
    /// slots with non-zero key and value exceeds `load_factor`; `max_size`
    /// must be a power of two.
    pub fn new(max_size: u32, load_factor: LoadFactor) -> (r: Self)
        requires
            is_pow2(max_size),
            load_factor.valid(),
        ensures
            r.wf(),
            r.capacity() == max_size,
            r.slots() == empty_slots(max_size as nat),
            r.load_factor() == load_factor,
            r@ == Map::<u32, u32>::empty(),
    {
        proof {
            lemma_empty(max_size as nat, hash_fn(true), true);
        }
        HashTable {
            m_entries: empty_entries(max_size),
            m_array_size: max_size,
            load_factor_thres: load_factor,
            item_count: 0,
        }
    }

    /// Stores `value` under `key`, and doubles the table if the number of
    /// slots with non-zero key and value over the size then exceeds the load
    /// factor.
    ///
    /// Keys `0` and `u32::MAX` and value `0` are reserved; the insert must be
    /// able to complete (see `can_set`).
    pub fn set_item(&mut self, key: u32, value: u32)
        requires
            old(self).wf(),
            key != 0,
            key != TOMBSTONE,
            value != 0,
            set_spec(old(self).slots(), old(self).count(), old(self).load_factor(), true, false, key, value) is Some,
        ensures
            final(self).wf(),
            final(self).load_factor() == old(self).load_factor(),
            Some((final(self).slots(), 0u32)) == set_spec(
                old(self).slots(),
                old(self).count(),
                old(self).load_factor(),
                true,
                false,
                key,
                value,
            ),
            final(self)@ == old(self)@.insert(key, value),
    {
        proof {
            law_set(self.slots(), self.item_count, self.load_factor_thres, true, false, key, value);
        }
        let lf = self.load_factor_thres;
        let ok = insert_or_grow(
            &mut self.m_entries,
            &mut self.m_array_size,
            &mut self.item_count,
            lf,
            true,
            false,
            key,
            value,
        );
        assert(ok);
    }

    /// Whether `set_item(key, value)` can complete: the key and value are
    /// not reserved, some slot can take the key, and no growth goes beyond
    /// `2^31` slots.
    pub fn can_set(&self, key: u32, value: u32) -> (r: bool)
        requires
            self.wf(),
        ensures
            r == set_spec(self.slots(), self.count(), self.load_factor(), true, false, key, value) is Some,
    {
        let mut entries = copy_entries(&self.m_entries);
        let mut size = self.m_array_size;
        let mut count = self.item_count;
        insert_or_grow(&mut entries, &mut size, &mut count, self.load_factor_thres, true, false, key, value)
    }

    /// Whether an insert of `key` has a slot to take: the table holds `key`,
    /// or some slot is empty or a tombstone.
    pub fn has_room(&self, key: u32) -> (r: bool)
        requires
            self.wf(),
        ensures
            r == can_place(self.slots(), xorshift_mul_spec(key), key, true),
    {
        find_place(&self.m_entries, self.m_array_size, integer_hash2(key), key, true).is_some()
    }

    /// The value stored under `key`, or `0` when the table does not hold it.
    ///
    /// The reserved keys `0` and `u32::MAX` are never held, so they give `0`.
    pub fn get_item(&self, key: u32) -> (r: u32)
        requires
            self.wf(),
        ensures
            is_key(key, true) ==> r == get_spec(self.slots(), xorshift_mul_spec(key), key),
            !is_key(key, true) ==> r == 0,
            r == (if self@.contains_key(key) {
                self@[key]
            } else {
                0
            }),
    {
        if key == 0 || key == TOMBSTONE {
            return 0;
        }
        proof {
            law_get(self.slots(), self.item_count, true, false, key);
        }
        match find_key(&self.m_entries, self.m_array_size, integer_hash2(key), key) {
            Some(i) => self.m_entries[i].value(),
            None => 0,
        }
    }

    /// Removes `key`: its slot becomes a tombstone (keeping the value) and
    /// the value is returned; returns `0` and changes nothing when the table
    /// does not hold `key`.
    ///
    /// Keys `0` and `u32::MAX` are reserved and rejected.
    pub fn remove_item(&mut self, key: u32) -> (r: u32)
        requires
            old(self).wf(),
            key != 0,
            key != TOMBSTONE,
        ensures
            final(self).wf(),
            final(self).capacity() == old(self).capacity(),
            final(self).load_factor() == old(self).load_factor(),
            final(self).slots() == remove_spec(old(self).slots(), xorshift_mul_spec(key), key),
            r == get_spec(old(self).slots(), xorshift_mul_spec(key), key),
            final(self)@ == old(self)@.remove(key),
            r == (if old(self)@.contains_key(key) {
                old(self)@[key]
            } else {
                0
            }),
    {
        proof {
            law_remove(self.slots(), self.item_count, true, false, key);
            law_get(self.slots(), self.item_count, true, false, key);
        }
        match find_key(&self.m_entries, self.m_array_size, integer_hash2(key), key) {
            Some(i) => {
                let v = self.m_entries[i].value();
                self.m_entries.set(i, Entry::with_pair(TOMBSTONE, v));
                assert(self.slots() =~= remove_spec(old(self).slots(), xorshift_mul_spec(key), key));
                v
            },
            None => 0,
        }
    }

    /// The `(key, value)` pairs of all slots, in array order.
    pub fn slot_pairs(&self) -> (r: Vec<(u32, u32)>)
        ensures
            r@ == self.slots(),
    {
        copy_pairs(&self.m_entries)
    }

    /// The number of slots.
    pub fn get_array_size(&self) -> (r: u32)
        ensures
            r == self.capacity(),
    {
        self.m_array_size
    }

    /// The number of slots whose key and value are both non-zero
    /// (tombstones keep their value, so they count).
    pub fn get_item_count(&self) -> (r: u32)
        requires
            self.wf(),
        ensures
            r == valued_count(self.slots()),
    {
        count_valued(&self.m_entries)
    }

    /// Empties every slot; the size and the load factor stay.
    pub fn clear(&mut self)
        requires
            old(self).wf(),
        ensures
            final(self).wf(),
            final(self).capacity() == old(self).capacity(),
            final(self).load_factor() == old(self).load_factor(),
            final(self).slots() == empty_slots(old(self).capacity()),
            final(self)@ == Map::<u32, u32>::empty(),
    {
        proof {
            lemma_empty(self.m_array_size as nat, hash_fn(true), true);
        }
        self.m_entries = empty_entries(self.m_array_size);
    }
}

} // verus!
