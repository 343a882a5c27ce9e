//! The plain table: keys and values are non-zero `u32`s, key `0` marks an
//! empty slot, keys are never removed, and the array never grows.
//!
//! A key is placed by probing linearly from `integer_hash(key) & (size - 1)`
//! to the first slot that is empty or already holds the key; a lookup
//! probes the same way and gives `0` when it meets an empty slot or has
//! visited every slot.  Under the
//! table's invariant (see `chain`) the slots stand for a map from keys to
//! values, and `set_item` / `get_item` are map insertion and lookup.
use vstd::prelude::*;
use crate::chain::{chain_ok, lemma_empty, lemma_get, lemma_place, map_of};
use crate::hashing::{integer_hash, is_pow2, murmur_spec};
use crate::probe::{
    can_place, empty_entries, empty_slots, find_key, find_place, get_spec, pairs, place_spec, Slot,
};

verus! {

/// One slot of the table: a key (`0` when the slot is empty) and its value.
pub struct Entry {
    key: u32,
    value: u32,
}

impl Entry {
    /// An empty slot.
    pub fn new() -> (r: Self)
        ensures
            r.pair() == (0u32, 0u32),
    {
        Entry { key: 0, value: 0 }
    }
}

impl Slot for Entry {
    closed spec fn pair(&self) -> (u32, u32) {
        (self.key, self.value)
    }

    fn with_pair(key: u32, value: u32) -> (r: Self) {
        Entry { key, value }
    }

    fn key(&self) -> (r: u32) {
        self.key
    }

    fn value(&self) -> (r: u32) {
        self.value
    }
}

/// The hash of keys in this table, as a spec function value.
pub open spec fn key_hash() -> spec_fn(u32) -> u32 {
    |k: u32| murmur_spec(k)
}

/// An open-addressing table of `u32` keys and values, probed linearly.
pub struct HashTable {
    m_entries: Vec<Entry>,
    m_array_size: u32,
}

impl View for HashTable {
    type V = Map<u32, u32>;

    /// The map from each key held by the table to its value.
    closed spec fn view(&self) -> Map<u32, u32> {
        map_of(self.slots(), false)
    }
}

impl HashTable {
    /// The `(key, value)` pairs of the slots, in array order.
    pub closed spec fn slots(&self) -> Seq<(u32, u32)> {
        pairs(self.m_entries@)
    }

    /// The number of slots.
    pub closed spec fn capacity(&self) -> nat {
        self.m_array_size as nat
    }

    /// The table's invariant: as many slots as the (power of two) size, each
    /// key at most once and reachable from its home slot.
    pub closed spec fn wf(&self) -> bool {
        &&& self.m_entries@.len() == self.m_array_size
        &&& chain_ok(self.slots(), key_hash(), false)
    }

    /// An insert of `key` has a slot to take: the table holds `key` or has
    /// an empty slot.
    pub open spec fn has_room_for(&self, key: u32) -> bool {
        can_place(self.slots(), murmur_spec(key), key, false)
    }

    /// The facts of the invariant that callers rely on.
    pub proof fn lemma_wf(&self)
        requires
            self.wf(),
        ensures
            self.slots().len() == self.capacity(),
            is_pow2(self.capacity() as u32),
            self.capacity() <= u32::MAX,
            chain_ok(self.slots(), key_hash(), false),
    {
    }

    /// A table of `max_size` empty slots; `max_size` must be a power of two.
    pub fn new(max_size: u32) -> (r: Self)
        requires
            is_pow2(max_size),
        ensures
            r.wf(),
            r.capacity() == max_size,
            r.slots() == empty_slots(max_size as nat),
            r@ == Map::<u32, u32>::empty(),
    {
        let my_vec = empty_entries(max_size);
        proof {
            lemma_empty(max_size as nat, key_hash(), false);
        }
        HashTable { m_entries: my_vec, m_array_size: max_size }
    }

    /// Stores `value` under `key`: in the slot that already holds `key`, or
    /// else in the first empty slot of its probe path.
    ///
    /// Key `0` and value `0` are reserved for empty slots; the table must
    /// hold `key` or have an empty slot, or the probe would never end.
    pub fn set_item(&mut self, key: u32, value: u32)
        requires
            old(self).wf(),
            key != 0,
            value != 0,
            old(self).has_room_for(key),
        ensures
            final(self).wf(),
            final(self).capacity() == old(self).capacity(),
            final(self).slots() == place_spec(old(self).slots(), murmur_spec(key), key, value, false),
            final(self)@ == old(self)@.insert(key, value),
    {
        let idx = find_place(&self.m_entries, self.m_array_size, integer_hash(key), key, false);
        proof {
            lemma_place(self.slots(), key_hash(), false, key, value);
        }
        let i = idx.unwrap();
        self.m_entries.set(i, Entry::with_pair(key, value));
        assert(self.slots() =~= place_spec(old(self).slots(), murmur_spec(key), key, value, false));
    }

    /// The value stored under `key`, or `0` when the table does not hold it.
    ///
    /// Key `0` is reserved for empty slots.
    pub fn get_item(&self, key: u32) -> (r: u32)
        requires
            self.wf(),
            key != 0,
        ensures
            r == get_spec(self.slots(), murmur_spec(key), key),
            r == (if self@.contains_key(key) {
                self@[key]
            } else {
                0
            }),
    {
        proof {
            lemma_get(self.slots(), key_hash(), false, key);
        }
        match find_key(&self.m_entries, self.m_array_size, integer_hash(key), key) {
            Some(i) => self.m_entries[i].value(),
            None => 0,
        }
    }

    /// Whether the table holds `key` or has an empty slot, so that
    /// `set_item` may be called with `key`.
    pub fn has_room(&self, key: u32) -> (r: bool)
        requires
            self.wf(),
        ensures
            r == self.has_room_for(key),
    {
        find_place(&self.m_entries, self.m_array_size, integer_hash(key), key, false).is_some()
    }

    /// The values of all slots, in array order (`0` for an empty slot).
    pub fn slot_values(&self) -> (r: Vec<u32>)
        ensures
            r@ == self.slots().map_values(|p: (u32, u32)| p.1),
    {
        let mut r: Vec<u32> = Vec::new();
        let mut i: usize = 0;
        while i < self.m_entries.len()
            invariant
                0 <= i <= self.m_entries@.len(),
                r@ == self.slots().take(i as int).map_values(|p: (u32, u32)| p.1),
            decreases self.m_entries@.len() - i,
        {
            r.push(self.m_entries[i].value());
            i = i + 1;
            assert(r@ =~= self.slots().take(i as int).map_values(|p: (u32, u32)| p.1));
        }
        assert(self.slots().take(i as int) =~= self.slots());
        r
    }

    /// The number of slots.
    ///
    /// Despite its name this is the array size, not the number of stored
    /// items.
    pub fn get_item_count(&self) -> (r: u32)
        ensures
            r == self.capacity(),
    {
        self.m_array_size
    }

    /// Empties every slot; the size stays.
    pub fn clear(&mut self)
        requires
            old(self).wf(),
        ensures
            final(self).wf(),
            final(self).capacity() == old(self).capacity(),
            final(self).slots() == empty_slots(old(self).capacity()),
            final(self)@ == Map::<u32, u32>::empty(),
    {
        self.m_entries = empty_entries(self.m_array_size);
        proof {
            lemma_empty(self.m_array_size as nat, key_hash(), false);
        }
    }
}

impl HashTable {
    /// A lookup right after an insert gives the inserted value, and leaves
    /// every other key's lookup as it was.
    pub proof fn law_get_after_set(t: HashTable, key: u32, value: u32, other: u32)
        requires
            t.wf(),
            key != 0,
            t.has_room_for(key),
        ensures
            get_spec(
                place_spec(t.slots(), murmur_spec(key), key, value, false),
                murmur_spec(key),
                key,
            ) == value,
            other != 0 && other != key ==> get_spec(
                place_spec(t.slots(), murmur_spec(key), key, value, false),
                murmur_spec(other),
                other,
            ) == get_spec(t.slots(), murmur_spec(other), other),
    {
        let s = t.slots();
        let s2 = place_spec(s, murmur_spec(key), key, value, false);
        lemma_place(s, key_hash(), false, key, value);
        lemma_get(s2, key_hash(), false, key);
        if other != 0 && other != key {
            lemma_get(s, key_hash(), false, other);
            lemma_get(s2, key_hash(), false, other);
        }
    }
}

} // verus!
