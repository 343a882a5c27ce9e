//! Linear probing over a power-of-two array of `(key, value)` slots.
//!
//! A probe for `key` starts at the home slot `hash & (n - 1)` and walks
//! forward one slot at a time, wrapping around, until it reaches a slot that
//! holds `key` or an empty slot (key `0`), or has visited every slot.  A
//! tombstone (key `u32::MAX`, where removal is in use) does not stop it.
//!
//! A lookup reads the slot where the probe stops when it holds `key`.  An
//! insert writes there when the probe found `key`; otherwise it writes at
//! the first slot of the probe path that is free: empty, or a tombstone
//! where tombstones are in use.  A removal turns the found slot into a
//! tombstone.
use vstd::prelude::*;
use vstd::arithmetic::div_mod::lemma_add_mod_noop;
use crate::hashing::{is_pow2, lemma_mask};

verus! {

/// The key that marks a removed entry.
pub const TOMBSTONE: u32 = 0xffff_ffffu32;

/// A slot of a table: something that holds a key and a value.
pub trait Slot: Sized {
    /// The `(key, value)` pair held by the slot.
    spec fn pair(&self) -> (u32, u32);

    /// A slot holding `key` and `value`.
    fn with_pair(key: u32, value: u32) -> (r: Self)
        ensures
            r.pair() == (key, value),
    ;

    /// The slot's key.
    fn key(&self) -> (r: u32)
        ensures
            r == self.pair().0,
    ;

    /// The slot's value.
    fn value(&self) -> (r: u32)
        ensures
            r == self.pair().1,
    ;
}

/// The pairs held by a sequence of slots.
pub open spec fn pairs<E: Slot>(s: Seq<E>) -> Seq<(u32, u32)> {
    s.map_values(|e: E| e.pair())
}

/// The slot at which a probe for a value hashed to `h` starts.
pub open spec fn home(h: u32, n: nat) -> int {
    (h & ((n - 1) as u32)) as int
}

/// The slot that a probe starting from hash `h` visits at step `j`.
pub open spec fn pos(h: u32, n: nat, j: int) -> int {
    (home(h, n) + j) % (n as int)
}

/// How many steps a probe starting from hash `h` takes to reach slot `i`.
pub open spec fn dist(h: u32, n: nat, i: int) -> int {
    (i - home(h, n) + n) % (n as int)
}

/// A slot whose key is `slot_key` stops a probe for `key`.
pub open spec fn is_stop(slot_key: u32, key: u32) -> bool {
    slot_key == key || slot_key == 0
}

/// Some slot of `s` stops a probe for `key`.
pub open spec fn has_stop(s: Seq<(u32, u32)>, key: u32) -> bool {
    exists|i: int| 0 <= i < s.len() && is_stop(#[trigger] s[i].0, key)
}

/// The first step, from step `j` on, at which a probe for `key` from hash `h`
/// stops; `s.len()` when it stops nowhere.
pub open spec fn stop_from(s: Seq<(u32, u32)>, h: u32, key: u32, j: int) -> int
    decreases s.len() - j,
{
    if j < 0 || j >= s.len() {
        s.len() as int
    } else if is_stop(s[pos(h, s.len(), j)].0, key) {
        j
    } else {
        stop_from(s, h, key, j + 1)
    }
}

/// The step at which a probe for `key` from hash `h` stops (`s.len()` when
/// it visits every slot without stopping).
pub open spec fn first_stop(s: Seq<(u32, u32)>, h: u32, key: u32) -> int {
    stop_from(s, h, key, 0)
}

/// The slot at which a probe for `key` from hash `h` stops.
pub open spec fn slot_of(s: Seq<(u32, u32)>, h: u32, key: u32) -> int {
    pos(h, s.len(), first_stop(s, h, key))
}

/// The table of `n` empty slots.
pub open spec fn empty_slots(n: nat) -> Seq<(u32, u32)> {
    Seq::new(n, |i: int| (0u32, 0u32))
}

/// A slot that holds an entry: neither empty nor a tombstone.
pub open spec fn is_live(p: (u32, u32)) -> bool {
    p.0 != 0 && p.0 != TOMBSTONE
}

/// The key whose probe stops at the slots an insert of a new key may take:
/// `u32::MAX` (stopping at tombstones and empty slots) where tombstones are in
/// use, else `0` (stopping at empty slots only).
pub open spec fn free_key(tomb: bool) -> u32 {
    if tomb {
        TOMBSTONE
    } else {
        0
    }
}

/// The probe for `key` from hash `h` finds `key`.
pub open spec fn found(s: Seq<(u32, u32)>, h: u32, key: u32) -> bool {
    first_stop(s, h, key) < s.len() && s[slot_of(s, h, key)].0 == key
}

/// The value that a lookup of `key` gives: the value of the slot where the
/// probe found it, else `0`.
pub open spec fn get_spec(s: Seq<(u32, u32)>, h: u32, key: u32) -> u32 {
    if found(s, h, key) {
        s[slot_of(s, h, key)].1
    } else {
        0
    }
}

/// An insert of `key` has a slot to take: the probe finds `key`, or some slot
/// is free.
pub open spec fn can_place(s: Seq<(u32, u32)>, h: u32, key: u32, tomb: bool) -> bool {
    found(s, h, key) || has_stop(s, free_key(tomb))
}

/// The slot that an insert of `key` takes.
pub open spec fn place_slot(s: Seq<(u32, u32)>, h: u32, key: u32, tomb: bool) -> int {
    if found(s, h, key) {
        slot_of(s, h, key)
    } else {
        slot_of(s, h, free_key(tomb))
    }
}

/// `s` after inserting `(key, value)`.
pub open spec fn place_spec(s: Seq<(u32, u32)>, h: u32, key: u32, value: u32, tomb: bool) -> Seq<
    (u32, u32),
> {
    s.update(place_slot(s, h, key, tomb), (key, value))
}

/// `s` after removing `key`: the slot where the probe found it becomes a
/// tombstone that keeps the value; nothing changes when it is not found.
pub open spec fn remove_spec(s: Seq<(u32, u32)>, h: u32, key: u32) -> Seq<(u32, u32)> {
    if found(s, h, key) {
        s.update(slot_of(s, h, key), (TOMBSTONE, s[slot_of(s, h, key)].1))
    } else {
        s
    }
}

pub proof fn lemma_home(h: u32, n: nat)
    requires
        n <= u32::MAX,
        is_pow2(n as u32),
    ensures
        0 <= home(h, n) < n,
{
    lemma_mask(h, n as u32);
}

/// Probing from hash `h`, step `dist(h, n, i)` visits slot `i`, and step `j`
/// is `dist` steps away from home.
pub proof fn lemma_pos_dist(h: u32, n: nat, i: int, j: int)
    requires
        n <= u32::MAX,
        is_pow2(n as u32),
    ensures
        0 <= i < n ==> 0 <= dist(h, n, i) < n && pos(h, n, dist(h, n, i)) == i,
        0 <= j < n ==> 0 <= pos(h, n, j) < n && dist(h, n, pos(h, n, j)) == j,
{
    lemma_home(h, n);
    let m = home(h, n);
    let nn = n as int;
    if 0 <= i < n {
        if i >= m {
            assert((i - m + nn) % nn == i - m) by {
                vstd::arithmetic::div_mod::lemma_mod_add_multiples_vanish(i - m, nn);
                vstd::arithmetic::div_mod::lemma_small_mod((i - m) as nat, nn as nat);
            }
            vstd::arithmetic::div_mod::lemma_small_mod(i as nat, nn as nat);
        } else {
            vstd::arithmetic::div_mod::lemma_small_mod((i - m + nn) as nat, nn as nat);
            assert((m + (i - m + nn)) % nn == i) by {
                vstd::arithmetic::div_mod::lemma_mod_add_multiples_vanish(i, nn);
                vstd::arithmetic::div_mod::lemma_small_mod(i as nat, nn as nat);
            }
        }
    }
    if 0 <= j < n {
        if m + j < nn {
            vstd::arithmetic::div_mod::lemma_small_mod((m + j) as nat, nn as nat);
            vstd::arithmetic::div_mod::lemma_small_mod(j as nat, nn as nat);
            assert((m + j - m + nn) % nn == j) by {
                vstd::arithmetic::div_mod::lemma_mod_add_multiples_vanish(j, nn);
            }
        } else {
            assert((m + j) % nn == m + j - nn) by {
                vstd::arithmetic::div_mod::lemma_mod_sub_multiples_vanish(m + j, nn);
                vstd::arithmetic::div_mod::lemma_small_mod((m + j - nn) as nat, nn as nat);
            }
            vstd::arithmetic::div_mod::lemma_small_mod(j as nat, nn as nat);
        }
    }
}

/// One more step from a visited slot is the next slot, wrapping around.
pub proof fn lemma_pos_next(h: u32, n: nat, j: int)
    requires
        n <= u32::MAX,
        is_pow2(n as u32),
        0 <= j,
    ensures
        0 <= pos(h, n, j) < n,
        pos(h, n, j) + 1 < n ==> pos(h, n, j + 1) == pos(h, n, j) + 1,
        pos(h, n, j) + 1 == n ==> pos(h, n, j + 1) == 0,
{
    lemma_home(h, n);
    let nn = n as int;
    let a = home(h, n) + j;
    lemma_add_mod_noop(a, 1, nn);
    if nn == 1 {
        assert(pos(h, n, j + 1) == 0);
    } else {
        vstd::arithmetic::div_mod::lemma_small_mod(1, nn as nat);
        let p = a % nn;
        if p + 1 < nn {
            vstd::arithmetic::div_mod::lemma_small_mod((p + 1) as nat, nn as nat);
        } else {
            vstd::arithmetic::div_mod::lemma_mod_self_0(nn);
        }
    }
}

/// What the recursion of `stop_from` amounts to.
pub proof fn lemma_stop_from(s: Seq<(u32, u32)>, h: u32, key: u32, j: int)
    requires
        0 <= j <= s.len(),
    ensures
        j <= stop_from(s, h, key, j) <= s.len(),
        stop_from(s, h, key, j) < s.len() ==> is_stop(
            s[pos(h, s.len(), stop_from(s, h, key, j))].0,
            key,
        ),
        forall|m: int|
            j <= m < stop_from(s, h, key, j) ==> !is_stop(#[trigger] s[pos(h, s.len(), m)].0, key),
    decreases s.len() - j,
{
    if j < s.len() {
        lemma_stop_from(s, h, key, j + 1);
    }
}

/// The probe stops within `n` steps, at a stopping slot, having passed only
/// slots that do not stop it; it stops somewhere exactly when some slot
/// would stop it.
pub proof fn lemma_first_stop(s: Seq<(u32, u32)>, h: u32, key: u32)
    requires
        s.len() <= u32::MAX,
        is_pow2(s.len() as u32),
    ensures
        0 <= first_stop(s, h, key) <= s.len(),
        0 <= slot_of(s, h, key) < s.len(),
        first_stop(s, h, key) < s.len() <==> has_stop(s, key),
        first_stop(s, h, key) < s.len() ==> is_stop(s[slot_of(s, h, key)].0, key),
        first_stop(s, h, key) < s.len() ==> dist(h, s.len(), slot_of(s, h, key)) == first_stop(
            s,
            h,
            key,
        ),
        forall|m: int|
            0 <= m < first_stop(s, h, key) ==> !is_stop(#[trigger] s[pos(h, s.len(), m)].0, key),
{
    let n = s.len();
    lemma_stop_from(s, h, key, 0);
    let fs = first_stop(s, h, key);
    lemma_home(h, n);
    vstd::arithmetic::div_mod::lemma_mod_bound(home(h, n) + fs, n as int);
    if has_stop(s, key) {
        let i = choose|i: int| 0 <= i < s.len() && is_stop(#[trigger] s[i].0, key);
        lemma_pos_dist(h, n, i, 0);
        let d = dist(h, n, i);
        if fs == n {
            assert(!is_stop(s[pos(h, n, d)].0, key));
        }
    }
    if fs < n {
        lemma_pos_dist(h, n, 0, fs);
        assert(is_stop(s[slot_of(s, h, key)].0, key));
    }
}

/// The slot where a probe for `key`, starting from hash `start`, stops, or
/// `None` when no slot stops it.
///
/// The loop visits `start & (size - 1)` and the slots after it, wrapping
/// around, at most `size` of them, until a slot holds `key` or is empty.
pub fn probe<E: Slot>(entries: &Vec<E>, size: u32, start: u32, key: u32) -> (r: Option<usize>)
    requires
        is_pow2(size),
        entries@.len() == size,
    ensures
        match r {
            Some(idx) => first_stop(pairs(entries@), start, key) < size && idx == slot_of(
                pairs(entries@),
                start,
                key,
            ),
            None => first_stop(pairs(entries@), start, key) == size,
        },
{
    let ghost s = pairs(entries@);
    let ghost n = s.len();
    proof {
        lemma_first_stop(s, start, key);
        lemma_stop_from(s, start, key, 0);
    }
    let ghost fs = first_stop(s, start, key);
    let mask: u32 = size - 1;
    let mut idx: u32 = start & mask;
    let mut j: u32 = 0;
    proof {
        lemma_home(start, n);
        vstd::arithmetic::div_mod::lemma_small_mod(home(start, n) as nat, n);
    }
    while j < size
        invariant
            s == pairs(entries@),
            n == s.len(),
            n == size,
            is_pow2(size),
            mask == size - 1,
            fs == first_stop(s, start, key),
            0 <= j <= fs <= n,
            stop_from(s, start, key, j as int) == fs,
            idx == pos(start, n, j as int),
            fs < n ==> is_stop(s[pos(start, n, fs)].0, key),
        decreases size - j,
    {
        proof {
            lemma_pos_next(start, n, j as int);
        }
        let k = entries[idx as usize].key();
        assert(k == s[idx as int].0);
        if k == key || k == 0 {
            return Some(idx as usize);
        }
        proof {
            lemma_mask((idx + 1) as u32, size);
            assert(stop_from(s, start, key, j as int) == stop_from(s, start, key, j + 1));
        }
        idx = (idx + 1) & mask;
        j = j + 1;
    }
    None
}

/// The slot holding `key` where its probe finds it, or `None`.
pub fn find_key<E: Slot>(entries: &Vec<E>, size: u32, start: u32, key: u32) -> (r: Option<usize>)
    requires
        is_pow2(size),
        entries@.len() == size,
    ensures
        r is Some <==> found(pairs(entries@), start, key),
        r is Some ==> r->0 == slot_of(pairs(entries@), start, key),
        r is Some ==> r->0 < size,
{
    proof {
        lemma_first_stop(pairs(entries@), start, key);
    }
    match probe(entries, size, start, key) {
        Some(i) => {
            if entries[i].key() == key {
                Some(i)
            } else {
                None
            }
        },
        None => None,
    }
}

/// The slot that an insert of `key` takes, or `None` when there is none.
pub fn find_place<E: Slot>(entries: &Vec<E>, size: u32, start: u32, key: u32, tomb: bool) -> (r:
    Option<usize>)
    requires
        is_pow2(size),
        entries@.len() == size,
    ensures
        r is Some <==> can_place(pairs(entries@), start, key, tomb),
        r is Some ==> r->0 == place_slot(pairs(entries@), start, key, tomb),
        r is Some ==> r->0 < size,
{
    proof {
        lemma_first_stop(pairs(entries@), start, free_key(tomb));
    }
    match find_key(entries, size, start, key) {
        Some(i) => Some(i),
        None => {
            let free: u32 = if tomb {
                TOMBSTONE
            } else {
                0
            };
            probe(entries, size, start, free)
        },
    }
}

/// A vector of `n` empty slots.
pub fn empty_entries<E: Slot>(n: u32) -> (v: Vec<E>)
    ensures
        pairs(v@) == empty_slots(n as nat),
        v@.len() == n,
{
    let mut v: Vec<E> = Vec::new();
    let mut i: u32 = 0;
    while i < n
        invariant
            i <= n,
            v@.len() == i,
            pairs(v@) == empty_slots(i as nat),
        decreases n - i,
    {
        let ghost before = v@;
        v.push(E::with_pair(0, 0));
        i = i + 1;
        assert forall|j: int| 0 <= j < i implies #[trigger] pairs(v@)[j] == (0u32, 0u32) by {
            if j < i - 1 {
                assert(v@[j] == before[j]);
                assert(pairs(before)[j] == empty_slots((i - 1) as nat)[j]);
            }
        }
        assert(pairs(v@) =~= empty_slots(i as nat));
    }
    v
}

/// A vector of slots holding the same pairs as `entries`.
pub fn copy_entries<E: Slot>(entries: &Vec<E>) -> (r: Vec<E>)
    ensures
        pairs(r@) == pairs(entries@),
{
    let mut r: Vec<E> = Vec::new();
    let mut i: usize = 0;
    while i < entries.len()
        invariant
            0 <= i <= entries@.len(),
            r@.len() == i,
            forall|j: int| 0 <= j < i ==> #[trigger] r@[j].pair() == entries@[j].pair(),
        decreases entries@.len() - i,
    {
        r.push(E::with_pair(entries[i].key(), entries[i].value()));
        i = i + 1;
    }
    assert(pairs(r@) =~= pairs(entries@));
    r
}

/// The pairs of all slots, in array order.
pub fn copy_pairs<E: Slot>(entries: &Vec<E>) -> (r: Vec<(u32, u32)>)
    ensures
        r@ == pairs(entries@),
{
    let mut r: Vec<(u32, u32)> = Vec::new();
    let mut i: usize = 0;
    while i < entries.len()
        invariant
            0 <= i <= entries@.len(),
            r@ == pairs(entries@).take(i as int),
        decreases entries@.len() - i,
    {
        r.push((entries[i].key(), entries[i].value()));
        i = i + 1;
        assert(r@ =~= pairs(entries@).take(i as int));
    }
    assert(pairs(entries@).take(i as int) =~= pairs(entries@));
    r
}

} // verus!
