//! Inserting into a table that grows, shared by the two growing tables.
//!
//! Both tables use tombstones and probe from one hash (`integer_hash`, or
//! `integer_hash2` when `xs`).  Their load is either an item counter, which
//! every insert raises by one (`counted`), or the number of slots whose key
//! and value are both non-zero.  After an insert whose load, over the size,
//! exceeds the load factor, the table doubles: a new array twice as large is
//! filled, in array order, by inserting every live entry of the old one
//! again, with the counter restarting from zero; an insert made there may
//! itself double the new array again.
use vstd::prelude::*;
use vstd::arithmetic::power2::{lemma2_to64, lemma_pow2_adds, lemma_pow2_pos, pow2};
use crate::chain::{
    chain_ok, fold_live, holds_key, is_key, keys_unique, lemma_empty, lemma_fold_live_is_map,
    lemma_get, lemma_live_update, lemma_place, lemma_remove, live_count, map_of,
};
use crate::hashing::{
    integer_hash, integer_hash2, is_pow2, lemma_double_pow2, lemma_pow2_bound, murmur_spec,
    next_power_of_2_double_the, xorshift_mul_spec,
};
use crate::load_factor::{law_exceeded_monotone, LoadFactor};
use crate::probe::{
    can_place, empty_entries, empty_slots, find_place, first_stop, found, free_key, get_spec,
    has_stop, is_live, is_stop, lemma_first_stop, pairs, place_spec, remove_spec, slot_of, Slot,
    TOMBSTONE,
};

verus! {

/// The hash a growing table probes from: `integer_hash2` when `xs`, else
/// `integer_hash`.
pub open spec fn table_hash(xs: bool, k: u32) -> u32 {
    if xs {
        xorshift_mul_spec(k)
    } else {
        murmur_spec(k)
    }
}

/// `table_hash(xs, _)` as a spec function value.
pub open spec fn hash_fn(xs: bool) -> spec_fn(u32) -> u32 {
    |k: u32| table_hash(xs, k)
}

/// The hash a growing table probes from.
pub fn hash_of(xs: bool, k: u32) -> (r: u32)
    ensures
        r == table_hash(xs, k),
{
    if xs {
        integer_hash2(k)
    } else {
        integer_hash(k)
    }
}

/// The number of slots whose key and value are both non-zero.
pub open spec fn valued_count(s: Seq<(u32, u32)>) -> nat
    decreases s.len(),
{
    if s.len() == 0 {
        0
    } else {
        valued_count(s.drop_last()) + (if s.last().0 != 0 && s.last().1 != 0 {
            1nat
        } else {
            0nat
        })
    }
}

pub proof fn lemma_valued_count_bound(s: Seq<(u32, u32)>)
    ensures
        valued_count(s) <= s.len(),
    decreases s.len(),
{
    if s.len() > 0 {
        lemma_valued_count_bound(s.drop_last());
    }
}

proof fn lemma_valued_count_empty(n: nat)
    ensures
        valued_count(empty_slots(n)) == 0,
    decreases n,
{
    if n > 0 {
        assert(empty_slots(n).drop_last() =~= empty_slots((n - 1) as nat));
        lemma_valued_count_empty((n - 1) as nat);
    }
}

/// A slot whose key and value are both non-zero.
pub open spec fn valued_pred() -> spec_fn((u32, u32)) -> bool {
    |p: (u32, u32)| p.0 != 0 && p.1 != 0
}

/// The scanned count is the number of slots whose key and value are both
/// non-zero.
pub proof fn law_valued_count_is_filter(s: Seq<(u32, u32)>)
    ensures
        valued_count(s) == s.filter(valued_pred()).len(),
    decreases s.len(),
{
    reveal(Seq::filter);
    if s.len() > 0 {
        law_valued_count_is_filter(s.drop_last());
    }
}

/// Appending a slot adds one to the scanned count exactly when its key and
/// value are both non-zero; the empty sequence counts zero.
pub proof fn law_valued_count_push(s: Seq<(u32, u32)>, p: (u32, u32))
    ensures
        valued_count(s.push(p)) == valued_count(s) + (if p.0 != 0 && p.1 != 0 {
            1int
        } else {
            0int
        }),
        valued_count(Seq::<(u32, u32)>::empty()) == 0,
{
    assert(s.push(p).drop_last() =~= s);
}

/// Overwriting one slot changes the scanned count by what it removes and
/// adds.
pub proof fn lemma_valued_update(s: Seq<(u32, u32)>, q: int, x: (u32, u32))
    requires
        0 <= q < s.len(),
    ensures
        valued_count(s.update(q, x)) + (if s[q].0 != 0 && s[q].1 != 0 {
            1int
        } else {
            0int
        }) == valued_count(s) + (if x.0 != 0 && x.1 != 0 {
            1int
        } else {
            0int
        }),
    decreases s.len(),
{
    if q == s.len() - 1 {
        assert(s.update(q, x).drop_last() =~= s.drop_last());
    } else {
        assert(s.update(q, x).drop_last() =~= s.drop_last().update(q, x));
        lemma_valued_update(s.drop_last(), q, x);
    }
}

/// The number of slots whose key and value are both non-zero.
pub fn count_valued<E: Slot>(entries: &Vec<E>) -> (r: u32)
    requires
        entries@.len() <= u32::MAX,
    ensures
        r == valued_count(pairs(entries@)),
{
    let ghost s = pairs(entries@);
    let mut count: u32 = 0;
    let mut idx: usize = 0;
    while idx < entries.len()
        invariant
            s == pairs(entries@),
            entries@.len() <= u32::MAX,
            idx <= entries@.len(),
            count == valued_count(s.take(idx as int)),
        decreases entries@.len() - idx,
    {
        proof {
            lemma_valued_count_bound(s.take(idx as int));
            assert(s.take(idx + 1).drop_last() =~= s.take(idx as int));
        }
        if entries[idx].key() != 0 && entries[idx].value() != 0 {
            count = count + 1;
        }
        idx = idx + 1;
    }
    assert(s.take(idx as int) =~= s);
    count
}

/// The load that growth compares with the threshold: the counter `c` when
/// `counted`, else the number of slots with non-zero key and value.
pub open spec fn load_of(s: Seq<(u32, u32)>, c: u32, counted: bool) -> nat {
    if counted {
        c as nat
    } else {
        valued_count(s)
    }
}

/// The counter after an insert: one more when `counted`, else unchanged.
pub open spec fn bumped(c: u32, counted: bool) -> u32 {
    if counted {
        (c + 1) as u32
    } else {
        c
    }
}

/// The slots and counter after inserting `(k, v)` into slots `s` with counter
/// `c`, or `None` where the insert cannot complete: `k` is `0` or `u32::MAX`,
/// `v` is `0`, no slot can take `k`, the counter would overflow, or the
/// array would have to grow beyond `2^31` slots.
pub open spec fn set_spec(
    s: Seq<(u32, u32)>,
    c: u32,
    lf: LoadFactor,
    xs: bool,
    counted: bool,
    k: u32,
    v: u32,
) -> Option<(Seq<(u32, u32)>, u32)>
    decreases 0x1_0000_0000 - s.len(), 1int, 0int,
{
    let h = table_hash(xs, k);
    if k == 0 || k == TOMBSTONE || v == 0 || !can_place(s, h, k, true) || (counted && c
        == u32::MAX) {
        None
    } else {
        let s1 = place_spec(s, h, k, v, true);
        let c1 = bumped(c, counted);
        if lf.is_exceeded_by(load_of(s1, c1, counted), s.len()) {
            if s.len() == 0 || s.len() > 0x4000_0000 {
                None
            } else {
                rehash_spec(s1, (empty_slots(2 * s.len()), 0u32), lf, xs, counted, 0)
            }
        } else {
            Some((s1, c1))
        }
    }
}

/// The slots and counter after inserting, with `set_spec`, the live entries
/// of `old[i..]` in order into `acc`, whose array is larger.
pub open spec fn rehash_spec(
    old: Seq<(u32, u32)>,
    acc: (Seq<(u32, u32)>, u32),
    lf: LoadFactor,
    xs: bool,
    counted: bool,
    i: int,
) -> Option<(Seq<(u32, u32)>, u32)>
    decreases 0x1_0000_0000 - old.len(), 0int, old.len() - i,
{
    if !(old.len() < acc.0.len() <= 0x8000_0000) || i < 0 {
        None
    } else if i >= old.len() {
        Some(acc)
    } else if is_live(old[i]) {
        match set_spec(acc.0, acc.1, lf, xs, counted, old[i].0, old[i].1) {
            Some(a2) => rehash_spec(old, a2, lf, xs, counted, i + 1),
            None => None,
        }
    } else {
        rehash_spec(old, acc, lf, xs, counted, i + 1)
    }
}

/// The invariant of a growing table's slots and counter.
pub open spec fn table_ok(s: Seq<(u32, u32)>, c: u32, xs: bool, counted: bool) -> bool {
    &&& chain_ok(s, hash_fn(xs), true)
    &&& (counted ==> live_count(s, 0) <= c)
}

/// An insert keeps the invariant, inserts into the map, leaves the load at
/// most the threshold, and multiplies the size by a power of two: it stays
/// the same exactly when the insert did not push the load over the
/// threshold.
pub proof fn law_set(
    s: Seq<(u32, u32)>,
    c: u32,
    lf: LoadFactor,
    xs: bool,
    counted: bool,
    k: u32,
    v: u32,
)
    requires
        table_ok(s, c, xs, counted),
        set_spec(s, c, lf, xs, counted, k, v) is Some,
    ensures
        ({
            let (t, c2) = set_spec(s, c, lf, xs, counted, k, v).unwrap();
            let grew = lf.is_exceeded_by(
                load_of(place_spec(s, table_hash(xs, k), k, v, true), bumped(c, counted), counted),
                s.len(),
            );
            &&& table_ok(t, c2, xs, counted)
            &&& map_of(t, true) == map_of(s, true).insert(k, v)
            &&& !lf.is_exceeded_by(load_of(t, c2, counted), t.len())
            &&& exists|j: nat| t.len() == s.len() * #[trigger] pow2(j)
            &&& !grew ==> t == place_spec(s, table_hash(xs, k), k, v, true) && c2 == bumped(
                c,
                counted,
            )
            &&& grew ==> t.len() >= 2 * s.len()
            &&& !counted && c == 0 ==> c2 == 0
        }),
    decreases 0x1_0000_0000 - s.len(), 1int, 0int,
{
    let h = table_hash(xs, k);
    let hf = hash_fn(xs);
    let n = s.len();
    let c1 = bumped(c, counted);
    lemma_place(s, hf, true, k, v);
    let s1 = place_spec(s, h, k, v, true);
    lemma2_to64();
    if lf.is_exceeded_by(load_of(s1, c1, counted), n) {
        lemma_double_pow2(n as u32);
        lemma_empty((2 * n) as nat, hf, true);
        lemma_valued_count_empty((2 * n) as nat);
        law_rehash(s1, (empty_slots(2 * n), 0u32), lf, xs, counted, 0);
        lemma_fold_live_is_map(s1);
        let (t, c2) = set_spec(s, c, lf, xs, counted, k, v).unwrap();
        let j = choose|j: nat| t.len() == (2 * n) * #[trigger] pow2(j);
        lemma_pow2_pos(j);
        assert(t.len() == n * pow2(j + 1)) by {
            vstd::arithmetic::power2::lemma_pow2_unfold(j + 1);
            assert((2 * n) * pow2(j) == n * (2 * pow2(j))) by (nonlinear_arith);
        }
        assert(t.len() >= 2 * n) by (nonlinear_arith)
            requires
                t.len() == (2 * n) * pow2(j),
                pow2(j) > 0,
        ;
    } else {
        assert(s1.len() == n * pow2(0));
    }
}

/// Re-inserting the live entries of `old[i..]` into `acc` keeps the
/// invariant, folds the entries into the map, leaves the load at most the
/// threshold, and multiplies the size by a power of two.
pub proof fn law_rehash(
    old: Seq<(u32, u32)>,
    acc: (Seq<(u32, u32)>, u32),
    lf: LoadFactor,
    xs: bool,
    counted: bool,
    i: int,
)
    requires
        table_ok(acc.0, acc.1, xs, counted),
        !lf.is_exceeded_by(load_of(acc.0, acc.1, counted), acc.0.len()),
        0 <= i <= old.len(),
        rehash_spec(old, acc, lf, xs, counted, i) is Some,
    ensures
        ({
            let (t, c2) = rehash_spec(old, acc, lf, xs, counted, i).unwrap();
            &&& table_ok(t, c2, xs, counted)
            &&& map_of(t, true) == fold_live(map_of(acc.0, true), old, i)
            &&& !lf.is_exceeded_by(load_of(t, c2, counted), t.len())
            &&& exists|j: nat| t.len() == acc.0.len() * #[trigger] pow2(j)
            &&& !counted && acc.1 == 0 ==> c2 == 0
        }),
    decreases 0x1_0000_0000 - old.len(), 0int, old.len() - i,
{
    lemma2_to64();
    if i < old.len() {
        if is_live(old[i]) {
            let a2 = set_spec(acc.0, acc.1, lf, xs, counted, old[i].0, old[i].1).unwrap();
            law_set(acc.0, acc.1, lf, xs, counted, old[i].0, old[i].1);
            law_rehash(old, a2, lf, xs, counted, i + 1);
            let t = rehash_spec(old, acc, lf, xs, counted, i).unwrap().0;
            let j1 = choose|j: nat| a2.0.len() == acc.0.len() * #[trigger] pow2(j);
            let j2 = choose|j: nat| t.len() == a2.0.len() * #[trigger] pow2(j);
            lemma_pow2_adds(j1, j2);
            assert(t.len() == acc.0.len() * pow2(j1 + j2)) by (nonlinear_arith)
                requires
                    a2.0.len() == acc.0.len() * pow2(j1),
                    t.len() == a2.0.len() * pow2(j2),
                    pow2(j1 + j2) == pow2(j1) * pow2(j2),
            ;
        } else {
            law_rehash(old, acc, lf, xs, counted, i + 1);
        }
    } else {
        assert(acc.0.len() == acc.0.len() * pow2(0));
    }
}

/// Growing keeps the map: re-inserting every live entry of a table into an
/// empty array twice as large gives a table that stands for the same map.
pub proof fn law_growth_keeps_map(
    s: Seq<(u32, u32)>,
    c: u32,
    lf: LoadFactor,
    xs: bool,
    counted: bool,
)
    requires
        table_ok(s, c, xs, counted),
        0 < s.len() <= 0x4000_0000,
        rehash_spec(s, (empty_slots(2 * s.len()), 0u32), lf, xs, counted, 0) is Some,
    ensures
        map_of(rehash_spec(s, (empty_slots(2 * s.len()), 0u32), lf, xs, counted, 0).unwrap().0, true)
            == map_of(s, true),
{
    let n = s.len();
    lemma_double_pow2(n as u32);
    lemma_empty((2 * n) as nat, hash_fn(xs), true);
    lemma_valued_count_empty((2 * n) as nat);
    law_rehash(s, (empty_slots(2 * n), 0u32), lf, xs, counted, 0);
    lemma_fold_live_is_map(s);
}

/// A removal keeps the invariant, removes from the map, and with a counter,
/// takes one off it when it finds the key.
pub proof fn law_remove(s: Seq<(u32, u32)>, c: u32, xs: bool, counted: bool, k: u32)
    requires
        table_ok(s, c, xs, counted),
        is_key(k, true),
    ensures
        table_ok(
            remove_spec(s, table_hash(xs, k), k),
            if counted && found(s, table_hash(xs, k), k) {
                (c - 1) as u32
            } else {
                c
            },
            xs,
            counted,
        ),
        map_of(remove_spec(s, table_hash(xs, k), k), true) == map_of(s, true).remove(k),
        found(s, table_hash(xs, k), k) == map_of(s, true).contains_key(k),
        found(s, table_hash(xs, k), k) ==> live_count(s, 0) >= 1,
{
    lemma_remove(s, hash_fn(xs), k);
    lemma_get(s, hash_fn(xs), true, k);
    if found(s, table_hash(xs, k), k) {
        crate::chain::lemma_live_positive(
            s,
            crate::probe::slot_of(s, table_hash(xs, k), k),
            0,
        );
    }
}

/// Under the invariant a lookup gives the map's value, or `0`.
pub proof fn law_get(s: Seq<(u32, u32)>, c: u32, xs: bool, counted: bool, k: u32)
    requires
        table_ok(s, c, xs, counted),
        is_key(k, true),
    ensures
        get_spec(s, table_hash(xs, k), k) == (if map_of(s, true).contains_key(k) {
            map_of(s, true)[k]
        } else {
            0
        }),
{
    lemma_get(s, hash_fn(xs), true, k);
}

/// A removal right after an insert of a new key gives the table's map back,
/// and, where the insert did not grow the table, its counter too.
pub proof fn law_remove_undoes_set(
    s: Seq<(u32, u32)>,
    c: u32,
    lf: LoadFactor,
    xs: bool,
    counted: bool,
    k: u32,
    v: u32,
)
    requires
        table_ok(s, c, xs, counted),
        set_spec(s, c, lf, xs, counted, k, v) is Some,
        !map_of(s, true).contains_key(k),
    ensures
        ({
            let (t, c2) = set_spec(s, c, lf, xs, counted, k, v).unwrap();
            &&& map_of(remove_spec(t, table_hash(xs, k), k), true) == map_of(s, true)
            &&& found(t, table_hash(xs, k), k)
            &&& (counted && t.len() == s.len() ==> (c2 - 1) as u32 == c)
        }),
{
    law_set(s, c, lf, xs, counted, k, v);
    let (t, c2) = set_spec(s, c, lf, xs, counted, k, v).unwrap();
    law_remove(t, c2, xs, counted, k);
    assert(map_of(s, true).insert(k, v).remove(k) =~= map_of(s, true));
}

/// An insert that needs no growth completes: when the key and value are not
/// reserved, some slot can take the key, the counter is below `u32::MAX`,
/// and the load after the insert does not exceed the threshold, the insert
/// writes `(k, v)` where it goes and, with a counter, adds one to it.
pub proof fn law_set_completes_without_growth(
    s: Seq<(u32, u32)>,
    c: u32,
    lf: LoadFactor,
    xs: bool,
    counted: bool,
    k: u32,
    v: u32,
)
    requires
        k != 0,
        k != TOMBSTONE,
        v != 0,
        can_place(s, table_hash(xs, k), k, true),
        counted ==> c < u32::MAX,
        counted ==> !lf.is_exceeded_by((c + 1) as nat, s.len()),
        !counted ==> !lf.is_exceeded_by(
            valued_count(place_spec(s, table_hash(xs, k), k, v, true)),
            s.len(),
        ),
    ensures
        set_spec(s, c, lf, xs, counted, k, v) == Some(
            (
                place_spec(s, table_hash(xs, k), k, v, true),
                if counted {
                    (c + 1) as u32
                } else {
                    c
                },
            ),
        ),
{
}

/// Replacing the value of a key the table holds completes when no growth is
/// needed: the key's slot gets the new value, no other slot changes, and
/// with a counter, it goes up by one.
pub proof fn law_update_completes(
    s: Seq<(u32, u32)>,
    c: u32,
    lf: LoadFactor,
    xs: bool,
    counted: bool,
    k: u32,
    v: u32,
)
    requires
        k != 0,
        k != TOMBSTONE,
        v != 0,
        found(s, table_hash(xs, k), k),
        counted ==> c < u32::MAX,
        counted ==> !lf.is_exceeded_by((c + 1) as nat, s.len()),
        !counted ==> !lf.is_exceeded_by(
            valued_count(s.update(slot_of(s, table_hash(xs, k), k), (k, v))),
            s.len(),
        ),
    ensures
        set_spec(s, c, lf, xs, counted, k, v) == Some(
            (
                s.update(slot_of(s, table_hash(xs, k), k), (k, v)),
                if counted {
                    (c + 1) as u32
                } else {
                    c
                },
            ),
        ),
{
    law_set_completes_without_growth(s, c, lf, xs, counted, k, v);
}

pub proof fn lemma_live_bound(s: Seq<(u32, u32)>, i: int)
    requires
        0 <= i <= s.len(),
    ensures
        live_count(s, i) <= s.len() - i,
    decreases s.len() - i,
{
    if i < s.len() {
        lemma_live_bound(s, i + 1);
    }
}

/// When fewer than all slots from `i` on are live, one of them is not.
pub proof fn lemma_not_live_exists(s: Seq<(u32, u32)>, i: int)
    requires
        0 <= i <= s.len(),
        live_count(s, i) < s.len() - i,
    ensures
        exists|j: int| i <= j < s.len() && !is_live(#[trigger] s[j]),
    decreases s.len() - i,
{
    lemma_live_bound(s, i + 1);
    if is_live(s[i]) {
        lemma_not_live_exists(s, i + 1);
    }
}

/// Every slot is empty or a live entry with a non-zero value.
pub open spec fn tidy(t: Seq<(u32, u32)>) -> bool {
    forall|j: int|
        0 <= j < t.len() ==> (is_live(#[trigger] t[j]) && t[j].1 != 0) || t[j] == (0u32, 0u32)
}

/// Growing succeeds below the size limit: re-inserting the live entries of a
/// table with unique live keys and non-zero values into an empty array twice
/// as large completes, with no further growth, whenever all of them fit
/// there under the threshold.
pub proof fn law_growth_completes(
    s: Seq<(u32, u32)>,
    c: u32,
    lf: LoadFactor,
    xs: bool,
    counted: bool,
)
    requires
        table_ok(s, c, xs, counted),
        0 < s.len() <= 0x4000_0000,
        forall|i: int| 0 <= i < s.len() && is_live(#[trigger] s[i]) ==> s[i].1 != 0,
        !lf.is_exceeded_by(live_count(s, 0), 2 * s.len()),
    ensures
        rehash_spec(s, (empty_slots(2 * s.len()), 0u32), lf, xs, counted, 0) is Some,
        rehash_spec(s, (empty_slots(2 * s.len()), 0u32), lf, xs, counted, 0).unwrap().0.len() == 2
            * s.len(),
        live_count(rehash_spec(s, (empty_slots(2 * s.len()), 0u32), lf, xs, counted, 0).unwrap().0, 0)
            == live_count(s, 0),
        rehash_spec(s, (empty_slots(2 * s.len()), 0u32), lf, xs, counted, 0).unwrap().1 == (if counted {
            live_count(s, 0)
        } else {
            0
        }),
{
    let n = s.len();
    lemma_double_pow2(n as u32);
    lemma_empty((2 * n) as nat, hash_fn(xs), true);
    lemma_valued_count_empty((2 * n) as nat);
    lemma_growth_step(s, (empty_slots(2 * n), 0u32), lf, xs, counted, 0);
}

proof fn lemma_growth_step(
    s: Seq<(u32, u32)>,
    acc: (Seq<(u32, u32)>, u32),
    lf: LoadFactor,
    xs: bool,
    counted: bool,
    i: int,
)
    requires
        keys_unique(s, true),
        0 < s.len() <= 0x4000_0000,
        forall|m: int| 0 <= m < s.len() && is_live(#[trigger] s[m]) ==> s[m].1 != 0,
        !lf.is_exceeded_by(live_count(s, 0), 2 * s.len()),
        0 <= i <= s.len(),
        chain_ok(acc.0, hash_fn(xs), true),
        acc.0.len() == 2 * s.len(),
        tidy(acc.0),
        live_count(acc.0, 0) + live_count(s, i) == live_count(s, 0),
        counted ==> acc.1 == live_count(acc.0, 0),
        !counted ==> valued_count(acc.0) == live_count(acc.0, 0),
        forall|j: int|
            0 <= j < acc.0.len() && is_live(#[trigger] acc.0[j]) ==> exists|m: int|
                0 <= m < i && s[m].0 == acc.0[j].0,
    ensures
        rehash_spec(s, acc, lf, xs, counted, i) is Some,
        rehash_spec(s, acc, lf, xs, counted, i).unwrap().0.len() == 2 * s.len(),
        live_count(rehash_spec(s, acc, lf, xs, counted, i).unwrap().0, 0) == live_count(s, 0),
        rehash_spec(s, acc, lf, xs, counted, i).unwrap().1 == (if counted {
            live_count(s, 0)
        } else {
            acc.1 as nat
        }),
    decreases s.len() - i,
{
    let n = s.len();
    let a = acc.0;
    lemma_live_bound(s, 0);
    lemma_live_bound(s, i);
    if i < n {
        if is_live(s[i]) {
            let k = s[i].0;
            let v = s[i].1;
            let h = table_hash(xs, k);
            let total = live_count(s, 0);
            let before = live_count(a, 0);
            assert(before + 1 <= total);
            // The key is not in the new array yet.
            assert(!holds_key(a, k)) by {
                if holds_key(a, k) {
                    let j = choose|j: int| 0 <= j < a.len() && #[trigger] a[j].0 == k;
                    assert(is_live(a[j]));
                    let m = choose|m: int| 0 <= m < i && s[m].0 == a[j].0;
                    assert(s[m].0 == s[i].0);
                }
            }
            lemma_first_stop(a, h, k);
            assert(!found(a, h, k));
            // A free slot remains.
            lemma_not_live_exists(a, 0);
            let j0 = choose|j: int| 0 <= j < a.len() && !is_live(#[trigger] a[j]);
            assert(is_stop(a[j0].0, free_key(true)));
            assert(has_stop(a, free_key(true)));
            lemma_first_stop(a, h, free_key(true));
            let p = slot_of(a, h, free_key(true));
            assert(a[p] == (0u32, 0u32));
            let t = place_spec(a, h, k, v, true);
            assert(t == a.update(p, (k, v)));
            lemma_live_update(a, p, (k, v), 0);
            lemma_valued_update(a, p, (k, v));
            // No growth is needed.
            if counted {
                if lf.is_exceeded_by((acc.1 + 1) as nat, a.len()) {
                    law_exceeded_monotone(lf, (acc.1 + 1) as nat, total, a.len());
                }
            } else {
                if lf.is_exceeded_by(valued_count(t), a.len()) {
                    law_exceeded_monotone(lf, valued_count(t), total, a.len());
                }
            }
            law_set_completes_without_growth(a, acc.1, lf, xs, counted, k, v);
            lemma_place(a, hash_fn(xs), true, k, v);
            let c2: u32 = if counted {
                (acc.1 + 1) as u32
            } else {
                acc.1
            };
            assert forall|j: int|
                0 <= j < t.len() && is_live(#[trigger] t[j]) implies exists|m: int|
                0 <= m < i + 1 && s[m].0 == t[j].0 by {
                if j == p {
                    assert(s[i].0 == t[j].0);
                } else {
                    assert(t[j] == a[j]);
                    let m = choose|m: int| 0 <= m < i && s[m].0 == a[j].0;
                    assert(s[m].0 == t[j].0);
                }
            }
            lemma_growth_step(s, (t, c2), lf, xs, counted, i + 1);
        } else {
            lemma_growth_step(s, acc, lf, xs, counted, i + 1);
        }
    }
}

/// Inserts `(key, value)` into the table held by `entries`, `size` and
/// `count`, growing it when the load exceeds `lf`; returns whether the insert
/// completed.  When it cannot complete, nothing changes.
pub fn insert_or_grow<E: Slot>(
    entries: &mut Vec<E>,
    size: &mut u32,
    count: &mut u32,
    lf: LoadFactor,
    xs: bool,
    counted: bool,
    key: u32,
    value: u32,
) -> (ok: bool)
    requires
        old(entries)@.len() == *old(size),
        is_pow2(*old(size)),
    ensures
        final(entries)@.len() == *final(size),
        is_pow2(*final(size)),
        *final(size) >= *old(size),
        ok == set_spec(pairs(old(entries)@), *old(count), lf, xs, counted, key, value) is Some,
        ok ==> Some((pairs(final(entries)@), *final(count))) == set_spec(
            pairs(old(entries)@),
            *old(count),
            lf,
            xs,
            counted,
            key,
            value,
        ),
        !ok ==> pairs(final(entries)@) == pairs(old(entries)@) && *final(count) == *old(count)
            && *final(size) == *old(size),
    decreases 0x1_0000_0000 - *old(size), 1int,
{
    let ghost s = pairs(entries@);
    if key == 0 || key == TOMBSTONE || value == 0 {
        return false;
    }
    if counted && *count == u32::MAX {
        return false;
    }
    let place = find_place(entries, *size, hash_of(xs, key), key, true);
    if place.is_none() {
        return false;
    }
    let p = place.unwrap();
    let old_key = entries[p].key();
    let old_value = entries[p].value();
    entries.set(p, E::with_pair(key, value));
    let ghost s1 = pairs(entries@);
    assert(s1 =~= place_spec(s, table_hash(xs, key), key, value, true));
    let c1: u32 = if counted {
        *count + 1
    } else {
        *count
    };
    let load: u32 = if counted {
        c1
    } else {
        count_valued(entries)
    };
    if lf.exceeded_by(load, *size) {
        if *size > 0x4000_0000 {
            entries.set(p, E::with_pair(old_key, old_value));
            assert(pairs(entries@) =~= s);
            return false;
        }
        match resize(entries, *size, lf, xs, counted) {
            Some(grown) => {
                let (new_entries, new_size, new_count) = grown;
                *entries = new_entries;
                *size = new_size;
                *count = new_count;
                true
            },
            None => {
                entries.set(p, E::with_pair(old_key, old_value));
                assert(pairs(entries@) =~= s);
                false
            },
        }
    } else {
        *count = c1;
        true
    }
}

/// The table obtained by inserting, with `insert_or_grow`, every live entry
/// of `old` in array order into an empty array twice as large, as its
/// entries, size and counter; `None` when one of the inserts cannot
/// complete.
pub fn resize<E: Slot>(old: &Vec<E>, size: u32, lf: LoadFactor, xs: bool, counted: bool) -> (r:
    Option<(Vec<E>, u32, u32)>)
    requires
        old@.len() == size,
        is_pow2(size),
        0 < size <= 0x4000_0000,
    ensures
        r is Some == rehash_spec(pairs(old@), (empty_slots((2 * size) as nat), 0u32), lf, xs, counted, 0) is Some,
        r is Some ==> Some((pairs(r.unwrap().0@), r.unwrap().2)) == rehash_spec(
            pairs(old@),
            (empty_slots((2 * size) as nat), 0u32),
            lf,
            xs,
            counted,
            0,
        ),
        r is Some ==> r.unwrap().0@.len() == r.unwrap().1 && is_pow2(r.unwrap().1) && r.unwrap().1 > size,
    decreases 0x1_0000_0000 - size, 0int,
{
    let ghost old_slots = pairs(old@);
    let ghost target = rehash_spec(old_slots, (empty_slots((2 * size) as nat), 0u32), lf, xs, counted, 0);
    let new_size0 = next_power_of_2_double_the(size);
    let mut new_entries: Vec<E> = empty_entries(new_size0);
    let mut new_size: u32 = new_size0;
    let mut new_count: u32 = 0;
    let mut i: u32 = 0;
    while i < size
        invariant
            old_slots == pairs(old@),
            old@.len() == size,
            is_pow2(size),
            0 < size <= 0x4000_0000,
            new_entries@.len() == new_size,
            is_pow2(new_size),
            new_size > size,
            i <= size,
            target == rehash_spec(old_slots, (empty_slots((2 * size) as nat), 0u32), lf, xs, counted, 0),
            rehash_spec(old_slots, (pairs(new_entries@), new_count), lf, xs, counted, i as int)
                == target,
        decreases size - i,
    {
        proof {
            lemma_pow2_bound(new_size);
        }
        let k = old[i as usize].key();
        assert(k == old_slots[i as int].0);
        if k != 0 && k != TOMBSTONE {
            let v = old[i as usize].value();
            let ok = insert_or_grow(
                &mut new_entries,
                &mut new_size,
                &mut new_count,
                lf,
                xs,
                counted,
                k,
                v,
            );
            if !ok {
                return None;
            }
        }
        i = i + 1;
    }
    proof {
        lemma_pow2_bound(new_size);
    }
    Some((new_entries, new_size, new_count))
}

} // verus!
