//! The invariant of a linear-probing table: live keys occur at most once, and
//! every slot on the probe path from a live key's home slot to the slot
//! holding it is non-empty (a live entry or a tombstone).  Under it the table
//! stands for a map from live keys to values: a lookup finds a key exactly
//! when the map holds it, an insert inserts into the map, and a removal
//! removes from it.
//!
//! `tomb` tells whether `u32::MAX` marks tombstones; without tombstones every
//! non-zero key is live.
use vstd::prelude::*;
use crate::hashing::is_pow2;
use crate::probe::{
    can_place, dist, empty_slots, first_stop, found, free_key, get_spec, has_stop, is_live,
    is_stop, lemma_first_stop, lemma_pos_dist, place_spec, pos, remove_spec, slot_of, TOMBSTONE,
};

verus! {

/// A key that stands for an entry: non-zero and, with tombstones in use, not
/// `u32::MAX`.
pub open spec fn is_key(x: u32, tomb: bool) -> bool {
    x != 0 && !(tomb && x == TOMBSTONE)
}

/// No live key occurs in two slots.
pub open spec fn keys_unique(s: Seq<(u32, u32)>, tomb: bool) -> bool {
    forall|i: int, i2: int|
        #![trigger s[i], s[i2]]
        0 <= i < s.len() && 0 <= i2 < s.len() && is_key(s[i].0, tomb) && s[i].0 == s[i2].0 ==> i
            == i2
}

/// Every slot on the probe path from a live key's home slot to the slot
/// holding the key is non-empty.
pub open spec fn reachable(s: Seq<(u32, u32)>, hf: spec_fn(u32) -> u32, tomb: bool) -> bool {
    forall|i: int, d: int|
        #![trigger s[i], s[pos(hf(s[i].0), s.len(), d)]]
        0 <= i < s.len() && is_key(s[i].0, tomb) && 0 <= d < dist(hf(s[i].0), s.len(), i) ==> s[pos(
            hf(s[i].0),
            s.len(),
            d,
        )].0 != 0
}

/// The table invariant, keys hashed with `hf`.
pub open spec fn chain_ok(s: Seq<(u32, u32)>, hf: spec_fn(u32) -> u32, tomb: bool) -> bool {
    &&& s.len() <= u32::MAX
    &&& is_pow2(s.len() as u32)
    &&& keys_unique(s, tomb)
    &&& reachable(s, hf, tomb)
}

/// Some slot of `s` holds `k`.
pub open spec fn holds_key(s: Seq<(u32, u32)>, k: u32) -> bool {
    exists|i: int| 0 <= i < s.len() && #[trigger] s[i].0 == k
}

/// The map from each live key held by `s` to its value.
pub open spec fn map_of(s: Seq<(u32, u32)>, tomb: bool) -> Map<u32, u32> {
    Map::new(
        |k: u32| is_key(k, tomb) && holds_key(s, k),
        |k: u32| s[choose|i: int| 0 <= i < s.len() && #[trigger] s[i].0 == k].1,
    )
}

/// The number of live slots in `s[i..]`.
pub open spec fn live_count(s: Seq<(u32, u32)>, i: int) -> nat
    decreases s.len() - i,
{
    if i < 0 || i >= s.len() {
        0
    } else {
        (if is_live(s[i]) {
            1nat
        } else {
            0nat
        }) + live_count(s, i + 1)
    }
}

/// The map's value for `k` is the value of any slot holding `k`.
pub proof fn lemma_map_value(s: Seq<(u32, u32)>, tomb: bool, k: u32, i: int)
    requires
        keys_unique(s, tomb),
        is_key(k, tomb),
        0 <= i < s.len(),
        s[i].0 == k,
    ensures
        map_of(s, tomb).contains_key(k),
        map_of(s, tomb)[k] == s[i].1,
{
    let c = choose|i: int| 0 <= i < s.len() && #[trigger] s[i].0 == k;
    assert(0 <= c < s.len() && s[c].0 == k);
    assert(s[i].0 == s[c].0);
}

/// The empty table satisfies the invariant and stands for the empty map.
pub proof fn lemma_empty(n: nat, hf: spec_fn(u32) -> u32, tomb: bool)
    requires
        n <= u32::MAX,
        is_pow2(n as u32),
    ensures
        chain_ok(empty_slots(n), hf, tomb),
        map_of(empty_slots(n), tomb) == Map::<u32, u32>::empty(),
        live_count(empty_slots(n), 0) == 0,
{
    let s = empty_slots(n);
    assert(map_of(s, tomb) =~= Map::<u32, u32>::empty());
    lemma_live_count_empty(n, 0);
}

proof fn lemma_live_count_empty(n: nat, i: int)
    requires
        0 <= i <= n,
    ensures
        live_count(empty_slots(n), i) == 0,
    decreases n - i,
{
    if i < n {
        lemma_live_count_empty(n, i + 1);
    }
}

/// Overwriting one slot changes the live count by what it removes and adds.
pub proof fn lemma_live_update(s: Seq<(u32, u32)>, p: int, x: (u32, u32), i: int)
    requires
        0 <= p < s.len(),
        0 <= i <= s.len(),
    ensures
        live_count(s.update(p, x), i) + (if i <= p && is_live(s[p]) {
            1nat
        } else {
            0nat
        }) == live_count(s, i) + (if i <= p && is_live(x) {
            1nat
        } else {
            0nat
        }),
    decreases s.len() - i,
{
    if i < s.len() {
        lemma_live_update(s, p, x, i + 1);
    }
}

/// Under the invariant, a probe for a live key held by the table stops at
/// the slot holding it.
pub proof fn lemma_stop_at_key(s: Seq<(u32, u32)>, hf: spec_fn(u32) -> u32, tomb: bool, k: u32, i: int)
    requires
        chain_ok(s, hf, tomb),
        is_key(k, tomb),
        0 <= i < s.len(),
        s[i].0 == k,
    ensures
        first_stop(s, hf(k), k) < s.len(),
        slot_of(s, hf(k), k) == i,
        found(s, hf(k), k),
{
    let n = s.len();
    assert(has_stop(s, k)) by {
        assert(is_stop(s[i].0, k));
    }
    lemma_first_stop(s, hf(k), k);
    lemma_pos_dist(hf(k), n, i, 0);
    let fs = first_stop(s, hf(k), k);
    let dd = dist(hf(k), n, i);
    let p = slot_of(s, hf(k), k);
    lemma_pos_dist(hf(k), n, 0, fs);
    if fs < dd {
        assert(s[pos(hf(s[i].0), n, fs)].0 != 0);
        assert(s[p].0 != 0);
        assert(s[p].0 == k);
        assert(s[p].0 == s[i].0);
    } else if fs > dd {
        assert(!is_stop(s[pos(hf(k), n, dd)].0, k));
    }
}

/// Under the invariant, a lookup of `k` finds it exactly when the map holds
/// it, and gives the map's value for it, or `0`.
pub proof fn lemma_get(s: Seq<(u32, u32)>, hf: spec_fn(u32) -> u32, tomb: bool, k: u32)
    requires
        chain_ok(s, hf, tomb),
        is_key(k, tomb),
    ensures
        found(s, hf(k), k) == map_of(s, tomb).contains_key(k),
        get_spec(s, hf(k), k) == (if map_of(s, tomb).contains_key(k) {
            map_of(s, tomb)[k]
        } else {
            0
        }),
{
    lemma_first_stop(s, hf(k), k);
    let p = slot_of(s, hf(k), k);
    if found(s, hf(k), k) {
        lemma_map_value(s, tomb, k, p);
    } else if holds_key(s, k) {
        let i = choose|i: int| 0 <= i < s.len() && #[trigger] s[i].0 == k;
        lemma_stop_at_key(s, hf, tomb, k, i);
    }
}

/// An insert keeps the invariant, inserts into the map, and adds at most one
/// live slot.
pub proof fn lemma_place(s: Seq<(u32, u32)>, hf: spec_fn(u32) -> u32, tomb: bool, k: u32, v: u32)
    requires
        chain_ok(s, hf, tomb),
        is_key(k, tomb),
        can_place(s, hf(k), k, tomb),
    ensures
        chain_ok(place_spec(s, hf(k), k, v, tomb), hf, tomb),
        map_of(place_spec(s, hf(k), k, v, tomb), tomb) == map_of(s, tomb).insert(k, v),
        live_count(place_spec(s, hf(k), k, v, tomb), 0) <= live_count(s, 0) + 1,
{
    let n = s.len();
    let h = hf(k);
    let fk = free_key(tomb);
    lemma_first_stop(s, h, k);
    lemma_first_stop(s, h, fk);
    lemma_get(s, hf, tomb, k);
    let t = place_spec(s, h, k, v, tomb);
    let fnd = found(s, h, k);
    let p = if fnd {
        slot_of(s, h, k)
    } else {
        slot_of(s, h, fk)
    };
    let fs = if fnd {
        first_stop(s, h, k)
    } else {
        first_stop(s, h, fk)
    };
    assert(t.len() == n);
    assert(0 <= p < n);
    lemma_live_update(s, p, (k, v), 0);
    if !fnd {
        assert(!holds_key(s, k) || !is_key(k, tomb));
        assert(!is_key(s[p].0, tomb));
    } else {
        assert(s[p].0 == k);
    }
    // Live keys are unique.
    assert forall|i: int, i2: int|
        #![trigger t[i], t[i2]]
        0 <= i < n && 0 <= i2 < n && is_key(t[i].0, tomb) && t[i].0 == t[i2].0 implies i == i2 by {
        if i != p && i2 != p {
            assert(s[i].0 == s[i2].0);
        } else if i == p && i2 != p {
            assert(s[i2].0 == k);
            lemma_stop_at_key(s, hf, tomb, k, i2);
        } else if i != p && i2 == p {
            assert(s[i].0 == k);
            lemma_stop_at_key(s, hf, tomb, k, i);
        }
    }
    // Every live key stays reachable.
    assert forall|i: int, d: int|
        #![trigger t[i], t[pos(hf(t[i].0), t.len(), d)]]
        0 <= i < n && is_key(t[i].0, tomb) && 0 <= d < dist(hf(t[i].0), n, i) implies t[pos(
            hf(t[i].0),
            n,
            d,
        )].0 != 0 by {
        let kk = t[i].0;
        lemma_pos_dist(hf(kk), n, i, d);
        let q = pos(hf(kk), n, d);
        if i == p {
            assert(kk == k);
            lemma_pos_dist(h, n, p, 0);
            assert(d < fs);
            if fnd {
                assert(!is_stop(s[pos(h, n, d)].0, k));
            } else {
                assert(!is_stop(s[pos(h, n, d)].0, fk));
            }
            assert(q != p);
        } else {
            assert(s[i].0 == kk);
            assert(s[pos(hf(s[i].0), n, d)].0 != 0);
            if q != p {
                assert(t[q] == s[q]);
            }
        }
    }
    // The map gains `k -> v`.
    let m = map_of(s, tomb).insert(k, v);
    assert forall|k2: u32| #[trigger] map_of(t, tomb).contains_key(k2) <==> m.contains_key(k2) by {
        if is_key(k2, tomb) && k2 != k && holds_key(s, k2) {
            let i = choose|i: int| 0 <= i < s.len() && #[trigger] s[i].0 == k2;
            assert(i != p);
            assert(t[i].0 == k2);
        }
        if is_key(k2, tomb) && holds_key(t, k2) && k2 != k {
            let i = choose|i: int| 0 <= i < t.len() && #[trigger] t[i].0 == k2;
            assert(s[i].0 == k2);
        }
        if k2 == k {
            assert(t[p].0 == k);
        }
    }
    assert forall|k2: u32| #[trigger] map_of(t, tomb).contains_key(k2) implies map_of(t, tomb)[k2]
        == m[k2] by {
        if k2 == k {
            lemma_map_value(t, tomb, k, p);
        } else {
            let i = choose|i: int| 0 <= i < t.len() && #[trigger] t[i].0 == k2;
            assert(i != p);
            lemma_map_value(t, tomb, k2, i);
            lemma_map_value(s, tomb, k2, i);
        }
    }
    assert(map_of(t, tomb) =~= m);
}

/// With tombstones in use, a removal keeps the invariant, removes from the
/// map, and takes one live slot away when it finds the key.
pub proof fn lemma_remove(s: Seq<(u32, u32)>, hf: spec_fn(u32) -> u32, k: u32)
    requires
        chain_ok(s, hf, true),
        is_key(k, true),
    ensures
        chain_ok(remove_spec(s, hf(k), k), hf, true),
        map_of(remove_spec(s, hf(k), k), true) == map_of(s, true).remove(k),
        found(s, hf(k), k) ==> live_count(remove_spec(s, hf(k), k), 0) + 1 == live_count(s, 0),
        !found(s, hf(k), k) ==> remove_spec(s, hf(k), k) == s,
{
    let n = s.len();
    let h = hf(k);
    lemma_first_stop(s, h, k);
    lemma_get(s, hf, true, k);
    let t = remove_spec(s, h, k);
    if found(s, h, k) {
        let p = slot_of(s, h, k);
        assert(s[p].0 == k);
        lemma_live_update(s, p, (TOMBSTONE, s[p].1), 0);
        assert forall|i: int, i2: int|
            #![trigger t[i], t[i2]]
            0 <= i < n && 0 <= i2 < n && is_key(t[i].0, true) && t[i].0 == t[i2].0 implies i
            == i2 by {
            assert(i != p);
            if i2 != p {
                assert(s[i].0 == s[i2].0);
            }
        }
        assert forall|i: int, d: int|
            #![trigger t[i], t[pos(hf(t[i].0), t.len(), d)]]
            0 <= i < n && is_key(t[i].0, true) && 0 <= d < dist(hf(t[i].0), n, i) implies t[pos(
                hf(t[i].0),
                n,
                d,
            )].0 != 0 by {
            let kk = t[i].0;
            assert(i != p);
            assert(s[i].0 == kk);
            assert(s[pos(hf(s[i].0), n, d)].0 != 0);
            lemma_pos_dist(hf(kk), n, i, d);
            let q = pos(hf(kk), n, d);
            if q != p {
                assert(t[q] == s[q]);
            }
        }
        let m = map_of(s, true).remove(k);
        assert forall|k2: u32| #[trigger] map_of(t, true).contains_key(k2) <==> m.contains_key(k2) by {
            if is_key(k2, true) && k2 != k && holds_key(s, k2) {
                let i = choose|i: int| 0 <= i < s.len() && #[trigger] s[i].0 == k2;
                assert(t[i].0 == k2);
            }
            if is_key(k2, true) && holds_key(t, k2) {
                let i = choose|i: int| 0 <= i < t.len() && #[trigger] t[i].0 == k2;
                assert(i != p);
                assert(s[i].0 == k2);
                if k2 == k {
                    assert(s[i].0 == s[p].0);
                }
            }
        }
        assert forall|k2: u32| #[trigger] map_of(t, true).contains_key(k2) implies map_of(t, true)[k2]
            == m[k2] by {
            let i = choose|i: int| 0 <= i < t.len() && #[trigger] t[i].0 == k2;
            assert(i != p);
            lemma_map_value(t, true, k2, i);
            lemma_map_value(s, true, k2, i);
        }
        assert(map_of(t, true) =~= m);
    } else {
        assert(map_of(s, true).remove(k) =~= map_of(s, true));
    }
}

/// The map obtained by inserting into `m`, in array order, the live
/// entries of `s[i..]`: where a key occurs twice, the later slot wins.
pub open spec fn fold_live(m: Map<u32, u32>, s: Seq<(u32, u32)>, i: int) -> Map<u32, u32>
    decreases s.len() - i,
{
    if i < 0 || i >= s.len() {
        m
    } else {
        fold_live(
            if is_live(s[i]) {
                m.insert(s[i].0, s[i].1)
            } else {
                m
            },
            s,
            i + 1,
        )
    }
}

/// Live keys stay unique in a suffix.
pub proof fn lemma_unique_suffix(s: Seq<(u32, u32)>, i: int)
    requires
        keys_unique(s, true),
        0 <= i <= s.len(),
    ensures
        keys_unique(s.subrange(i, s.len() as int), true),
{
    let q = s.subrange(i, s.len() as int);
    assert forall|a: int, b: int|
        #![trigger q[a], q[b]]
        0 <= a < q.len() && 0 <= b < q.len() && is_key(q[a].0, true) && q[a].0 == q[b].0 implies a
        == b by {
        assert(q[a] == s[i + a] && q[b] == s[i + b]);
    }
}

/// For a table whose live keys are unique, folding its live entries into `m`
/// lays its map over `m`.
pub proof fn lemma_fold_live_unique(m: Map<u32, u32>, s: Seq<(u32, u32)>, i: int)
    requires
        keys_unique(s, true),
        0 <= i <= s.len(),
    ensures
        fold_live(m, s, i) == m.union_prefer_right(map_of(s.subrange(i, s.len() as int), true)),
    decreases s.len() - i,
{
    let n = s.len() as int;
    let q = s.subrange(i, n);
    if i == n {
        assert(map_of(q, true) =~= Map::<u32, u32>::empty());
        assert(m.union_prefer_right(map_of(q, true)) =~= m);
    } else {
        let r = s.subrange(i + 1, n);
        let k = s[i].0;
        let v = s[i].1;
        let m2 = if is_live(s[i]) {
            m.insert(k, v)
        } else {
            m
        };
        lemma_fold_live_unique(m2, s, i + 1);
        lemma_unique_suffix(s, i);
        lemma_unique_suffix(s, i + 1);
        assert(q[0] == s[i]);
        assert forall|j: int| 0 <= j < r.len() implies #[trigger] r[j] == q[j + 1] by {}
        let mq = if is_key(k, true) {
            map_of(r, true).insert(k, v)
        } else {
            map_of(r, true)
        };
        assert forall|k2: u32| #[trigger] map_of(q, true).contains_key(k2) <==> mq.contains_key(k2) by {
            if is_key(k2, true) && holds_key(r, k2) {
                let j = choose|j: int| 0 <= j < r.len() && #[trigger] r[j].0 == k2;
                assert(q[j + 1].0 == k2);
            }
            if is_key(k2, true) && holds_key(q, k2) {
                let j = choose|j: int| 0 <= j < q.len() && #[trigger] q[j].0 == k2;
                if j > 0 {
                    assert(r[j - 1].0 == k2);
                }
            }
            if k2 == k && is_key(k, true) {
                assert(q[0].0 == k2);
            }
        }
        assert forall|k2: u32| #[trigger] map_of(q, true).contains_key(k2) implies map_of(q, true)[k2]
            == mq[k2] by {
            let j = choose|j: int| 0 <= j < q.len() && #[trigger] q[j].0 == k2;
            lemma_map_value(q, true, k2, j);
            if j > 0 {
                assert(r[j - 1].0 == k2);
                lemma_map_value(r, true, k2, j - 1);
                assert(q[j].0 == q[0].0 ==> j == 0);
            }
        }
        assert(map_of(q, true) =~= mq);
        if is_key(k, true) {
            assert(!map_of(r, true).contains_key(k)) by {
                if map_of(r, true).contains_key(k) {
                    let j = choose|j: int| 0 <= j < r.len() && #[trigger] r[j].0 == k;
                    assert(q[j + 1].0 == q[0].0);
                }
            }
        }
        assert(m2.union_prefer_right(map_of(r, true)) =~= m.union_prefer_right(mq));
    }
}

/// For a table whose live keys are unique, folding its live entries into the
/// empty map gives its map.
pub proof fn lemma_fold_live_is_map(s: Seq<(u32, u32)>)
    requires
        keys_unique(s, true),
    ensures
        fold_live(Map::empty(), s, 0) == map_of(s, true),
{
    lemma_fold_live_unique(Map::empty(), s, 0);
    assert(s.subrange(0, s.len() as int) =~= s);
    assert(Map::<u32, u32>::empty().union_prefer_right(map_of(s, true)) =~= map_of(s, true));
}

/// A table holding a live slot has a positive live count.
pub proof fn lemma_live_positive(s: Seq<(u32, u32)>, p: int, i: int)
    requires
        0 <= i <= p < s.len(),
        is_live(s[p]),
    ensures
        live_count(s, i) >= 1,
    decreases p - i,
{
    if i < p {
        lemma_live_positive(s, p, i + 1);
    }
}

} // verus!
