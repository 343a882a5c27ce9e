use hello_rust::hash_table_restriction1::{Entry, HashTable};
use hello_rust::load_factor::LoadFactor;

fn half() -> LoadFactor {
    LoadFactor { numerator: 1, denominator: 2 }
}

#[test]
fn counted_new_table() {
    let e = Entry::new();
    let _copy = e.clone();
    let _default = Entry::default();
    let ht = HashTable::new(8, half());
    assert_eq!(ht.get_array_size(), 8);
    assert_eq!(ht.get_item_count(), 0);
    assert_eq!(ht.slot_pairs(), vec![(0u32, 0u32); 8]);
    assert_eq!(ht.get_item(3), 0);
}

#[test]
fn counted_scenario_with_growth_and_removal() {
    let mut ht = HashTable::new(8, half());
    ht.set_item(1, 9);
    assert_eq!(ht.get_item_count(), 1);
    ht.set_item(10, 19);
    ht.set_item(32, 90);
    ht.set_item(23, 91);
    assert_eq!(ht.get_item_count(), 4);
    assert_eq!(ht.get_array_size(), 8);
    assert_eq!(ht.get_item(10), 19);
    // 5 / 8 exceeds one half: the table doubles and the counter restarts
    // from the four live entries.
    assert!(ht.can_set(10, 190));
    ht.set_item(10, 190);
    assert_eq!(ht.get_item_count(), 4);
    assert_eq!(ht.get_array_size(), 16);
    ht.set_item(15, 190);
    assert_eq!(ht.get_item_count(), 5);
    assert_eq!(ht.get_item(15), 190);
    assert_eq!(ht.remove_item(15), 190);
    assert_eq!(ht.get_item(15), 0);
    assert_eq!(ht.get_item_count(), 4);
    for (k, v) in [(12, 19), (13, 90), (14, 91), (16, 19), (17, 90), (18, 91)] {
        ht.set_item(k, v);
    }
    assert_eq!(ht.get_item_count(), 10);
    assert_eq!(ht.get_array_size(), 32);
    assert_eq!(ht.get_item(15), 0);
    assert_eq!(ht.remove_item(15), 0);
    assert_eq!(ht.get_item_count(), 10);
    ht.set_item(15, 1);
    assert_eq!(ht.get_item_count(), 11);
    assert_eq!(ht.remove_item(10), 190);
    assert_eq!(ht.get_item_count(), 10);
    ht.set_item(10, 190);
    assert_eq!(ht.get_item_count(), 11);
    assert_eq!(ht.remove_item(11), 0);
    assert_eq!(ht.get_item_count(), 11);
    assert_eq!(ht.get_array_size(), 32);
    let expected = [
        (1, 9),
        (10, 190),
        (32, 90),
        (23, 91),
        (12, 19),
        (13, 90),
        (14, 91),
        (15, 1),
        (16, 19),
        (17, 90),
        (18, 91),
    ];
    for (k, v) in expected {
        assert_eq!(ht.get_item(k), v);
    }
    let mut pairs = ht.slot_pairs();
    assert_eq!(pairs.len(), 32);
    assert_eq!(pairs[5], (15, 1));
    assert_eq!(pairs[23], (1, 9));
    assert_eq!(pairs[16], (10, 190));
    pairs.retain(|p| p.0 != 0);
    assert_eq!(pairs.len(), 11);
}

#[test]
fn counted_update_counts_as_an_insert() {
    let mut ht = HashTable::new(8, LoadFactor { numerator: 4, denominator: 1 });
    ht.set_item(3, 1);
    ht.set_item(3, 2);
    ht.set_item(3, 3);
    assert_eq!(ht.get_item_count(), 3);
    assert_eq!(ht.get_item(3), 3);
}

#[test]
fn counted_lookup_passes_over_tombstones() {
    // Keys 1 and 3 both start at slot 7 of 8; 3 sits at slot 0.
    let mut ht = HashTable::new(8, LoadFactor { numerator: 1, denominator: 1 });
    ht.set_item(1, 10);
    ht.set_item(3, 30);
    assert_eq!(ht.remove_item(1), 10);
    assert_eq!(ht.slot_pairs()[7], (u32::MAX, 10));
    assert_eq!(ht.get_item(3), 30);
    assert_eq!(ht.get_item(1), 0);
    // Replacing 3 updates its slot; the tombstone stays.
    ht.set_item(3, 33);
    assert_eq!(ht.slot_pairs()[0], (3, 33));
    assert_eq!(ht.slot_pairs()[7], (u32::MAX, 10));
    assert_eq!(ht.get_item(3), 33);
    assert_eq!(ht.get_item_count(), 2);
    assert_eq!(ht.remove_item(3), 33);
    assert_eq!(ht.get_item(3), 0);
    assert_eq!(ht.get_item_count(), 1);
}

#[test]
fn counted_new_key_reuses_a_tombstone() {
    // Keys 1, 3 and 18 all start at slot 7 of 8.
    let mut ht = HashTable::new(8, LoadFactor { numerator: 1, denominator: 1 });
    ht.set_item(1, 10);
    ht.set_item(3, 30);
    assert_eq!(ht.remove_item(1), 10);
    ht.set_item(18, 5);
    assert_eq!(ht.slot_pairs()[7], (18, 5));
    assert_eq!(ht.get_item(3), 30);
    assert_eq!(ht.get_item(18), 5);
}

#[test]
fn counted_growth_keeps_the_latest_value() {
    // Keys 4 and 5 both start at slot 5 of 8.
    let mut ht = HashTable::new(8, LoadFactor { numerator: 3, denominator: 8 });
    ht.set_item(4, 40);
    ht.set_item(5, 50);
    assert_eq!(ht.remove_item(4), 40);
    ht.set_item(8, 80);
    ht.set_item(8, 81);
    assert_eq!(ht.get_item_count(), 3);
    assert_eq!(ht.get_array_size(), 8);
    ht.set_item(5, 55);
    assert_eq!(ht.get_array_size(), 16);
    assert_eq!(ht.get_item_count(), 2);
    assert_eq!(ht.get_item(5), 55);
    assert_eq!(ht.get_item(8), 81);
    assert_eq!(ht.get_item(4), 0);
}

#[test]
fn counted_get_after_remove_is_zero() {
    let mut ht = HashTable::new(16, half());
    for k in 1..=6u32 {
        ht.set_item(k, k + 10);
    }
    for k in 1..=6u32 {
        assert_eq!(ht.remove_item(k), k + 10);
        assert_eq!(ht.get_item(k), 0);
    }
    assert_eq!(ht.get_item_count(), 0);
}

#[test]
fn counted_remove_undoes_set() {
    let mut ht = HashTable::new(16, half());
    for k in 1..=5u32 {
        ht.set_item(k, k * 3);
    }
    let count = ht.get_item_count();
    ht.set_item(40, 7);
    assert_eq!(ht.remove_item(40), 7);
    assert_eq!(ht.get_item_count(), count);
    assert_eq!(ht.get_item(40), 0);
    for k in 1..=5u32 {
        assert_eq!(ht.get_item(k), k * 3);
    }
}

#[test]
fn counted_can_set_reports_what_set_item_needs() {
    let mut ht = HashTable::new(2, LoadFactor { numerator: 4, denominator: 1 });
    assert!(!ht.can_set(0, 1));
    assert!(!ht.can_set(u32::MAX, 1));
    assert!(!ht.can_set(1, 0));
    assert!(ht.can_set(1, 1));
    ht.set_item(1, 1);
    ht.set_item(2, 2);
    // Both slots are live and the threshold is never reached: no slot for 3.
    assert!(!ht.can_set(3, 3));
    assert!(ht.can_set(2, 5));
    assert_eq!(ht.remove_item(2), 2);
    assert!(ht.can_set(3, 3));
}

#[test]
fn counted_load_stays_within_threshold() {
    let mut ht = HashTable::new(2, LoadFactor { numerator: 1, denominator: 3 });
    for k in 1..=20u32 {
        ht.set_item(k, k);
        assert!(3 * ht.get_item_count() <= ht.get_array_size());
        assert!(ht.get_array_size().is_power_of_two());
    }
    for k in 1..=20u32 {
        assert_eq!(ht.get_item(k), k);
    }
}

#[test]
fn counted_clear_keeps_the_counter() {
    let mut ht = HashTable::new(8, half());
    ht.set_item(1, 1);
    ht.set_item(2, 2);
    ht.clear();
    assert_eq!(ht.get_item_count(), 2);
    assert_eq!(ht.get_array_size(), 8);
    assert_eq!(ht.slot_pairs(), vec![(0u32, 0u32); 8]);
    assert_eq!(ht.get_item(1), 0);
}

#[test]
fn counted_reserved_keys_are_never_found() {
    let mut ht = HashTable::new(4, LoadFactor { numerator: 1, denominator: 1 });
    ht.set_item(2, 5);
    assert_eq!(ht.remove_item(2), 5);
    let before = ht.slot_pairs();
    assert_eq!(ht.get_item(0), 0);
    assert_eq!(ht.get_item(u32::MAX), 0);
    assert_eq!(ht.remove_item(0), 0);
    assert_eq!(ht.remove_item(u32::MAX), 0);
    assert_eq!(ht.slot_pairs(), before);
    assert_eq!(ht.get_item_count(), 0);
}
