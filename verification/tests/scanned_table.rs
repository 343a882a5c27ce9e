use hello_rust::hash_table_restrict::{Entry, HashTable};
use hello_rust::load_factor::LoadFactor;

fn three_quarters() -> LoadFactor {
    LoadFactor { numerator: 3, denominator: 4 }
}

#[test]
fn scanned_new_table() {
    let _e = Entry::new();
    let ht = HashTable::new(8, three_quarters());
    assert_eq!(ht.get_array_size(), 8);
    assert_eq!(ht.get_item_count(), 0);
    assert_eq!(ht.get_item(9), 0);
}

#[test]
fn scanned_scenario_with_removal_and_growth() {
    let mut ht = HashTable::new(8, three_quarters());
    ht.set_item(1, 11);
    ht.set_item(2, 22);
    ht.set_item(3, 33);
    assert_eq!(ht.get_item_count(), 3);
    assert_eq!(ht.get_item(1), 11);
    assert_eq!(ht.get_item(2), 22);
    assert_eq!(ht.get_item(3), 33);
    assert_eq!(ht.remove_item(1), 11);
    assert_eq!(ht.get_item(1), 0);
    // A tombstone keeps its value, so it is still counted.
    assert_eq!(ht.get_item_count(), 3);
    assert_eq!(ht.remove_item(2), 22);
    assert_eq!(ht.get_item(2), 0);
    assert_eq!(
        ht.slot_pairs(),
        vec![(u32::MAX, 22), (0, 0), (0, 0), (0, 0), (0, 0), (3, 33), (0, 0), (u32::MAX, 11)]
    );
    ht.set_item(4, 44);
    ht.set_item(5, 55);
    assert_eq!(ht.get_item_count(), 5);
    // Key 6 starts at slot 0 and takes the tombstone there.
    ht.set_item(6, 66);
    assert_eq!(ht.slot_pairs()[0], (6, 66));
    ht.set_item(7, 77);
    assert_eq!(ht.get_item_count(), 6);
    assert_eq!(ht.get_array_size(), 8);
    // 7 / 8 exceeds three quarters: the live entries move to 16 slots and
    // the tombstone is dropped.
    ht.set_item(8, 88);
    assert_eq!(ht.get_array_size(), 16);
    assert_eq!(ht.get_item_count(), 6);
    assert_eq!(ht.get_item(1), 0);
    assert_eq!(ht.get_item(2), 0);
    for k in 3..=8u32 {
        assert_eq!(ht.get_item(k), k * 11);
    }
    assert_eq!(
        ht.slot_pairs(),
        vec![
            (0, 0),
            (4, 44),
            (5, 55),
            (7, 77),
            (8, 88),
            (3, 33),
            (0, 0),
            (0, 0),
            (6, 66),
            (0, 0),
            (0, 0),
            (0, 0),
            (0, 0),
            (0, 0),
            (0, 0),
            (0, 0)
        ]
    );
}

#[test]
fn scanned_remove_right_after_set() {
    // integer_hash2(5) starts at slot 0 of 2, integer_hash(5) at slot 1.
    let mut ht = HashTable::new(2, LoadFactor { numerator: 1, denominator: 1 });
    ht.set_item(5, 50);
    assert_eq!(ht.slot_pairs()[0], (5, 50));
    assert_eq!(ht.remove_item(5), 50);
    assert_eq!(ht.get_item(5), 0);
}

#[test]
fn scanned_can_set_rejects_reserved_keys() {
    let ht = HashTable::new(4, LoadFactor { numerator: 1, denominator: 1 });
    assert!(!ht.can_set(0, 7));
    assert!(!ht.can_set(u32::MAX, 9));
    assert!(!ht.can_set(3, 0));
    assert!(ht.can_set(3, 9));
}

#[test]
fn scanned_get_after_set() {
    let mut ht = HashTable::new(8, three_quarters());
    for k in 10..16u32 {
        ht.set_item(k, k);
        assert_eq!(ht.get_item(k), k);
    }
    ht.set_item(12, 1);
    assert_eq!(ht.get_item(12), 1);
}

#[test]
fn scanned_clear_empties_every_slot() {
    let mut ht = HashTable::new(8, three_quarters());
    ht.set_item(1, 1);
    ht.clear();
    assert_eq!(ht.get_item_count(), 0);
    assert_eq!(ht.get_array_size(), 8);
    assert_eq!(ht.get_item(1), 0);
}

#[test]
fn scanned_lookups_after_clear_give_zero() {
    let mut ht = HashTable::new(4, three_quarters());
    ht.set_item(3, 30);
    assert_eq!(ht.remove_item(3), 30);
    assert_eq!(ht.get_item(u32::MAX), 0);
    ht.clear();
    assert_eq!(ht.slot_pairs(), vec![(0u32, 0u32); 4]);
    assert_eq!(ht.get_item(3), 0);
    assert_eq!(ht.get_item(0), 0);
    assert_eq!(ht.get_item(u32::MAX), 0);
    assert_eq!(ht.get_item_count(), 0);
    ht.clear();
    assert_eq!(ht.slot_pairs(), vec![(0u32, 0u32); 4]);
}
