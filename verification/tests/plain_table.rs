use hello_rust::hash_table::{Entry, HashTable};

#[test]
fn plain_new_table_is_empty() {
    let _slot = Entry::new();
    let ht = HashTable::new(8);
    assert_eq!(ht.get_item_count(), 8);
    assert_eq!(ht.slot_values(), vec![0u32; 8]);
    assert_eq!(ht.get_item(1), 0);
    assert_eq!(ht.get_item(12345), 0);
}

#[test]
fn plain_get_after_set() {
    let mut ht = HashTable::new(16);
    ht.set_item(7, 70);
    assert_eq!(ht.get_item(7), 70);
    ht.set_item(7, 71);
    assert_eq!(ht.get_item(7), 71);
    assert_eq!(ht.get_item(8), 0);
}

#[test]
fn plain_collisions_probe_forward_and_wrap() {
    // With 8 slots, keys 1 and 3 both start at slot 7, key 2 at slot 6 and
    // key 5 at slot 5: 3 wraps around to slot 0.
    let mut ht = HashTable::new(8);
    ht.set_item(1, 10);
    ht.set_item(3, 30);
    ht.set_item(2, 20);
    ht.set_item(5, 50);
    assert_eq!(ht.slot_values(), vec![30, 0, 0, 0, 0, 50, 20, 10]);
    ht.set_item(3, 31);
    assert_eq!(ht.slot_values(), vec![31, 0, 0, 0, 0, 50, 20, 10]);
    assert_eq!(ht.get_item(3), 31);
    assert_eq!(ht.get_item(1), 10);
    assert_eq!(ht.get_item(2), 20);
    assert_eq!(ht.get_item(5), 50);
    assert_eq!(ht.get_item(4), 0);
}

#[test]
fn plain_other_keys_unchanged_by_set() {
    let mut ht = HashTable::new(8);
    for k in 1..=5u32 {
        ht.set_item(k, k * 100);
    }
    ht.set_item(6, 600);
    for k in 1..=5u32 {
        assert_eq!(ht.get_item(k), k * 100);
    }
    assert_eq!(ht.get_item(6), 600);
}

#[test]
fn plain_full_table_still_finds_its_keys() {
    let mut ht = HashTable::new(4);
    for k in 1..=4u32 {
        assert!(ht.has_room(k));
        ht.set_item(k, k + 1);
    }
    assert!(!ht.has_room(9));
    assert!(ht.has_room(3));
    // A lookup of an absent key in a full table visits every slot and gives 0.
    assert_eq!(ht.get_item(9), 0);
    for k in 1..=4u32 {
        assert_eq!(ht.get_item(k), k + 1);
    }
    ht.set_item(2, 9);
    assert_eq!(ht.get_item(2), 9);
}

#[test]
fn plain_clear_empties_every_slot() {
    let mut ht = HashTable::new(8);
    ht.set_item(1, 10);
    ht.set_item(2, 20);
    ht.clear();
    assert_eq!(ht.get_item_count(), 8);
    assert_eq!(ht.slot_values(), vec![0u32; 8]);
    assert_eq!(ht.get_item(1), 0);
    assert_eq!(ht.get_item(2), 0);
}

#[test]
fn plain_single_slot_table() {
    let mut ht = HashTable::new(1);
    assert!(ht.has_room(5));
    ht.set_item(5, 1);
    assert_eq!(ht.get_item(5), 1);
    assert!(!ht.has_room(6));
}
