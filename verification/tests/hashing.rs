use hello_rust::hashing::{integer_hash, integer_hash2, next_power_of_2_double_the};

#[test]
fn murmur_finaliser_values() {
    assert_eq!(integer_hash(0), 0);
    assert_eq!(integer_hash(1), 0x514e_28b7);
    assert_eq!(integer_hash(2), 0x30f4_c306);
    assert_eq!(integer_hash(10), 0xe925_0490);
    assert_eq!(integer_hash(12345), 0x3c46_c9dc);
    assert_eq!(integer_hash(u32::MAX), 0x81f1_6f39);
}

#[test]
fn xorshift_multiply_values() {
    assert_eq!(integer_hash2(0), 0);
    assert_eq!(integer_hash2(1), 0x3125_1ba7);
    assert_eq!(integer_hash2(2), 0x66a7_9298);
    assert_eq!(integer_hash2(10), 0x46a6_36a4);
    assert_eq!(integer_hash2(12345), 0x6829_6f19);
    assert_eq!(integer_hash2(u32::MAX), 0x2028_884f);
}

#[test]
fn next_power_doubles_powers_of_two() {
    assert_eq!(next_power_of_2_double_the(1), 2);
    assert_eq!(next_power_of_2_double_the(4), 8);
    assert_eq!(next_power_of_2_double_the(1024), 2048);
    assert_eq!(next_power_of_2_double_the(0x4000_0000), 0x8000_0000);
}

#[test]
fn next_power_rounds_up_other_values() {
    assert_eq!(next_power_of_2_double_the(3), 8);
    assert_eq!(next_power_of_2_double_the(5), 16);
    assert_eq!(next_power_of_2_double_the(12), 32);
    assert_eq!(next_power_of_2_double_the(0x3fff_ffff), 0x8000_0000);
}

#[test]
fn hashes_low_bits() {
    assert_eq!(integer_hash2(0), 0);
    assert_eq!(integer_hash2(1) & 1, 1);
    assert_eq!(integer_hash2(5) & 1, 0);
    assert_eq!(integer_hash(5) & 1, 1);
}

#[test]
fn hashes_are_injective_on_a_range() {
    let mut seen = std::collections::HashSet::new();
    let mut seen2 = std::collections::HashSet::new();
    for x in 0..5000u32 {
        assert!(seen.insert(integer_hash(x)));
        assert!(seen2.insert(integer_hash2(x)));
    }
}
