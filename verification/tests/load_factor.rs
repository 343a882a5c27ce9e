use hello_rust::load_factor::LoadFactor;

#[test]
fn load_factor_compares_exactly() {
    let lf = LoadFactor { numerator: 4, denominator: 5 };
    assert!(!lf.exceeded_by(8, 10));
    assert!(lf.exceeded_by(9, 10));
    assert!(!lf.exceeded_by(0, 1));
    let half = LoadFactor { numerator: 1, denominator: 2 };
    assert!(!half.exceeded_by(4, 8));
    assert!(half.exceeded_by(5, 8));
}

#[test]
fn load_factor_large_operands_do_not_overflow() {
    let lf = LoadFactor { numerator: u32::MAX, denominator: u32::MAX };
    assert!(!lf.exceeded_by(u32::MAX, u32::MAX));
    assert!(lf.exceeded_by(u32::MAX, u32::MAX - 1));
    let zero = LoadFactor { numerator: 0, denominator: 1 };
    assert!(zero.exceeded_by(1, u32::MAX));
    assert!(!zero.exceeded_by(0, 1));
}
