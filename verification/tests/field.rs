use stark::field::Field;

#[test]
fn zero_and_one() {
    let f = Field::main();
    assert!(f.zero().is_zero());
    assert!(!f.one().is_zero());
}

#[test]
fn add_sub_roundtrip() {
    let f = Field::main();
    let a = f.from_u64(42);
    let b = f.from_u64(13);
    assert_eq!(a.clone() + b.clone() - b.clone(), a);
}

#[test]
fn mul_div_roundtrip() {
    let f = Field::main();
    let a = f.from_u64(1337);
    let b = f.from_u64(7);
    assert_eq!(a.clone() * b.clone() / b.clone(), a);
}

#[test]
fn neg_is_additive_inverse() {
    let f = Field::main();
    let a = f.from_u64(99);
    assert_eq!(a.clone() + (-a), f.zero());
}

#[test]
fn inverse_correctness() {
    let f = Field::main();
    let a = f.from_u64(12345);
    assert_eq!(a.clone() * a.inverse(), f.one());
}

#[test]
fn pow_zero_is_one() {
    let f = Field::main();
    let a = f.from_u64(999);
    assert_eq!(a.pow(0), f.one());
}

#[test]
fn pow_one_is_identity() {
    let f = Field::main();
    let a = f.from_u64(7);
    assert_eq!(a.pow(1), f.from_u64(7));
}

#[test]
fn pow_small() {
    let f = Field::main();
    let a = f.from_u64(2);
    assert_eq!(a.pow(10), f.from_u64(1024));
}

#[test]
fn display() {
    let f = Field::main();
    assert_eq!(f.from_u64(42).to_string(), "42");
}

#[test]
fn to_bytes() {
    let f = Field::main();
    assert_eq!(f.from_u64(7).to_bytes(), b"7".to_vec());
}

#[test]
fn primitive_root_of_unity() {
    let f = Field::main();
    let root = f.primitive_nth_root(2);
    assert_eq!(root.pow(2), f.one());
    assert_ne!(root, f.one());
}

#[test]
fn sample() {
    let f = Field::main();
    let bytes = vec![0x12, 0x34, 0x56];
    let elem = f.sample(&bytes);
    assert!(!elem.is_zero());
}

#[test]
fn default_field_can_be_constructed() {
    let _ = Field::main();
}

#[test]
fn the_modulus_is_one_plus_407_times_two_to_the_119() {
    let f = Field::main();
    assert_eq!(f.p, 1 + 407 * (1u128 << 119));
    assert_eq!(f.p, 270497897142230380135924736767050121217);
}

#[test]
fn subtraction_wraps_below_zero() {
    let f = Field::main();
    assert_eq!((f.from_u64(3) - f.from_u64(5)).value, f.p - 2);
    assert_eq!((-f.from_u64(1)).value, f.p - 1);
}

#[test]
fn sample_reads_big_endian() {
    let f = Field::main();
    assert_eq!(f.sample(&[0x12, 0x34, 0x56]), f.from_u64(0x123456));
    assert_eq!(f.sample(&[]), f.zero());
}

#[test]
fn generator_inverse_is_known() {
    let f = Field::main();
    let g = f.generator();
    assert_eq!(g.value, 85408008396924667383611388730472331217);
    assert_eq!(g.inverse().value, 175439076212722741049629028429128606817);
    assert_eq!(g * g.inverse(), f.one());
}

#[test]
fn primitive_roots_have_the_requested_order() {
    let f = Field::main();
    for n in [2u64, 4, 8, 16, 1024] {
        let root = f.primitive_nth_root(n);
        assert_eq!(root.pow(n), f.one());
        assert_ne!(root.pow(n / 2), f.one());
    }
}

#[test]
fn decimal_bytes_of_large_values() {
    let f = Field::main();
    assert_eq!(f.from_u64(1234567890).to_bytes(), b"1234567890".to_vec());
    assert_eq!(f.zero().to_bytes(), b"0".to_vec());
}
