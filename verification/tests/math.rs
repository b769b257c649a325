use stark::math::{is_power_of_two, xgcd};

fn check_bezout(x: u128, y: u128) {
    let (a, b, g) = xgcd(x, y);
    assert_eq!(a * x as i128 + b * y as i128, g as i128, "Bézout identity failed for ({x}, {y})");
}

#[test]
fn bezout_small_coprime() {
    check_bezout(3, 7);
    check_bezout(5, 11);
    check_bezout(17, 31);
}

#[test]
fn bezout_non_trivial_gcd() {
    let (a, b, g) = xgcd(12, 8);
    assert_eq!(g, 4);
    assert_eq!(a * 12 + b * 8, 4);
}

#[test]
fn gcd_coprime_is_one() {
    let (_, _, g) = xgcd(13, 17);
    assert_eq!(g, 1);
}

#[test]
fn inverse_via_xgcd() {
    let p: i128 = 7;
    let (a, _, _) = xgcd(3, 7);
    let inv = ((a % p) + p) % p;
    assert_eq!(inv, 5);
}

#[test]
fn xgcd_handles_zero_and_large_inputs() {
    assert_eq!(xgcd(0, 5), (0, 1, 5));
    assert_eq!(xgcd(5, 0), (1, 0, 5));
    let (a, b, g) = xgcd(u64::MAX as u128, (u64::MAX - 1) as u128);
    assert_eq!(g, 1);
    assert_eq!(a * u64::MAX as i128 + b * (u64::MAX - 1) as i128, 1);
}

#[test]
fn xgcd_beyond_sixty_four_bits() {
    // 2^100 + 1 and 2^100 - 1 are coprime (their difference is 2 and both are odd)
    let x: u128 = (1u128 << 100) + 1;
    let y: u128 = (1u128 << 100) - 1;
    let (a, b, g) = xgcd(x, y);
    assert_eq!(g, 1);
    assert_eq!(a, -((1i128 << 99) - 1));
    assert_eq!(b, 1i128 << 99);
    // a·x + b·y == 1 over the integers, hence also modulo 2^128
    assert_eq!(a.wrapping_mul(x as i128).wrapping_add(b.wrapping_mul(y as i128)), 1);
    let (_, _, g2) = xgcd(3u128 << 90, 6u128 << 90);
    assert_eq!(g2, 3u128 << 90);
}

#[test]
fn powers_of_two_are_recognized() {
    assert!(is_power_of_two(1));
    assert!(is_power_of_two(1024));
    assert!(!is_power_of_two(0));
    assert!(!is_power_of_two(12));
    assert!(is_power_of_two(1u128 << 127));
}
