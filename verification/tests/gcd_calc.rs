use mandelbrot::gcd::{checked_gcd, gcd};

#[test]
fn gcd_of_coprime_numbers() {
    assert_eq!(gcd(14, 15), 1);
}

#[test]
fn gcd_of_composite_numbers() {
    assert_eq!(gcd(2 * 3 * 5 * 11 * 17, 3 * 7 * 11 * 13 * 19), 3 * 11);
}

#[test]
fn form_rejects_zero_inputs() {
    assert_eq!(checked_gcd(0, 5), None);
    assert_eq!(checked_gcd(5, 0), None);
    assert_eq!(checked_gcd(0, 0), None);
    assert_eq!(checked_gcd(12, 18), Some(6));
}

#[test]
fn gcd_of_equal_and_divisible_numbers() {
    assert_eq!(gcd(7, 7), 7);
    assert_eq!(gcd(10, 5), 5);
    assert_eq!(gcd(5, 10), 5);
    assert_eq!(gcd(1, 1_000_000), 1);
}
