use gcd_fold::error::UsageError;
use gcd_fold::gcd::{gcd, gcd_all};

#[test]
fn pair_twelve_eighteen() {
    assert_eq!(gcd(12, 18), 6);
}

#[test]
fn pair_result_divides_both() {
    let (a, b) = (84u64, 36u64);
    let g = gcd(a, b);
    assert_eq!(g, 12);
    assert_eq!(a % g, 0);
    assert_eq!(b % g, 0);
}

#[test]
fn pair_no_larger_common_divisor() {
    let (a, b) = (84u64, 36u64);
    let g = gcd(a, b);
    for d in (g + 1)..=a.max(b) {
        assert!(a % d != 0 || b % d != 0);
    }
}

#[test]
fn pair_is_commutative() {
    assert_eq!(gcd(48, 180), gcd(180, 48));
    assert_eq!(gcd(48, 180), 12);
    assert_eq!(gcd(1, u64::MAX), gcd(u64::MAX, 1));
}

#[test]
fn pair_identity() {
    assert_eq!(gcd(42, 42), 42);
    assert_eq!(gcd(u64::MAX, u64::MAX), u64::MAX);
}

#[test]
fn pair_zero_is_absorbed() {
    assert_eq!(gcd(9, 0), 9);
    assert_eq!(gcd(0, 9), 9);
    assert_eq!(gcd(0, u64::MAX), u64::MAX);
}

#[test]
fn pair_large_values() {
    assert_eq!(gcd(u64::MAX, u64::MAX - 1), 1);
    assert_eq!(gcd(1 << 63, 1 << 40), 1 << 40);
}

#[test]
fn fold_twelve_eighteen() {
    assert_eq!(gcd_all(&vec![12, 18]), Ok(6));
}

#[test]
fn fold_single_element() {
    assert_eq!(gcd_all(&vec![7]), Ok(7));
}

#[test]
fn fold_leading_zero() {
    assert_eq!(gcd_all(&vec![0, 5]), Ok(5));
}

#[test]
fn fold_three_elements() {
    assert_eq!(gcd_all(&vec![8, 12, 20]), Ok(4));
}

#[test]
fn fold_coprime() {
    assert_eq!(gcd_all(&vec![17, 13]), Ok(1));
}

#[test]
fn fold_zeros_between() {
    assert_eq!(gcd_all(&vec![0, 0, 30, 0, 45]), Ok(15));
}

#[test]
fn fold_empty_is_usage_error() {
    assert_eq!(gcd_all(&vec![]), Err(UsageError::NoArguments));
}

#[test]
fn fold_all_zero_is_rejected() {
    assert_eq!(gcd_all(&vec![0]), Err(UsageError::AllZero));
    assert_eq!(gcd_all(&vec![0, 0]), Err(UsageError::AllZero));
}
