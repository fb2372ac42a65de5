use gcd_fold::args::{parse_number, parse_numbers};
use gcd_fold::error::UsageError;

fn strings(v: &[&str]) -> Vec<String> {
    v.iter().map(|s| s.to_string()).collect()
}

#[test]
fn number_plain() {
    assert_eq!(parse_number("12"), Some(12));
    assert_eq!(parse_number("0"), Some(0));
    assert_eq!(parse_number("007"), Some(7));
}

#[test]
fn number_largest() {
    assert_eq!(parse_number("18446744073709551615"), Some(u64::MAX));
}

#[test]
fn number_overflow() {
    assert_eq!(parse_number("18446744073709551616"), None);
    assert_eq!(parse_number("99999999999999999999999"), None);
}

#[test]
fn number_rejects_sign_and_text() {
    assert_eq!(parse_number(""), None);
    assert_eq!(parse_number("-3"), None);
    assert_eq!(parse_number("+3"), None);
    assert_eq!(parse_number("1.5"), None);
    assert_eq!(parse_number("abc"), None);
    assert_eq!(parse_number(" 4"), None);
    assert_eq!(parse_number("4x"), None);
}

#[test]
fn numbers_in_order() {
    assert_eq!(parse_numbers(&strings(&["8", "12", "20"])), Ok(vec![8, 12, 20]));
}

#[test]
fn numbers_empty() {
    assert_eq!(parse_numbers(&vec![]), Err(UsageError::NoArguments));
}

#[test]
fn numbers_first_invalid_index() {
    assert_eq!(
        parse_numbers(&strings(&["8", "x", "-1"])),
        Err(UsageError::InvalidNumber { index: 1 })
    );
}

#[test]
fn numbers_then_fold() {
    let nums = parse_numbers(&strings(&["12", "18"])).unwrap();
    assert_eq!(gcd_fold::gcd::gcd_all(&nums), Ok(6));
}
