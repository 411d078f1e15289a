use lox::text::{append_decimal, append_padded};

fn decimal(n: usize) -> String {
    let mut text = String::new();
    append_decimal(&mut text, n);
    text
}

fn padded(n: usize) -> String {
    let mut text = String::new();
    append_padded(&mut text, n);
    text
}

#[test]
fn decimal_digits_without_leading_zeros() {
    assert_eq!(decimal(0), "0");
    assert_eq!(decimal(7), "7");
    assert_eq!(decimal(10), "10");
    assert_eq!(decimal(1234567890), "1234567890");
    assert_eq!(decimal(usize::MAX), usize::MAX.to_string());
}

#[test]
fn decimal_digits_padded_to_four() {
    assert_eq!(padded(0), "0000");
    assert_eq!(padded(9), "0009");
    assert_eq!(padded(10), "0010");
    assert_eq!(padded(99), "0099");
    assert_eq!(padded(100), "0100");
    assert_eq!(padded(999), "0999");
    assert_eq!(padded(1000), "1000");
    assert_eq!(padded(65536), "65536");
}

#[test]
fn digits_are_appended_to_what_is_there() {
    let mut text = String::from("line ");
    append_decimal(&mut text, 42);
    text.push(' ');
    append_padded(&mut text, 42);
    assert_eq!(text, "line 42 0042");
}
