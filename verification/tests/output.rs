use pleading::output::append_decimal;
use pleading::{byte_of, bytes_of, parse, Operation};

#[test]
fn byte_of_small_values() {
    assert_eq!(byte_of(0), 0);
    assert_eq!(byte_of(65), 65);
    assert_eq!(byte_of(255), 255);
}

#[test]
fn byte_of_wraps_at_256() {
    assert_eq!(byte_of(256), 0);
    assert_eq!(byte_of(257), 1);
    assert_eq!(byte_of(0x1234), 0x34);
    assert_eq!(byte_of(i64::MAX), 255);
}

#[test]
fn byte_of_negative_values() {
    assert_eq!(byte_of(-1), 255);
    assert_eq!(byte_of(-256), 0);
    assert_eq!(byte_of(-255), 1);
    assert_eq!(byte_of(i64::MIN), 0);
}

#[test]
fn byte_of_is_the_low_byte() {
    for value in [0i64, 1, -1, 72, 300, -300, 65535, -65536, i64::MAX, i64::MIN, 1 << 40] {
        assert_eq!(byte_of(value), (value & 0xff) as u8);
    }
}

#[test]
fn bytes_of_keeps_the_order() {
    assert_eq!(bytes_of(&vec![72, 105, 256 + 33, -1]), vec![72, 105, 33, 255]);
    assert_eq!(bytes_of(&vec![]), Vec::<u8>::new());
}

fn decimal(value: i64) -> String {
    let mut text = String::new();
    append_decimal(&mut text, value);
    text
}

#[test]
fn decimal_of_single_digits() {
    for digit in 0..10 {
        assert_eq!(decimal(digit), format!("{}", digit));
    }
}

#[test]
fn decimal_of_larger_values() {
    assert_eq!(decimal(10), "10");
    assert_eq!(decimal(1234567890), "1234567890");
    assert_eq!(decimal(1000), "1000");
    assert_eq!(decimal(i64::MAX), "9223372036854775807");
}

#[test]
fn decimal_of_negative_values() {
    assert_eq!(decimal(-1), "-1");
    assert_eq!(decimal(-907), "-907");
    assert_eq!(decimal(i64::MIN), "-9223372036854775808");
}

#[test]
fn decimal_is_appended() {
    let mut text = String::from("x = ");
    append_decimal(&mut text, -12);
    append_decimal(&mut text, 0);
    assert_eq!(text, "x = -120");
}

#[test]
fn written_number_is_read_back() {
    for value in [0i64, 7, 10, 99, 1234, i64::MAX] {
        let program = format!("🥺{}", decimal(value));
        assert_eq!(parse(&program), vec![Operation::Push(value)]);
    }
}
