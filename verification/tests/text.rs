//! Numbers as text.

use lorawan::text::{append_decimal, append_hexadecimal};

fn decimal(n: u32) -> String {
    let mut text = String::from(":");
    append_decimal(&mut text, n);
    text
}

fn hexadecimal(n: u32, width: u8) -> String {
    let mut text = String::from(":");
    append_hexadecimal(&mut text, n, width);
    text
}

#[test]
fn decimals_have_no_leading_zeros() {
    assert_eq!(decimal(0), ":0");
    assert_eq!(decimal(7), ":7");
    assert_eq!(decimal(10), ":10");
    assert_eq!(decimal(1_234_567_890), ":1234567890");
    assert_eq!(decimal(u32::MAX), ":4294967295");
}

#[test]
fn hexadecimals_have_as_many_digits_as_asked_for() {
    assert_eq!(hexadecimal(0, 0), ":");
    assert_eq!(hexadecimal(7, 8), ":00000007");
    assert_eq!(hexadecimal(0x2601_1b2c, 8), ":26011b2c");
    assert_eq!(hexadecimal(0xdead_beef, 8), ":deadbeef");
    assert_eq!(hexadecimal(0xdead_beef, 2), ":ef");
}
