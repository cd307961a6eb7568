//! The S-box against the field arithmetic that defines it.

use lorawan::sbox::substitute;

fn times(mut a: u8, mut b: u8) -> u8 {
    let mut product = 0;
    while b != 0 {
        if b & 1 != 0 {
            product ^= a;
        }
        a = (a << 1) ^ if a & 0x80 != 0 { 0x1b } else { 0 };
        b >>= 1;
    }
    product
}

#[test]
fn every_byte_is_its_inverse_under_the_affine_map() {
    for x in 0..=255u8 {
        let inverse = (0..=255u8).find(|y| times(x, *y) == 1).unwrap_or(0);
        let affine = inverse
            ^ inverse.rotate_left(1)
            ^ inverse.rotate_left(2)
            ^ inverse.rotate_left(3)
            ^ inverse.rotate_left(4)
            ^ 0x63;
        assert_eq!(substitute(x), affine, "{x:#04x}");
    }
}

#[test]
fn every_nonzero_byte_has_one_inverse() {
    for x in 1..=255u8 {
        assert_eq!((0..=255u8).filter(|y| times(x, *y) == 1).count(), 1);
    }
    assert_eq!(substitute(0), 0x63);
    assert_eq!(substitute(0x53), 0xed);
}

#[test]
fn no_byte_stands_in_the_place_of_two() {
    let mut seen: Vec<u8> = (0..=255u8).map(substitute).collect();
    seen.sort_unstable();
    seen.dedup();
    assert_eq!(seen.len(), 256);
}
