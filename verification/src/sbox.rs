//! The S-box of AES: the field arithmetic that defines it, and the table that
//! computes it.

use vstd::prelude::*;

verus! {

/// Multiplication by two in GF(2^8): a left shift, reduced by the AES
/// polynomial where a bit falls out of the byte.
pub open spec fn times_two(x: u8) -> u8 {
    if x < 0x80 {
        (2 * x) as u8
    } else {
        ((2 * x - 0x100) as u8) ^ 0x1b
    }
}

/// `a` where bit `bit` of `b` is set, else zero.
pub open spec fn where_set(b: u8, bit: u8, a: u8) -> u8 {
    if b & (1u8 << bit) != 0 {
        a
    } else {
        0
    }
}

/// Multiplication in GF(2^8): the sum of `a` times two to the power of each bit
/// that is set in `b`.
pub open spec fn times(a: u8, b: u8) -> u8 {
    let a1 = times_two(a);
    let a2 = times_two(a1);
    let a3 = times_two(a2);
    let a4 = times_two(a3);
    let a5 = times_two(a4);
    let a6 = times_two(a5);
    let a7 = times_two(a6);
    where_set(b, 0, a) ^ where_set(b, 1, a1) ^ where_set(b, 2, a2) ^ where_set(b, 3, a3)
        ^ where_set(b, 4, a4) ^ where_set(b, 5, a5) ^ where_set(b, 6, a6) ^ where_set(b, 7, a7)
}

/// Multiplication by two and by three.
pub proof fn lemma_small_times(x: u8)
    ensures
        times(x, 2) == times_two(x),
        times(x, 3) == times_two(x) ^ x,
{
    assert(times(x, 2) == times_two(x) && times(x, 3) == times_two(x) ^ x) by (bit_vector);
}

/// A byte rotated left by `n` bits.
pub open spec fn rotated(x: u8, n: u8) -> u8 {
    (x << n) | (x >> ((8 - n) as u8))
}

/// The affine map of the S-box.
pub open spec fn affine(x: u8) -> u8 {
    x ^ rotated(x, 1) ^ rotated(x, 2) ^ rotated(x, 3) ^ rotated(x, 4) ^ 0x63
}

/// What the affine map takes to `x`.
pub open spec fn affine_inverse(x: u8) -> u8 {
    rotated(x, 1) ^ rotated(x, 3) ^ rotated(x, 6) ^ 0x05
}

/// Whether `y` is the multiplicative inverse of `x`, zero being its own.
pub open spec fn is_inverse(x: u8, y: u8) -> bool {
    if x == 0 {
        y == 0
    } else {
        times(x, y) == 1
    }
}

/// The multiplicative inverse of `x`, zero being its own.
pub open spec fn inverse(x: u8) -> u8 {
    choose|y: u8| is_inverse(x, y)
}

/// The S-box: the inverse in the field, under the affine map.
pub open spec fn sub_byte(x: u8) -> u8 {
    affine(inverse(x))
}

/// What the S-box puts in the place of each byte.
const SBOX: [u8; 256] = [
    0x63, 0x7c, 0x77, 0x7b, 0xf2, 0x6b, 0x6f, 0xc5, 0x30, 0x01, 0x67, 0x2b, 0xfe, 0xd7, 0xab, 0x76,
    0xca, 0x82, 0xc9, 0x7d, 0xfa, 0x59, 0x47, 0xf0, 0xad, 0xd4, 0xa2, 0xaf, 0x9c, 0xa4, 0x72, 0xc0,
    0xb7, 0xfd, 0x93, 0x26, 0x36, 0x3f, 0xf7, 0xcc, 0x34, 0xa5, 0xe5, 0xf1, 0x71, 0xd8, 0x31, 0x15,
    0x04, 0xc7, 0x23, 0xc3, 0x18, 0x96, 0x05, 0x9a, 0x07, 0x12, 0x80, 0xe2, 0xeb, 0x27, 0xb2, 0x75,
    0x09, 0x83, 0x2c, 0x1a, 0x1b, 0x6e, 0x5a, 0xa0, 0x52, 0x3b, 0xd6, 0xb3, 0x29, 0xe3, 0x2f, 0x84,
    0x53, 0xd1, 0x00, 0xed, 0x20, 0xfc, 0xb1, 0x5b, 0x6a, 0xcb, 0xbe, 0x39, 0x4a, 0x4c, 0x58, 0xcf,
    0xd0, 0xef, 0xaa, 0xfb, 0x43, 0x4d, 0x33, 0x85, 0x45, 0xf9, 0x02, 0x7f, 0x50, 0x3c, 0x9f, 0xa8,
    0x51, 0xa3, 0x40, 0x8f, 0x92, 0x9d, 0x38, 0xf5, 0xbc, 0xb6, 0xda, 0x21, 0x10, 0xff, 0xf3, 0xd2,
    0xcd, 0x0c, 0x13, 0xec, 0x5f, 0x97, 0x44, 0x17, 0xc4, 0xa7, 0x7e, 0x3d, 0x64, 0x5d, 0x19, 0x73,
    0x60, 0x81, 0x4f, 0xdc, 0x22, 0x2a, 0x90, 0x88, 0x46, 0xee, 0xb8, 0x14, 0xde, 0x5e, 0x0b, 0xdb,
    0xe0, 0x32, 0x3a, 0x0a, 0x49, 0x06, 0x24, 0x5c, 0xc2, 0xd3, 0xac, 0x62, 0x91, 0x95, 0xe4, 0x79,
    0xe7, 0xc8, 0x37, 0x6d, 0x8d, 0xd5, 0x4e, 0xa9, 0x6c, 0x56, 0xf4, 0xea, 0x65, 0x7a, 0xae, 0x08,
    0xba, 0x78, 0x25, 0x2e, 0x1c, 0xa6, 0xb4, 0xc6, 0xe8, 0xdd, 0x74, 0x1f, 0x4b, 0xbd, 0x8b, 0x8a,
    0x70, 0x3e, 0xb5, 0x66, 0x48, 0x03, 0xf6, 0x0e, 0x61, 0x35, 0x57, 0xb9, 0x86, 0xc1, 0x1d, 0x9e,
    0xe1, 0xf8, 0x98, 0x11, 0x69, 0xd9, 0x8e, 0x94, 0x9b, 0x1e, 0x87, 0xe9, 0xce, 0x55, 0x28, 0xdf,
    0x8c, 0xa1, 0x89, 0x0d, 0xbf, 0xe6, 0x42, 0x68, 0x41, 0x99, 0x2d, 0x0f, 0xb0, 0x54, 0xbb, 0x16,
];

/// Entry `i` of sixteen.
spec fn pick(
    i: u8,
    e0: u8,
    e1: u8,
    e2: u8,
    e3: u8,
    e4: u8,
    e5: u8,
    e6: u8,
    e7: u8,
    e8: u8,
    e9: u8,
    e10: u8,
    e11: u8,
    e12: u8,
    e13: u8,
    e14: u8,
    e15: u8,
) -> u8 {
    if i == 0 {
        e0
    } else if i == 1 {
        e1
    } else if i == 2 {
        e2
    } else if i == 3 {
        e3
    } else if i == 4 {
        e4
    } else if i == 5 {
        e5
    } else if i == 6 {
        e6
    } else if i == 7 {
        e7
    } else if i == 8 {
        e8
    } else if i == 9 {
        e9
    } else if i == 10 {
        e10
    } else if i == 11 {
        e11
    } else if i == 12 {
        e12
    } else if i == 13 {
        e13
    } else if i == 14 {
        e14
    } else {
        e15
    }
}

/// Each entry of the table comes, back through the affine map, from the inverse
/// of its place.
proof fn lemma_table(x: u8)
    ensures
        is_inverse(x, affine_inverse(SBOX@[x as int])),
{
    if x < 0x40 {
        lemma_first_quarter(x);
    } else if x < 0x80 {
        lemma_second_quarter(x);
    } else if x < 0xc0 {
        lemma_third_quarter(x);
    } else {
        lemma_fourth_quarter(x);
    }
}

#[verifier::rlimit(30)]
proof fn lemma_first_quarter(x: u8)
    requires
        0x0 <= x < 0x40,
    ensures
        is_inverse(x, affine_inverse(SBOX@[x as int])),
{
    let i = x % 0x10;
    if x < 0x10 {
        assert(SBOX@[x as int] == pick(
            i,
            0x63, 0x7c, 0x77, 0x7b, 0xf2, 0x6b, 0x6f, 0xc5,
            0x30, 0x01, 0x67, 0x2b, 0xfe, 0xd7, 0xab, 0x76,
        ));
        assert(is_inverse(x, affine_inverse(pick(
            i,
            0x63, 0x7c, 0x77, 0x7b, 0xf2, 0x6b, 0x6f, 0xc5,
            0x30, 0x01, 0x67, 0x2b, 0xfe, 0xd7, 0xab, 0x76,
        )))) by (bit_vector)
            requires
                i < 0x10,
                x == 0x00 + i,
        ;
    } else if x < 0x20 {
        assert(SBOX@[x as int] == pick(
            i,
            0xca, 0x82, 0xc9, 0x7d, 0xfa, 0x59, 0x47, 0xf0,
            0xad, 0xd4, 0xa2, 0xaf, 0x9c, 0xa4, 0x72, 0xc0,
        ));
        assert(is_inverse(x, affine_inverse(pick(
            i,
            0xca, 0x82, 0xc9, 0x7d, 0xfa, 0x59, 0x47, 0xf0,
            0xad, 0xd4, 0xa2, 0xaf, 0x9c, 0xa4, 0x72, 0xc0,
        )))) by (bit_vector)
            requires
                i < 0x10,
                x == 0x10 + i,
        ;
    } else if x < 0x30 {
        assert(SBOX@[x as int] == pick(
            i,
            0xb7, 0xfd, 0x93, 0x26, 0x36, 0x3f, 0xf7, 0xcc,
            0x34, 0xa5, 0xe5, 0xf1, 0x71, 0xd8, 0x31, 0x15,
        ));
        assert(is_inverse(x, affine_inverse(pick(
            i,
            0xb7, 0xfd, 0x93, 0x26, 0x36, 0x3f, 0xf7, 0xcc,
            0x34, 0xa5, 0xe5, 0xf1, 0x71, 0xd8, 0x31, 0x15,
        )))) by (bit_vector)
            requires
                i < 0x10,
                x == 0x20 + i,
        ;
    } else {
        assert(SBOX@[x as int] == pick(
            i,
            0x04, 0xc7, 0x23, 0xc3, 0x18, 0x96, 0x05, 0x9a,
            0x07, 0x12, 0x80, 0xe2, 0xeb, 0x27, 0xb2, 0x75,
        ));
        assert(is_inverse(x, affine_inverse(pick(
            i,
            0x04, 0xc7, 0x23, 0xc3, 0x18, 0x96, 0x05, 0x9a,
            0x07, 0x12, 0x80, 0xe2, 0xeb, 0x27, 0xb2, 0x75,
        )))) by (bit_vector)
            requires
                i < 0x10,
                x == 0x30 + i,
        ;
    }
}

#[verifier::rlimit(30)]
proof fn lemma_second_quarter(x: u8)
    requires
        0x40 <= x < 0x80,
    ensures
        is_inverse(x, affine_inverse(SBOX@[x as int])),
{
    let i = x % 0x10;
    if x < 0x50 {
        assert(SBOX@[x as int] == pick(
            i,
            0x09, 0x83, 0x2c, 0x1a, 0x1b, 0x6e, 0x5a, 0xa0,
            0x52, 0x3b, 0xd6, 0xb3, 0x29, 0xe3, 0x2f, 0x84,
        ));
        assert(is_inverse(x, affine_inverse(pick(
            i,
            0x09, 0x83, 0x2c, 0x1a, 0x1b, 0x6e, 0x5a, 0xa0,
            0x52, 0x3b, 0xd6, 0xb3, 0x29, 0xe3, 0x2f, 0x84,
        )))) by (bit_vector)
            requires
                i < 0x10,
                x == 0x40 + i,
        ;
    } else if x < 0x60 {
        assert(SBOX@[x as int] == pick(
            i,
            0x53, 0xd1, 0x00, 0xed, 0x20, 0xfc, 0xb1, 0x5b,
            0x6a, 0xcb, 0xbe, 0x39, 0x4a, 0x4c, 0x58, 0xcf,
        ));
        assert(is_inverse(x, affine_inverse(pick(
            i,
            0x53, 0xd1, 0x00, 0xed, 0x20, 0xfc, 0xb1, 0x5b,
            0x6a, 0xcb, 0xbe, 0x39, 0x4a, 0x4c, 0x58, 0xcf,
        )))) by (bit_vector)
            requires
                i < 0x10,
                x == 0x50 + i,
        ;
    } else if x < 0x70 {
        assert(SBOX@[x as int] == pick(
            i,
            0xd0, 0xef, 0xaa, 0xfb, 0x43, 0x4d, 0x33, 0x85,
            0x45, 0xf9, 0x02, 0x7f, 0x50, 0x3c, 0x9f, 0xa8,
        ));
        assert(is_inverse(x, affine_inverse(pick(
            i,
            0xd0, 0xef, 0xaa, 0xfb, 0x43, 0x4d, 0x33, 0x85,
            0x45, 0xf9, 0x02, 0x7f, 0x50, 0x3c, 0x9f, 0xa8,
        )))) by (bit_vector)
            requires
                i < 0x10,
                x == 0x60 + i,
        ;
    } else {
        assert(SBOX@[x as int] == pick(
            i,
            0x51, 0xa3, 0x40, 0x8f, 0x92, 0x9d, 0x38, 0xf5,
            0xbc, 0xb6, 0xda, 0x21, 0x10, 0xff, 0xf3, 0xd2,
        ));
        assert(is_inverse(x, affine_inverse(pick(
            i,
            0x51, 0xa3, 0x40, 0x8f, 0x92, 0x9d, 0x38, 0xf5,
            0xbc, 0xb6, 0xda, 0x21, 0x10, 0xff, 0xf3, 0xd2,
        )))) by (bit_vector)
            requires
                i < 0x10,
                x == 0x70 + i,
        ;
    }
}

#[verifier::rlimit(30)]
proof fn lemma_third_quarter(x: u8)
    requires
        0x80 <= x < 0xc0,
    ensures
        is_inverse(x, affine_inverse(SBOX@[x as int])),
{
    let i = x % 0x10;
    if x < 0x90 {
        assert(SBOX@[x as int] == pick(
            i,
            0xcd, 0x0c, 0x13, 0xec, 0x5f, 0x97, 0x44, 0x17,
            0xc4, 0xa7, 0x7e, 0x3d, 0x64, 0x5d, 0x19, 0x73,
        ));
        assert(is_inverse(x, affine_inverse(pick(
            i,
            0xcd, 0x0c, 0x13, 0xec, 0x5f, 0x97, 0x44, 0x17,
            0xc4, 0xa7, 0x7e, 0x3d, 0x64, 0x5d, 0x19, 0x73,
        )))) by (bit_vector)
            requires
                i < 0x10,
                x == 0x80 + i,
        ;
    } else if x < 0xa0 {
        assert(SBOX@[x as int] == pick(
            i,
            0x60, 0x81, 0x4f, 0xdc, 0x22, 0x2a, 0x90, 0x88,
            0x46, 0xee, 0xb8, 0x14, 0xde, 0x5e, 0x0b, 0xdb,
        ));
        assert(is_inverse(x, affine_inverse(pick(
            i,
            0x60, 0x81, 0x4f, 0xdc, 0x22, 0x2a, 0x90, 0x88,
            0x46, 0xee, 0xb8, 0x14, 0xde, 0x5e, 0x0b, 0xdb,
        )))) by (bit_vector)
            requires
                i < 0x10,
                x == 0x90 + i,
        ;
    } else if x < 0xb0 {
        assert(SBOX@[x as int] == pick(
            i,
            0xe0, 0x32, 0x3a, 0x0a, 0x49, 0x06, 0x24, 0x5c,
            0xc2, 0xd3, 0xac, 0x62, 0x91, 0x95, 0xe4, 0x79,
        ));
        assert(is_inverse(x, affine_inverse(pick(
            i,
            0xe0, 0x32, 0x3a, 0x0a, 0x49, 0x06, 0x24, 0x5c,
            0xc2, 0xd3, 0xac, 0x62, 0x91, 0x95, 0xe4, 0x79,
        )))) by (bit_vector)
            requires
                i < 0x10,
                x == 0xa0 + i,
        ;
    } else {
        assert(SBOX@[x as int] == pick(
            i,
            0xe7, 0xc8, 0x37, 0x6d, 0x8d, 0xd5, 0x4e, 0xa9,
            0x6c, 0x56, 0xf4, 0xea, 0x65, 0x7a, 0xae, 0x08,
        ));
        assert(is_inverse(x, affine_inverse(pick(
            i,
            0xe7, 0xc8, 0x37, 0x6d, 0x8d, 0xd5, 0x4e, 0xa9,
            0x6c, 0x56, 0xf4, 0xea, 0x65, 0x7a, 0xae, 0x08,
        )))) by (bit_vector)
            requires
                i < 0x10,
                x == 0xb0 + i,
        ;
    }
}

#[verifier::rlimit(30)]
proof fn lemma_fourth_quarter(x: u8)
    requires
        0xc0 <= x < 0x100,
    ensures
        is_inverse(x, affine_inverse(SBOX@[x as int])),
{
    let i = x % 0x10;
    if x < 0xd0 {
        assert(SBOX@[x as int] == pick(
            i,
            0xba, 0x78, 0x25, 0x2e, 0x1c, 0xa6, 0xb4, 0xc6,
            0xe8, 0xdd, 0x74, 0x1f, 0x4b, 0xbd, 0x8b, 0x8a,
        ));
        assert(is_inverse(x, affine_inverse(pick(
            i,
            0xba, 0x78, 0x25, 0x2e, 0x1c, 0xa6, 0xb4, 0xc6,
            0xe8, 0xdd, 0x74, 0x1f, 0x4b, 0xbd, 0x8b, 0x8a,
        )))) by (bit_vector)
            requires
                i < 0x10,
                x == 0xc0 + i,
        ;
    } else if x < 0xe0 {
        assert(SBOX@[x as int] == pick(
            i,
            0x70, 0x3e, 0xb5, 0x66, 0x48, 0x03, 0xf6, 0x0e,
            0x61, 0x35, 0x57, 0xb9, 0x86, 0xc1, 0x1d, 0x9e,
        ));
        assert(is_inverse(x, affine_inverse(pick(
            i,
            0x70, 0x3e, 0xb5, 0x66, 0x48, 0x03, 0xf6, 0x0e,
            0x61, 0x35, 0x57, 0xb9, 0x86, 0xc1, 0x1d, 0x9e,
        )))) by (bit_vector)
            requires
                i < 0x10,
                x == 0xd0 + i,
        ;
    } else if x < 0xf0 {
        assert(SBOX@[x as int] == pick(
            i,
            0xe1, 0xf8, 0x98, 0x11, 0x69, 0xd9, 0x8e, 0x94,
            0x9b, 0x1e, 0x87, 0xe9, 0xce, 0x55, 0x28, 0xdf,
        ));
        assert(is_inverse(x, affine_inverse(pick(
            i,
            0xe1, 0xf8, 0x98, 0x11, 0x69, 0xd9, 0x8e, 0x94,
            0x9b, 0x1e, 0x87, 0xe9, 0xce, 0x55, 0x28, 0xdf,
        )))) by (bit_vector)
            requires
                i < 0x10,
                x == 0xe0 + i,
        ;
    } else {
        assert(SBOX@[x as int] == pick(
            i,
            0x8c, 0xa1, 0x89, 0x0d, 0xbf, 0xe6, 0x42, 0x68,
            0x41, 0x99, 0x2d, 0x0f, 0xb0, 0x54, 0xbb, 0x16,
        ));
        assert(is_inverse(x, affine_inverse(pick(
            i,
            0x8c, 0xa1, 0x89, 0x0d, 0xbf, 0xe6, 0x42, 0x68,
            0x41, 0x99, 0x2d, 0x0f, 0xb0, 0x54, 0xbb, 0x16,
        )))) by (bit_vector)
            requires
                i < 0x10,
                x == 0xf0 + i,
        ;
    }
}

/// A byte has one inverse at most.
proof fn lemma_one_inverse(x: u8, y: u8, z: u8)
    requires
        is_inverse(x, y),
        is_inverse(x, z),
    ensures
        y == z,
{
    assert(y == z) by (bit_vector)
        requires
            is_inverse(x, y),
            is_inverse(x, z),
    ;
}

/// What the affine map takes to a byte, it takes there.
proof fn lemma_affine_inverse(x: u8)
    ensures
        affine(affine_inverse(x)) == x,
{
    assert(affine(affine_inverse(x)) == x) by (bit_vector);
}

/// Every byte has an inverse, and only one.
pub proof fn inverse_is_the_only_one(x: u8, y: u8)
    ensures
        is_inverse(x, inverse(x)),
        is_inverse(x, y) ==> y == inverse(x),
{
    lemma_table(x);
    assert(exists|z: u8| is_inverse(x, z));
    if is_inverse(x, y) {
        lemma_one_inverse(x, y, inverse(x));
    }
}

/// The S-box takes a byte to its inverse in the field, added to its own
/// rotations by one to four bits and a constant; zero goes to the constant.
pub proof fn sub_byte_is_an_affine_inverse(x: u8, y: u8)
    requires
        times(x, y) == 1,
    ensures
        sub_byte(x) == y ^ ((y << 1) | (y >> 7)) ^ ((y << 2) | (y >> 6)) ^ ((y << 3) | (y >> 5)) ^ (
        (y << 4) | (y >> 4)) ^ 0x63,
        sub_byte(0) == 0x63,
{
    assert(times(0, y) == 0 && affine(0) == 0x63 && affine(y) == y ^ ((y << 1) | (y >> 7)) ^ ((y << 2)
        | (y >> 6)) ^ ((y << 3) | (y >> 5)) ^ ((y << 4) | (y >> 4)) ^ 0x63) by (bit_vector);
    inverse_is_the_only_one(x, y);
    inverse_is_the_only_one(0, 0);
}

/// Multiplication in the field distributes over addition, one changes nothing,
/// two shifts left and reduces, and each further power of two doubles again.
pub proof fn times_is_a_product(x: u8, y: u8, z: u8)
    ensures
        times(x, 1) == x,
        times(x, 2) == (x << 1) ^ (if x & 0x80 != 0 {
            0x1b
        } else {
            0
        }),
        times(x, 0x04) == times(times(x, 0x02), 2),
        times(x, 0x08) == times(times(x, 0x04), 2),
        times(x, 0x10) == times(times(x, 0x08), 2),
        times(x, 0x20) == times(times(x, 0x10), 2),
        times(x, 0x40) == times(times(x, 0x20), 2),
        times(x, 0x80) == times(times(x, 0x40), 2),
        times(x, y ^ z) == times(x, y) ^ times(x, z),
{
    assert(times(x, 1) == x && times(x, 2) == (x << 1) ^ (if x & 0x80 != 0 {
        0x1bu8
    } else {
        0u8
    })) by (bit_vector);
    assert(times(x, 0x04) == times(times(x, 0x02), 2) && times(x, 0x08) == times(times(x, 0x04), 2)
        && times(x, 0x10) == times(times(x, 0x08), 2) && times(x, 0x20) == times(times(x, 0x10), 2)
        && times(x, 0x40) == times(times(x, 0x20), 2) && times(x, 0x80) == times(times(x, 0x40), 2))
        by (bit_vector);
    assert(times(x, y ^ z) == times(x, y) ^ times(x, z)) by (bit_vector);
}

/// The S-box puts no byte in the place of two.
pub proof fn sub_byte_is_one_to_one(x: u8, y: u8)
    requires
        x != y,
    ensures
        sub_byte(x) != sub_byte(y),
{
    let a = inverse(x);
    let b = inverse(y);
    inverse_is_the_only_one(x, a);
    inverse_is_the_only_one(y, b);
    if a == b {
        assert(x == y) by (bit_vector)
            requires
                is_inverse(x, a),
                is_inverse(y, a),
        ;
    }
    assert(affine_inverse(affine(a)) == a && affine_inverse(affine(b)) == b) by (bit_vector);
}

/// What the S-box puts in the place of `x`.
pub fn substitute(x: u8) -> (out: u8)
    ensures
        out == sub_byte(x),
{
    proof {
        let y = affine_inverse(SBOX@[x as int]);
        lemma_table(x);
        inverse_is_the_only_one(x, y);
        lemma_affine_inverse(SBOX@[x as int]);
    }
    SBOX[x as usize]
}

} // verus!
