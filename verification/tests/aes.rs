//! AES-128, CMAC and the counter stream against their published vectors.

use lorawan::aes::{cmac, counter, encrypt, BLOCK};

const KEY: [u8; BLOCK] = [
    0x2b, 0x7e, 0x15, 0x16, 0x28, 0xae, 0xd2, 0xa6, 0xab, 0xf7, 0x15, 0x88, 0x09, 0xcf, 0x4f,
    0x3c,
];

#[test]
fn the_fips_197_vector_encrypts_as_the_standard_says() {
    let key: [u8; BLOCK] = std::array::from_fn(|i| u8::try_from(i).unwrap_or(0));
    let block: [u8; BLOCK] = std::array::from_fn(|i| u8::try_from(i * 0x11).unwrap_or(0));
    assert_eq!(
        encrypt(&key, &block),
        [
            0x69, 0xc4, 0xe0, 0xd8, 0x6a, 0x7b, 0x04, 0x30, 0xd8, 0xcd, 0xb7, 0x80, 0x70, 0xb4,
            0xc5, 0x5a
        ]
    );
}

#[test]
fn the_rfc_4493_vectors_mac_as_the_rfc_says() {
    assert_eq!(
        cmac(&KEY, &[]),
        [
            0xbb, 0x1d, 0x69, 0x29, 0xe9, 0x59, 0x37, 0x28, 0x7f, 0xa3, 0x7d, 0x12, 0x9b, 0x75,
            0x67, 0x46
        ]
    );
    let sixteen = [
        0x6b, 0xc1, 0xbe, 0xe2, 0x2e, 0x40, 0x9f, 0x96, 0xe9, 0x3d, 0x7e, 0x11, 0x73, 0x93,
        0x17, 0x2a,
    ];
    assert_eq!(
        cmac(&KEY, &sixteen),
        [
            0x07, 0x0a, 0x16, 0xb4, 0x6b, 0x4d, 0x41, 0x44, 0xf7, 0x9b, 0xdd, 0x9d, 0xd0, 0x4a,
            0x28, 0x7c
        ]
    );
    let forty = [
        0x6b, 0xc1, 0xbe, 0xe2, 0x2e, 0x40, 0x9f, 0x96, 0xe9, 0x3d, 0x7e, 0x11, 0x73, 0x93,
        0x17, 0x2a, 0xae, 0x2d, 0x8a, 0x57, 0x1e, 0x03, 0xac, 0x9c, 0x9e, 0xb7, 0x6f, 0xac,
        0x45, 0xaf, 0x8e, 0x51, 0x30, 0xc8, 0x1c, 0x46, 0xa3, 0x5c, 0xe4, 0x11,
    ];
    assert_eq!(
        cmac(&KEY, &forty),
        [
            0xdf, 0xa6, 0x67, 0x47, 0xde, 0x9a, 0xe6, 0x30, 0x30, 0xca, 0x32, 0x61, 0x14, 0x97,
            0xc8, 0x27
        ]
    );
}

#[test]
fn the_counter_stream_is_its_own_inverse() {
    let first = [1, 0, 0, 0, 0, 0, 0x12, 0x34, 0x56, 0x78, 7, 0, 0, 0, 0, 0];
    let plain: Vec<u8> = (0..50).collect();
    let cipher = counter(&KEY, &first, &plain);
    assert_ne!(cipher, plain);
    assert_eq!(counter(&KEY, &first, &cipher), plain);
    assert!(counter(&KEY, &first, &[]).is_empty());
}

#[test]
fn a_mac_of_whole_blocks_takes_the_first_subkey() {
    let sixty_four = [
        0x6b, 0xc1, 0xbe, 0xe2, 0x2e, 0x40, 0x9f, 0x96, 0xe9, 0x3d, 0x7e, 0x11, 0x73, 0x93,
        0x17, 0x2a, 0xae, 0x2d, 0x8a, 0x57, 0x1e, 0x03, 0xac, 0x9c, 0x9e, 0xb7, 0x6f, 0xac,
        0x45, 0xaf, 0x8e, 0x51, 0x30, 0xc8, 0x1c, 0x46, 0xa3, 0x5c, 0xe4, 0x11, 0xe5, 0xfb,
        0xc1, 0x19, 0x1a, 0x0a, 0x52, 0xef, 0xf6, 0x9f, 0x24, 0x45, 0xdf, 0x4f, 0x9b, 0x17,
        0xad, 0x2b, 0x41, 0x7b, 0xe6, 0x6c, 0x37, 0x10,
    ];
    assert_eq!(
        cmac(&KEY, &sixty_four),
        [
            0x51, 0xf0, 0xbe, 0xbf, 0x7e, 0x3b, 0x9d, 0x92, 0xfc, 0x49, 0x74, 0x17, 0x79, 0x36,
            0x3c, 0xfe
        ]
    );
}

#[test]
fn the_counter_stream_is_the_cipher_of_blocks_that_count_from_one() {
    let first = [1, 0, 0, 0, 0, 0, 0x12, 0x34, 0x56, 0x78, 7, 0, 0, 0, 0, 0];
    let stream = counter(&KEY, &first, &[0; 40]);
    for (index, chunk) in stream.chunks(BLOCK).enumerate() {
        let mut block = first;
        block[15] = u8::try_from(index + 1).expect("few blocks");
        assert_eq!(chunk, &encrypt(&KEY, &block)[..chunk.len()]);
    }
}

#[test]
fn the_counter_stays_at_the_most_a_byte_holds() {
    let first = [1, 0, 0, 0, 0, 0, 0x12, 0x34, 0x56, 0x78, 7, 0, 0, 0, 0, 0];
    let stream = counter(&KEY, &first, &vec![0; 257 * BLOCK]);
    let block = |index: usize| &stream[index * BLOCK..(index + 1) * BLOCK];
    assert_ne!(block(253), block(254));
    assert_eq!(block(254), block(255));
    assert_eq!(block(254), block(256));
}

#[test]
fn different_blocks_stay_different_under_a_key() {
    let mut seen: Vec<[u8; BLOCK]> = Vec::new();
    for at in 0..BLOCK {
        for bit in 0..8 {
            let mut block = [0; BLOCK];
            block[at] = 1 << bit;
            seen.push(encrypt(&KEY, &block));
        }
    }
    seen.sort_unstable();
    seen.dedup();
    assert_eq!(seen.len(), 128);
}
