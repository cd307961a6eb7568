//! Frames on the air, and streams as frame payloads.

use lorawan::aes;
use lorawan::aes::BLOCK;
use lorawan::frame::{payloads, ACK, FIRST, LAST, MAX_FRAGMENT, MAX_FRM_PAYLOAD};
use lorawan::frame::{PORT_FRAGMENT, PORT_STREAM};
use lorawan::frame::{Frame, Keys, MType};
use lorawan::Error;

fn keys() -> Keys {
    Keys {
        nwk_s_key: [0x11; BLOCK],
        app_s_key: [0x22; BLOCK],
    }
}

#[test]
fn a_sealed_frame_opens_under_the_same_keys_and_counter() {
    let frame =
        Frame::new(MType::ConfirmedUp, 0x2601_1b2c, 0x0001_0007, 1, b"21.5 C").expect("frame");
    let bytes = frame.seal(&keys());
    assert_eq!(bytes[0], 0x80, "confirmed up");
    assert_eq!(
        &bytes[1..5],
        &[0x2c, 0x1b, 0x01, 0x26],
        "DevAddr little-endian"
    );
    assert_eq!(&bytes[6..8], &[7, 0], "the low sixteen bits of the counter");
    assert_eq!(bytes.len(), 9 + 6 + 4);
    assert_ne!(&bytes[9..15], b"21.5 C", "encrypted");
    assert_eq!(Frame::open(&bytes, &keys(), 1).expect("open"), frame);
    assert!(
        Frame::open(&bytes, &keys(), 0).is_err(),
        "the wrong high bits"
    );
    let other = Keys {
        nwk_s_key: [0x33; BLOCK],
        ..keys()
    };
    assert!(
        Frame::open(&bytes, &other, 1).is_err(),
        "another network's key"
    );
}

#[test]
fn what_is_not_a_frame_is_refused() {
    let frame = Frame::new(MType::UnconfirmedDown, 1, 0, 1, b"").expect("frame");
    let bytes = frame.acknowledging().seal(&keys());
    assert_eq!(bytes[5], ACK);
    assert!(Frame::open(&bytes, &keys(), 0).expect("open").ack);
    assert!(Frame::open(&bytes[..12], &keys(), 0).is_err(), "cut off");
    let mut bad = bytes.clone();
    bad[bytes.len() - 1] ^= 1;
    assert!(Frame::open(&bad, &keys(), 0).is_err(), "MIC");
    let mut join = bytes.clone();
    join[0] = 0x00;
    assert!(Frame::open(&join, &keys(), 0).is_err(), "a join request");
    let mut options = bytes;
    options[5] |= 2;
    assert!(Frame::open(&options, &keys(), 0).is_err(), "frame options");
    assert!(Frame::new(MType::UnconfirmedUp, 1, 0, 1, &[0; 223]).is_err());
    assert!(Frame::new(MType::UnconfirmedUp, 1, 0, 1, &[0; 222]).is_ok());
}

#[test]
fn a_stream_travels_whole_where_it_fits_and_in_flagged_fragments_beyond() {
    let short = payloads(&[7; 222]);
    assert_eq!(short, vec![(PORT_STREAM, vec![7; 222])]);
    assert_eq!(payloads(&[]), vec![(PORT_STREAM, Vec::new())]);
    let long: Vec<u8> = (0..500u32)
        .map(|n| u8::try_from(n % 256).unwrap_or(0))
        .collect();
    let fragments = payloads(&long);
    assert_eq!(fragments.len(), 3);
    assert_eq!(fragments[0].0, PORT_FRAGMENT);
    assert_eq!(fragments[0].1[0], FIRST);
    assert_eq!(fragments[1].1[0], 0);
    assert_eq!(fragments[2].1[0], LAST);
    assert_eq!(fragments[2].1.len(), 1 + 500 - 2 * MAX_FRAGMENT);
    let joined: Vec<u8> = fragments
        .iter()
        .flat_map(|(_, f)| f[1..].to_vec())
        .collect();
    assert_eq!(joined, long);
    assert!(MType::ConfirmedDown.is_confirmed() && !MType::ConfirmedDown.is_uplink());
}

#[test]
fn each_refusal_has_its_reason() {
    let frame = Frame::new(MType::UnconfirmedUp, 1, 0, 1, b"a").expect("frame");
    let bytes = frame.seal(&keys());
    let refused = |bytes: &[u8]| Frame::open(bytes, &keys(), 0).expect_err("refused");
    assert_eq!(refused(&bytes[..12]), Error::CutOff);
    for code in [0, 1, 6, 7] {
        let mut other = bytes.clone();
        other[0] = code << 5;
        assert_eq!(refused(&other), Error::MessageType(code));
    }
    let mut options = bytes.clone();
    options[5] = 0x0f;
    assert_eq!(refused(&options), Error::FrameOptions);
    for at in 6..bytes.len() {
        let mut bad = bytes.clone();
        bad[at] ^= 0x10;
        assert_eq!(refused(&bad), Error::Mic, "byte {at}");
    }
    assert_eq!(
        Frame::new(MType::UnconfirmedUp, 1, 0, 1, &[0; 223]),
        Err(Error::TooLong)
    );
}

#[test]
fn a_header_is_laid_out_byte_by_byte() {
    let down = Frame {
        mtype: MType::ConfirmedDown,
        dev_addr: 0x0403_0201,
        ack: true,
        fcnt: 0xffff_a1b2,
        port: 9,
        payload: Vec::new(),
    };
    let bytes = down.seal(&keys());
    assert_eq!(
        &bytes[..9],
        &[0xa0, 0x01, 0x02, 0x03, 0x04, ACK, 0xb2, 0xa1, 9]
    );
    assert_eq!(bytes.len(), 13);
    assert_eq!(Frame::open(&bytes, &keys(), 0xffff), Ok(down));
}

#[test]
fn the_mic_covers_the_block_that_names_the_frame() {
    let frame = Frame::new(MType::UnconfirmedDown, 0x0403_0201, 0x0807_0605, 1, b"21").expect("frame");
    let bytes = frame.seal(&keys());
    let cut = bytes.len() - 4;
    let mut covered = vec![0x49, 0, 0, 0, 0, 1, 1, 2, 3, 4, 5, 6, 7, 8, 0, 11];
    covered.extend_from_slice(&bytes[..cut]);
    assert_eq!(bytes[cut..], aes::cmac(&keys().nwk_s_key, &covered)[..4]);
    let first = [1, 0, 0, 0, 0, 1, 1, 2, 3, 4, 5, 6, 7, 8, 0, 0];
    assert_eq!(
        bytes[9..cut],
        aes::counter(&keys().app_s_key, &first, b"21")[..]
    );
}

#[test]
fn every_type_opens_as_it_was_sealed() {
    let types = [
        (MType::UnconfirmedUp, 0x40, true, false),
        (MType::UnconfirmedDown, 0x60, false, false),
        (MType::ConfirmedUp, 0x80, true, true),
        (MType::ConfirmedDown, 0xa0, false, true),
    ];
    for (mtype, first, uplink, confirmed) in types {
        let frame = Frame::new(mtype, 7, 70_000, 3, &[9; 222]).expect("frame");
        let bytes = frame.seal(&keys());
        assert_eq!(bytes[0], first);
        assert_eq!(bytes.len(), 222 + 13);
        assert_eq!(Frame::open(&bytes, &keys(), 1), Ok(frame));
        assert_eq!(mtype.is_uplink(), uplink);
        assert_eq!(mtype.is_confirmed(), confirmed);
    }
}

#[test]
fn an_opened_frame_seals_back_to_its_bytes() {
    let frame = Frame::new(MType::UnconfirmedUp, 7, 0x0002_0003, 1, b"whole")
        .expect("frame")
        .acknowledging();
    let bytes = frame.seal(&keys());
    let again = Frame::open(&bytes, &keys(), 2).expect("open");
    assert_eq!(again.seal(&keys()), bytes);
}

#[test]
fn a_frame_longer_than_one_may_be_made_still_opens() {
    let frame = Frame {
        mtype: MType::UnconfirmedUp,
        dev_addr: 7,
        ack: false,
        fcnt: 0,
        port: 1,
        payload: vec![5; 300],
    };
    let bytes = frame.seal(&keys());
    assert_eq!(Frame::open(&bytes, &keys(), 0), Ok(frame));
}

#[test]
fn parts_are_counted_flagged_and_joined_at_every_boundary() {
    for len in [0, 1, 221, 222, 223, 441, 442, 443, 663, 664, 1000] {
        let bytes: Vec<u8> = (0..len).map(|n| u8::try_from(n % 251).expect("byte")).collect();
        let parts = payloads(&bytes);
        if len <= MAX_FRM_PAYLOAD {
            assert_eq!(parts, vec![(PORT_STREAM, bytes)]);
            continue;
        }
        let mut joined: Vec<u8> = Vec::new();
        for (at, (port, part)) in parts.iter().enumerate() {
            assert_eq!(*port, PORT_FRAGMENT);
            assert!(part.len() > 1 && part.len() <= MAX_FRM_PAYLOAD);
            assert_eq!(part[0] & FIRST != 0, at == 0);
            assert_eq!(part[0] & LAST != 0, at + 1 == parts.len());
            joined.extend_from_slice(&part[1..]);
        }
        assert_eq!(joined, bytes);
    }
    assert_eq!(payloads(&[7; 223]).len(), 2);
    assert_eq!(payloads(&[7; 442]).len(), 2);
    assert_eq!(payloads(&[7; 443]).len(), 3);
}

#[test]
fn types_and_their_bits_belong_together() {
    for bits in 0..=255u8 {
        match MType::from_bits(bits) {
            Ok(mtype) => {
                assert!((2..=5).contains(&bits));
                assert_eq!(mtype.bits(), bits);
                assert_eq!(MType::from_bits(mtype.bits()), Ok(mtype));
            }
            Err(error) => {
                assert!(!(2..=5).contains(&bits));
                assert_eq!(error, Error::MessageType(bits));
            }
        }
    }
}
