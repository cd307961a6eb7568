//! The device's session.

use lorawan::frame::{Frame, Keys, MType};
use lorawan::{Device, Error};

const DEV_ADDR: u32 = 7;

fn keys() -> Keys {
    Keys {
        nwk_s_key: [0x11; 16],
        app_s_key: [0x22; 16],
    }
}

fn down(mtype: MType, dev_addr: u32, fcnt: u32, port: u8, payload: &[u8]) -> Frame {
    Frame::new(mtype, dev_addr, fcnt, port, payload).expect("frame")
}

#[test]
fn frames_up_take_their_counters_in_turn() {
    let mut device = Device::new(DEV_ADDR, keys());
    assert_eq!(device.address(), DEV_ADDR);
    let first = device.seal_up(true, 1, b"a").expect("first");
    assert_eq!(
        device.seal_up(true, 1, &[0; 223]),
        Err(Error::TooLong),
        "refused, and its counter is gone"
    );
    let third = device.seal_up(false, 2, b"b").expect("third");
    assert_eq!(
        Frame::open(&first, &keys(), 0),
        Ok(down(MType::ConfirmedUp, DEV_ADDR, 0, 1, b"a"))
    );
    assert_eq!(
        Frame::open(&third, &keys(), 0),
        Ok(down(MType::UnconfirmedUp, DEV_ADDR, 2, 2, b"b"))
    );
}

#[test]
fn a_window_brings_a_frame_nothing_or_a_reason() {
    let mut device = Device::new(DEV_ADDR, keys());
    let frame = down(MType::UnconfirmedDown, DEV_ADDR, 0, 3, b"set 20");
    assert_eq!(
        device.hear(Ok(Some(frame.seal(&keys())))),
        Ok(Some(frame))
    );
    assert_eq!(device.hear(Ok(None)), Ok(None));
    assert_eq!(device.hear(Ok(Some(vec![0; 5]))), Err(Error::CutOff));
    assert_eq!(device.hear(Err(Error::NoAck)), Err(Error::NoAck));
    let up = down(MType::UnconfirmedUp, DEV_ADDR, 1, 3, b"").seal(&keys());
    assert_eq!(device.hear(Ok(Some(up))), Err(Error::NotForDevice));
    let other = down(MType::UnconfirmedDown, 8, 1, 3, b"").seal(&keys());
    assert_eq!(device.hear(Ok(Some(other))), Err(Error::NotForDevice));
}

#[test]
fn the_counter_down_follows_the_frames_that_came() {
    let mut device = Device::new(DEV_ADDR, keys());
    for fcnt in [0, 0xffff, 0x1_0000, 0x1_ffff, 0x2_0000] {
        let frame = down(MType::ConfirmedDown, DEV_ADDR, fcnt, 3, b"x");
        assert_eq!(
            device.hear(Ok(Some(frame.seal(&keys())))),
            Ok(Some(frame)),
            "{fcnt:#x}"
        );
    }
}

#[test]
fn a_confirmed_frame_is_settled_by_its_ack() {
    let mut device = Device::new(DEV_ADDR, keys());
    let plain = down(MType::UnconfirmedDown, DEV_ADDR, 0, 3, b"set 20");
    assert_eq!(device.settle(Ok(None)), Err(Error::NoAck));
    assert_eq!(device.settle(Err(Error::Mic)), Err(Error::Mic));
    assert_eq!(device.settle(Ok(Some(plain.clone()))), Err(Error::NoAckBit));
    assert_eq!(device.release(), None, "nothing of these was kept");
    let bare = down(MType::UnconfirmedDown, DEV_ADDR, 0, 0, b"").acknowledging();
    assert_eq!(device.settle(Ok(Some(bare))), Ok(()));
    assert_eq!(device.release(), None, "a bare ACK is not kept");
    let empty = down(MType::UnconfirmedDown, DEV_ADDR, 1, 3, b"").acknowledging();
    let acked = plain.acknowledging();
    assert_eq!(device.settle(Ok(Some(acked.clone()))), Ok(()));
    assert_eq!(device.settle(Ok(Some(empty.clone()))), Ok(()));
    assert_eq!(device.release(), Some(acked), "the oldest first");
    assert_eq!(device.release(), Some(empty));
    assert_eq!(device.release(), None);
}

#[test]
fn past_the_last_counter_down_only_frames_are_refused() {
    let mut device = Device::new(DEV_ADDR, keys());
    for high in 0..=0xffffu32 {
        let frame = down(MType::UnconfirmedDown, DEV_ADDR, high << 16 | 0xffff, 3, b"x");
        device.hear(Ok(Some(frame.seal(&keys())))).expect("down");
    }
    let again = down(MType::UnconfirmedDown, DEV_ADDR, 0, 3, b"x").seal(&keys());
    assert_eq!(device.hear(Ok(Some(again))), Err(Error::Spent));
    assert_eq!(device.hear(Ok(None)), Ok(None));
    assert_eq!(device.hear(Err(Error::Mic)), Err(Error::Mic));
}

#[test]
fn counters_up_run_from_zero() {
    let mut device = Device::new(DEV_ADDR, keys());
    for fcnt in 0..70_000u32 {
        let bytes = device.seal_up(false, 1, b"").expect("up");
        assert_eq!(&bytes[6..8], &fcnt.to_le_bytes()[..2]);
    }
}

#[test]
fn only_port_zero_without_a_payload_is_a_bare_ack() {
    assert!(down(MType::UnconfirmedDown, DEV_ADDR, 0, 0, b"").is_bare_ack());
    assert!(!down(MType::UnconfirmedDown, DEV_ADDR, 0, 0, b"x").is_bare_ack());
    assert!(!down(MType::UnconfirmedDown, DEV_ADDR, 0, 1, b"").is_bare_ack());
}

#[test]
fn no_counter_up_is_given_twice() {
    let mut device = Device::new(DEV_ADDR, keys());
    for n in 0..1000 {
        assert_eq!(device.next_fcnt_up(), n);
    }
    assert_eq!((device.dev_addr, device.keys), (DEV_ADDR, keys()));
}
