//! The network server's side of one device.

use lorawan::frame;
use lorawan::frame::{Frame, Keys, MType};
use lorawan::server::NetworkServer;
use lorawan::Error;

const DEV_ADDR: u32 = 0x2601_1b2c;

fn keys() -> Keys {
    Keys {
        nwk_s_key: [0x11; 16],
        app_s_key: [0x22; 16],
    }
}

fn uplink(mtype: MType, fcnt: u32, port: u8, payload: &[u8]) -> Vec<u8> {
    Frame::new(mtype, DEV_ADDR, fcnt, port, payload)
        .expect("frame")
        .seal(&keys())
}

#[test]
fn fragments_come_back_together_and_a_confirmed_uplink_is_acknowledged() {
    let mut server = NetworkServer::new(DEV_ADDR, keys());
    let long: Vec<u8> = (0..300u32)
        .map(|n| u8::try_from(n % 256).unwrap_or(0))
        .collect();
    for (fcnt, (port, payload)) in frame::payloads(&long).into_iter().enumerate() {
        let mtype = if fcnt == 1 {
            MType::ConfirmedUp
        } else {
            MType::UnconfirmedUp
        };
        let fcnt = u32::try_from(fcnt).unwrap_or(0);
        server
            .uplink(&uplink(mtype, fcnt, port, &payload))
            .expect("uplink");
    }
    assert_eq!(server.take(), Some((frame::PORT_FRAGMENT, long)));
    assert!(server.take().is_none());
    let ack = server.next_downlink().expect("an ack");
    let ack = Frame::open(&ack, &keys(), 0).expect("open");
    assert!(ack.ack && ack.mtype == MType::UnconfirmedDown && ack.fcnt == 0);
    assert!(
        server.next_downlink().is_none(),
        "one ack for one confirmed frame"
    );
    server
        .uplink(&uplink(MType::UnconfirmedUp, 2, 1, b""))
        .expect("empty");
    assert_eq!(server.take(), Some((frame::PORT_STREAM, Vec::new())));
}

#[test]
fn a_counter_that_does_not_advance_is_refused_as_are_strangers() {
    let mut server = NetworkServer::new(DEV_ADDR, keys());
    server
        .uplink(&uplink(MType::UnconfirmedUp, 5, 1, b"a"))
        .expect("first");
    assert!(
        server
            .uplink(&uplink(MType::UnconfirmedUp, 5, 1, b"a"))
            .is_err(),
        "replay"
    );
    assert!(
        server
            .uplink(&uplink(MType::UnconfirmedUp, 4, 1, b"a"))
            .is_err(),
        "backwards"
    );
    assert!(
        server
            .uplink(&uplink(MType::UnconfirmedUp, 6, 9, b"a"))
            .is_err(),
        "port"
    );
    assert!(
        server
            .uplink(&uplink(MType::UnconfirmedDown, 6, 1, b"a"))
            .is_err(),
        "down"
    );
    assert!(
        server
            .uplink(&uplink(MType::UnconfirmedUp, 6, 2, b""))
            .is_err(),
        "no flags"
    );
    let stranger = Frame::new(MType::UnconfirmedUp, 7, 6, 1, b"a")
        .expect("frame")
        .seal(&keys());
    assert!(server.uplink(&stranger).is_err(), "another device");
    server
        .uplink(&uplink(MType::UnconfirmedUp, 6, 1, b"b"))
        .expect("advances");
    assert_eq!(server.take(), Some((1, b"a".to_vec())));
    assert_eq!(server.take(), Some((1, b"b".to_vec())));
}

#[test]
fn a_downlink_is_sealed_for_the_device_with_its_own_counter() {
    let mut server = NetworkServer::new(DEV_ADDR, keys());
    server.downlink(3, b"set 20").expect("downlink");
    server.downlink(3, b"set 21").expect("downlink");
    let second = server.next_downlink().and_then(|_| server.next_downlink());
    let frame = Frame::open(&second.expect("second"), &keys(), 0).expect("open");
    assert_eq!(
        (frame.port, frame.payload.as_slice(), frame.fcnt),
        (3, &b"set 21"[..], 1)
    );
    assert!(server.downlink(3, &[0; 223]).is_err());
}

#[test]
fn each_refusal_of_an_uplink_has_its_reason_and_changes_nothing() {
    let mut server = NetworkServer::new(DEV_ADDR, keys());
    server
        .uplink(&uplink(MType::UnconfirmedUp, 5, 1, b"a"))
        .expect("first");
    let before = format!("{server:?}");
    let stranger = Frame::new(MType::UnconfirmedUp, 7, 6, 1, b"a")
        .expect("frame")
        .seal(&keys());
    let refusals = [
        (vec![0; 12], Error::CutOff),
        (vec![0; 13], Error::MessageType(0)),
        (stranger, Error::OtherDevice),
        (uplink(MType::ConfirmedDown, 6, 1, b"a"), Error::WrongWay),
        (uplink(MType::UnconfirmedUp, 5, 1, b"a"), Error::Counter),
        (uplink(MType::ConfirmedUp, 6, 9, b"a"), Error::Port(9)),
        (uplink(MType::ConfirmedUp, 6, 0, b""), Error::Port(0)),
        (uplink(MType::ConfirmedUp, 6, 2, b""), Error::NoFlags),
        (uplink(MType::UnconfirmedUp, 0x1_0006, 1, b"a"), Error::Mic),
    ];
    for (bytes, error) in refusals {
        assert_eq!(server.uplink(&bytes), Err(error));
        assert_eq!(format!("{server:?}"), before);
    }
}

#[test]
fn a_counter_may_skip_and_crosses_its_low_bits() {
    let mut server = NetworkServer::new(DEV_ADDR, keys());
    for fcnt in [0, 9, 0xfffe, 0xffff, 0x1_0000, 0x1_ffff, 0x2_0003] {
        let bytes = uplink(MType::UnconfirmedUp, fcnt, 1, b"a");
        assert_eq!(server.uplink(&bytes), Ok(()), "{fcnt:#x}");
        assert!(server.uplink(&bytes).is_err(), "again: {fcnt:#x}");
    }
}

#[test]
fn an_ack_rides_on_the_first_downlink_queued() {
    let mut server = NetworkServer::new(DEV_ADDR, keys());
    server.downlink(3, b"one").expect("queued");
    server.downlink(4, b"two").expect("queued");
    server
        .uplink(&uplink(MType::ConfirmedUp, 0, 1, b"a"))
        .expect("uplink");
    server
        .uplink(&uplink(MType::ConfirmedUp, 1, 1, b"b"))
        .expect("uplink");
    let mut downs: Vec<Frame> = Vec::new();
    while let Some(bytes) = server.next_downlink() {
        downs.push(Frame::open(&bytes, &keys(), 0).expect("open"));
    }
    let shown: Vec<(bool, u32, u8)> = downs.iter().map(|f| (f.ack, f.fcnt, f.port)).collect();
    assert_eq!(shown, vec![(true, 0, 3), (false, 1, 4)]);
}

#[test]
fn an_unconfirmed_uplink_queues_nothing() {
    let mut server = NetworkServer::new(DEV_ADDR, keys());
    server
        .uplink(&uplink(MType::UnconfirmedUp, 0, 1, b"a"))
        .expect("uplink");
    assert!(server.next_downlink().is_none());
}

#[test]
fn a_first_fragment_drops_what_had_arrived_of_another_stream() {
    let mut server = NetworkServer::new(DEV_ADDR, keys());
    let first = [frame::FIRST, 1, 2];
    let again = [frame::FIRST, 3];
    let middle = [0, 4];
    let last = [frame::LAST, 5];
    let parts: [&[u8]; 4] = [&first, &again, &middle, &last];
    for (fcnt, part) in (0u32..).zip(parts) {
        server
            .uplink(&uplink(MType::UnconfirmedUp, fcnt, frame::PORT_FRAGMENT, part))
            .expect("fragment");
    }
    assert_eq!(server.take(), Some((frame::PORT_FRAGMENT, vec![3, 4, 5])));
    let both = [frame::FIRST | frame::LAST, 6];
    server
        .uplink(&uplink(MType::UnconfirmedUp, 9, frame::PORT_FRAGMENT, &both))
        .expect("both");
    assert_eq!(server.take(), Some((frame::PORT_FRAGMENT, vec![6])));
}

#[test]
fn downlinks_run_under_consecutive_counters() {
    let mut server = NetworkServer::new(DEV_ADDR, keys());
    assert_eq!(server.downlink(3, &[0; 223]), Err(Error::TooLong));
    server.downlink(3, &[0; 222]).expect("queued");
    server
        .uplink(&uplink(MType::ConfirmedUp, 0, 1, b"a"))
        .expect("uplink");
    server.next_downlink().expect("first");
    server
        .uplink(&uplink(MType::ConfirmedUp, 1, 1, b"b"))
        .expect("uplink");
    server.downlink(3, b"last").expect("queued");
    let bare = Frame::open(&server.next_downlink().expect("bare"), &keys(), 0).expect("open");
    assert!(bare.ack && bare.is_bare_ack());
    assert_eq!(bare.fcnt, 1);
    let last = Frame::open(&server.next_downlink().expect("last"), &keys(), 0).expect("open");
    assert!(!last.ack && last.fcnt == 2 && last.mtype == MType::UnconfirmedDown);
    assert!(server.next_downlink().is_none());
}

#[test]
fn past_the_last_counter_every_uplink_is_refused() {
    let mut server = NetworkServer::new(DEV_ADDR, keys());
    for high in 0..=0xffffu32 {
        let bytes = uplink(MType::UnconfirmedUp, high << 16 | 0xffff, 1, b"");
        server.uplink(&bytes).expect("up");
        server.take().expect("stream");
    }
    let before = format!("{server:?}");
    for bytes in [
        uplink(MType::UnconfirmedUp, u32::MAX, 1, b""),
        uplink(MType::ConfirmedUp, 0, 1, b""),
        Vec::new(),
    ] {
        assert_eq!(server.uplink(&bytes), Err(Error::Counter));
        assert_eq!(format!("{server:?}"), before);
    }
}

#[test]
fn a_stray_fragment_is_no_stream() {
    let mut server = NetworkServer::new(DEV_ADDR, keys());
    server
        .uplink(&uplink(MType::UnconfirmedUp, 0, 2, &[0x80, 1, 2, 3]))
        .expect("a last without a first");
    assert_eq!(server.take(), None);
    server
        .uplink(&uplink(MType::UnconfirmedUp, 1, 2, &[0, 4]))
        .expect("a middle without a first");
    server
        .uplink(&uplink(MType::ConfirmedUp, 2, 2, &[0x80, 5]))
        .expect("its last");
    assert_eq!(server.take(), None);
    assert!(server.next_downlink().is_some(), "acknowledged all the same");
    for (fcnt, part) in [(3, [0x40, 6]), (4, [0x80, 7]), (5, [0x80, 8])] {
        server
            .uplink(&uplink(MType::UnconfirmedUp, fcnt, 2, &part))
            .expect("fragment");
    }
    assert_eq!(server.take(), Some((2, vec![6, 7])));
    assert_eq!(server.take(), None, "nothing is under way once a stream is whole");
}

#[test]
fn a_stream_arrives_whole_whatever_is_confirmed_of_it() {
    let bytes: Vec<u8> = (0..900u32).map(|n| u8::try_from(n % 256).unwrap_or(0)).collect();
    for confirmed in 0..32u32 {
        let mut server = NetworkServer::new(DEV_ADDR, keys());
        for (fcnt, (port, part)) in (0u32..).zip(frame::payloads(&bytes)) {
            let mtype = if confirmed >> fcnt & 1 == 1 {
                MType::ConfirmedUp
            } else {
                MType::UnconfirmedUp
            };
            server.uplink(&uplink(mtype, fcnt, port, &part)).expect("part");
        }
        assert_eq!(server.take(), Some((frame::PORT_FRAGMENT, bytes.clone())));
        assert_eq!(server.take(), None);
    }
}
