//! Both ends on one in-process radio, and a radio that nobody hears.

use std::collections::VecDeque;
use std::time::Duration;

use lorawan::error::Result;
use lorawan::{Device, Error, Frame, Keys, LoopbackRadio, LorawanTransport, MType};
use lorawan::{NetworkServer, Radio};

/// How long a loopback's receive windows stay open.
const TIMEOUT: Duration = Duration::from_secs(2);

/// The shapes a protocol breaks on.
fn edge_payloads() -> Vec<(&'static str, Vec<u8>)> {
    vec![
        ("empty", Vec::new()),
        ("one byte", vec![0x2a]),
        ("every byte", (0..=255).collect()),
        ("nul run", vec![0; 512]),
        ("high bytes", vec![0xff; 512]),
        ("crlf storm", b"\r\n".repeat(400)),
        (
            "sixty-four kibibytes plus one",
            (0..65_537u32)
                .map(|n| u8::try_from(n * 31 % 256).unwrap_or(0))
                .collect(),
        ),
    ]
}

#[test]
fn a_loopback_round_carries_a_stream_up_to_the_network_server() {
    let mut loopback = LorawanTransport::loopback(TIMEOUT);
    let arrived = loopback.round(b"21.5 C").expect("round");
    assert_eq!(arrived.bytes, b"21.5 C");
    assert_eq!(arrived.origin_uri, "lorawan://loopback/26011b2c?port=1");
    let long = vec![7; 1000];
    let arrived = loopback.round(&long).expect("fragments");
    assert_eq!(arrived.bytes, long);
    assert_eq!(arrived.origin_uri, "lorawan://loopback/26011b2c?port=2");
    assert_eq!(loopback.name(), "lorawan");
    assert!(loopback.directions().receives() && loopback.directions().sends());
}

#[test]
fn the_loopback_returns_the_edges_whole() {
    let mut loopback = LorawanTransport::loopback(TIMEOUT);
    for (name, bytes) in edge_payloads() {
        let arrived = loopback
            .round(&bytes)
            .unwrap_or_else(|error| panic!("{}: {}", name, error.message()));
        assert_eq!(arrived.bytes, bytes, "{name}");
    }
}

#[test]
fn a_downlink_arrives_as_a_stream_and_a_bare_ack_does_not() {
    let mut loopback = LorawanTransport::loopback(TIMEOUT);
    assert!(
        loopback.receive().expect("quiet").is_empty(),
        "empty is not an error"
    );
    loopback
        .radio()
        .server()
        .downlink(3, b"set 20")
        .expect("queued");
    loopback
        .send("lorawan://loopback", b"confirmed")
        .expect("sending");
    let arrived = loopback.receive().expect("receiving");
    assert_eq!(arrived.len(), 1);
    assert_eq!(arrived[0].bytes, b"set 20");
    assert_eq!(
        arrived[0].origin_uri,
        "lorawan://loopback/26011b2c?port=3&fcnt=0"
    );
    assert!(
        loopback.receive().expect("quiet again").is_empty(),
        "the ACK rode on the downlink; no bare ACK follows"
    );
}

/// A radio that nobody hears.
struct Silence;

impl Radio for Silence {
    fn name(&self) -> &str {
        "silence"
    }

    fn transmit(&mut self, _frame: &[u8]) -> Result<()> {
        Ok(())
    }

    fn receive(&mut self, _timeout: Duration) -> Result<Option<Vec<u8>>> {
        Ok(None)
    }
}

#[test]
fn a_confirmed_frame_nobody_acknowledges_is_worth_trying_again() {
    let keys = Keys {
        nwk_s_key: [1; 16],
        app_s_key: [2; 16],
    };
    let device = Device::new(7, keys);
    let mut quiet = LorawanTransport::new(Silence, device).confirmed();
    let error = quiet
        .send("lorawan://silence", b"anyone?")
        .expect_err("no ack");
    assert!(error.retryable(), "{}", error.message());
    assert!(
        quiet.far_end().is_err(),
        "a real radio has no server inside"
    );
    assert_eq!(quiet.origin(), "lorawan://silence/00000007");
}

fn keys() -> Keys {
    Keys {
        nwk_s_key: [1; 16],
        app_s_key: [2; 16],
    }
}

/// A radio that plays what it was given, and notes what it was asked.
#[derive(Default)]
struct Script {
    sent: Vec<Vec<u8>>,
    refusals: VecDeque<Error>,
    downs: VecDeque<Result<Option<Vec<u8>>>>,
    timeouts: Vec<Duration>,
}

impl Radio for Script {
    fn name(&self) -> &str {
        "script"
    }

    fn transmit(&mut self, frame: &[u8]) -> Result<()> {
        self.sent.push(frame.to_vec());
        match self.refusals.pop_front() {
            Some(error) => Err(error),
            None => Ok(()),
        }
    }

    fn receive(&mut self, timeout: Duration) -> Result<Option<Vec<u8>>> {
        self.timeouts.push(timeout);
        self.downs.pop_front().unwrap_or(Ok(None))
    }
}

fn down(fcnt: u32, ack: bool, port: u8, payload: &[u8]) -> Result<Option<Vec<u8>>> {
    let frame = Frame::new(MType::UnconfirmedDown, 7, fcnt, port, payload).expect("frame");
    let frame = if ack { frame.acknowledging() } else { frame };
    Ok(Some(frame.seal(&keys())))
}

fn scripted(downs: Vec<Result<Option<Vec<u8>>>>) -> LorawanTransport<Script> {
    let radio = Script {
        downs: downs.into(),
        ..Script::default()
    };
    LorawanTransport::new(radio, Device::new(7, keys()))
}

#[test]
fn windows_stay_open_for_five_seconds_unless_told_otherwise() {
    let mut link = scripted(Vec::new());
    assert_eq!(link.receive_one(), Ok(None));
    let mut link = link.timing_out_after(Duration::from_millis(40));
    assert_eq!(link.receive_one(), Ok(None));
    assert_eq!(
        link.radio().timeouts,
        vec![Duration::from_secs(5), Duration::from_millis(40)]
    );
}

#[test]
fn an_unconfirmed_send_does_not_listen() {
    let mut link = scripted(vec![down(0, true, 3, b"set 20")]);
    link.send_stream(&[9; 500]).expect("sent");
    assert!(link.radio().timeouts.is_empty());
    let sent = link.radio().sent.clone();
    assert_eq!(sent.len(), 3);
    for (fcnt, bytes) in (0u32..).zip(&sent) {
        let frame = Frame::open(bytes, &keys(), 0).expect("open");
        assert_eq!(frame.mtype, MType::UnconfirmedUp);
        assert_eq!((frame.dev_addr, frame.fcnt, frame.port), (7, fcnt, 2));
    }
}

#[test]
fn a_confirmed_send_waits_for_each_ack_and_keeps_what_came_with_it() {
    let mut link = scripted(vec![
        down(0, true, 0, b""),
        down(1, true, 3, b"set 20"),
        down(2, true, 3, b""),
        down(3, false, 4, b"later"),
    ])
    .confirmed();
    link.send_stream(&[9; 500]).expect("sent");
    assert_eq!(link.radio().timeouts.len(), 3);
    let held = link.receive_one().expect("held").expect("stream");
    assert_eq!(held.bytes, b"set 20");
    assert_eq!(held.origin_uri, "lorawan://script/00000007?port=3&fcnt=1");
    let empty = link.receive_one().expect("held").expect("stream");
    assert_eq!(empty.bytes, b"");
    assert_eq!(empty.origin_uri, "lorawan://script/00000007?port=3&fcnt=2");
    assert_eq!(link.radio().timeouts.len(), 3, "no window was opened");
    let later = link.receive_one().expect("heard").expect("stream");
    assert_eq!(later.origin_uri, "lorawan://script/00000007?port=4&fcnt=3");
}

#[test]
fn a_send_stops_at_the_first_frame_that_fails() {
    let mut link = scripted(vec![down(0, true, 0, b""), down(1, false, 3, b"x")]).confirmed();
    assert_eq!(link.send_stream(&[9; 700]), Err(Error::NoAckBit));
    assert_eq!(link.radio().sent.len(), 2);
    let mut link = scripted(vec![Err(Error::Radio {
        reason: String::from("unplugged"),
        retryable: false,
    })])
    .confirmed();
    let error = link.send_stream(b"a").expect_err("unplugged");
    assert_eq!(error.message(), "unplugged");
    let mut link = scripted(Vec::new());
    link.radio().refusals.push_back(Error::Radio {
        reason: String::from("duty cycle"),
        retryable: true,
    });
    assert!(link.send_stream(b"a").expect_err("refused").retryable());
    link.send_stream(b"a").expect("again");
    let again = link.radio().sent[1].clone();
    assert_eq!(
        Frame::open(&again, &keys(), 0).expect("open").fcnt,
        1,
        "a counter is never used twice"
    );
}

#[test]
fn a_receive_passes_over_bare_acks() {
    let mut link = scripted(vec![
        down(0, true, 0, b""),
        down(1, true, 0, b""),
        down(2, false, 0, b"on port zero"),
        down(3, true, 0, b""),
    ]);
    let arrived = link.receive().expect("receiving");
    assert_eq!(arrived.len(), 1);
    assert_eq!(arrived[0].bytes, b"on port zero");
    assert_eq!(
        arrived[0].origin_uri,
        "lorawan://script/00000007?port=0&fcnt=2"
    );
    assert!(link.receive().expect("nothing but an ACK").is_empty());
    link.radio().downs.push_back(Ok(Some(vec![1, 2, 3])));
    assert_eq!(link.receive(), Err(Error::CutOff));
    link.radio().downs.push_back(down(4, true, 0, b""));
    link.radio().downs.push_back(Err(Error::NoAck));
    assert_eq!(link.receive(), Err(Error::NoAck));
}

#[test]
fn a_frame_down_is_a_stream_unless_it_is_a_bare_ack() {
    let link = scripted(Vec::new());
    let frame = |port: u8, payload: &[u8]| {
        Frame::new(MType::UnconfirmedDown, 7, 65_536, port, payload).expect("frame")
    };
    assert!(link.arrival(frame(0, b"").acknowledging()).is_none());
    let arrived = link.arrival(frame(255, b"x")).expect("stream");
    assert_eq!(arrived.bytes, b"x");
    assert_eq!(
        arrived.origin_uri,
        "lorawan://script/00000007?port=255&fcnt=65536"
    );
}

#[test]
fn a_round_that_finds_an_older_stream_says_so() {
    let mut loopback = LorawanTransport::loopback(TIMEOUT);
    loopback.send("lorawan://loopback", b"older").expect("sent");
    assert_eq!(loopback.round(b"newer"), Err(Error::Differs));
    let far = loopback.far_end().expect("loopback");
    assert_eq!(far.address(), "lorawan://loopback/26011b2c");
    let arrived = far.take_one(loopback.radio()).expect("newer");
    assert_eq!(arrived.bytes, b"newer");
    let far = loopback.far_end().expect("loopback");
    assert_eq!(far.take_one(loopback.radio()), Err(Error::NothingArrived));
    assert_eq!(
        loopback.round(b"again").expect("round").bytes,
        b"again"
    );
}

#[test]
fn only_a_loopback_goes_round() {
    let radio = LoopbackRadio::new(NetworkServer::new(7, keys()));
    let mut link = LorawanTransport::new(radio, Device::new(7, keys()));
    assert_eq!(link.round(b"x"), Err(Error::NotLoopback));
    assert_eq!(link.far_end().expect_err("no far end"), Error::NotLoopback);
}

#[test]
fn a_downlink_queued_between_rounds_is_received_after_them() {
    let mut loopback = LorawanTransport::loopback(TIMEOUT);
    loopback.round(b"one").expect("round");
    loopback.radio().server().downlink(3, b"first").expect("queued");
    loopback.radio().server().downlink(4, b"second").expect("queued");
    loopback.round(&[8; 600]).expect("round");
    let mut received: Vec<Vec<u8>> = Vec::new();
    while let Some(arrived) = loopback.receive_one().expect("receiving") {
        received.push(arrived.bytes);
    }
    assert_eq!(received, vec![b"first".to_vec(), b"second".to_vec()]);
}

#[test]
fn a_loopback_radio_refuses_as_its_server_does() {
    let mut radio = LoopbackRadio::new(NetworkServer::new(7, keys()));
    assert_eq!(radio.name(), "loopback");
    assert_eq!(radio.transmit(&[0; 12]), Err(Error::CutOff));
    assert_eq!(radio.receive(Duration::from_secs(1)), Ok(None));
    let up = Frame::new(MType::ConfirmedUp, 7, 0, 1, b"a").expect("frame");
    assert_eq!(radio.transmit(&up.seal(&keys())), Ok(()));
    assert_eq!(radio.server().take(), Some((1, b"a".to_vec())));
    let ack = radio.receive(Duration::from_secs(1)).expect("window").expect("ack");
    assert!(Frame::open(&ack, &keys(), 0).expect("open").ack);
}

#[test]
fn a_loopback_radio_whose_server_ran_out_of_counters_refuses() {
    let mut server = NetworkServer::new(7, keys());
    for high in 0..=0xffffu32 {
        let up = Frame::new(MType::UnconfirmedUp, 7, high << 16 | 0xffff, 1, b"").expect("frame");
        server.uplink(&up.seal(&keys())).expect("up");
    }
    let mut radio = LoopbackRadio::new(server);
    assert_eq!(radio.transmit(&[0; 12]), Err(Error::Counter));
}

#[test]
fn a_session_goes_on_elsewhere_with_its_counters() {
    let mut link = scripted(Vec::new());
    link.send_to("lorawan://script", b"a").expect("sent");
    let mut device = link.into_device();
    let bytes = device.seal_up(false, 1, b"b").expect("sealed");
    assert_eq!(Frame::open(&bytes, &keys(), 0).expect("open").fcnt, 1);
}

#[test]
fn a_session_past_its_last_counter_down_takes_no_frame() {
    let mut device = Device::new(7, keys());
    for high in 0..=0xffffu32 {
        device.hear(down(high << 16 | 0xffff, true, 0, b"")).expect("down");
    }
    let radio = Script {
        downs: vec![Ok(None), down(0, true, 3, b"x"), down(0, true, 3, b"x")].into(),
        ..Script::default()
    };
    let mut link = LorawanTransport::new(radio, device).confirmed();
    assert_eq!(link.receive_one(), Ok(None), "an empty window needs no counter");
    assert_eq!(link.receive_one(), Err(Error::Spent));
    assert_eq!(link.send_stream(b"up"), Err(Error::Spent));
    assert_eq!(link.radio().sent.len(), 1, "the frame went up");
    assert_eq!(link.send_stream(b"up"), Err(Error::NoAck));
}

#[test]
fn a_loopback_keeps_to_the_timeout_it_was_given() {
    let loopback = LorawanTransport::loopback(Duration::from_millis(7));
    assert!(format!("{loopback:?}").contains("7ms"));
}
