//! One device on one radio: streams sent up as frames, frames down as streams.

use std::time::Duration;

use vstd::prelude::*;
use vstd::string::*;

use crate::device::window_view;
use crate::device::Device;
use crate::device::DeviceView;
use crate::error;
use crate::error::Error;
use crate::error::Result;
use crate::frame;
use crate::frame::Frame;
use crate::frame::FrameView;
use crate::frame::Keys;
use crate::frame::Part;
use crate::loopback;
use crate::radio;
use crate::radio::LoopbackRadio;
use crate::radio::Radio;
use crate::server::NetworkServer;
use crate::server::ServerView;
use crate::text;

verus! {

/// The span that [`Duration::from_secs`] makes of a number of seconds.
pub uninterp spec fn whole_seconds(secs: u64) -> Duration;

/// `Duration::from_secs` makes a span of whole seconds: the same span for the
/// same number. What else there is to a span is not looked at.
pub assume_specification[ Duration::from_secs ](secs: u64) -> (span: Duration)
    ensures
        span == whole_seconds(secs),
;

/// A stream that arrived, and where from.
#[derive(Clone, Debug, PartialEq, Eq)]
pub struct Arrived {
    /// The radio, the device and the port it came on.
    pub origin_uri: String,
    /// The stream.
    pub bytes: Vec<u8>,
}

/// An [`Arrived`] as a mathematical value.
#[verifier::ext_equal]
pub struct ArrivedView {
    pub origin_uri: Seq<char>,
    pub bytes: Seq<u8>,
}

impl View for Arrived {
    type V = ArrivedView;

    open spec fn view(&self) -> ArrivedView {
        ArrivedView { origin_uri: self.origin_uri@, bytes: self.bytes@ }
    }
}

/// Which ways a transport carries streams.
#[derive(Clone, Copy, Debug, PartialEq, Eq, Structural)]
pub struct Directions {
    receiving: bool,
    sending: bool,
}

impl Directions {
    /// Whether streams come in.
    pub closed spec fn comes_in(self) -> bool {
        self.receiving
    }

    /// Whether streams go out.
    pub closed spec fn goes_out(self) -> bool {
        self.sending
    }

    /// Whether streams come in.
    pub fn receives(&self) -> (r: bool)
        ensures
            r == self.comes_in(),
    {
        self.receiving
    }

    /// Whether streams go out.
    pub fn sends(&self) -> (r: bool)
        ensures
            r == self.goes_out(),
    {
        self.sending
    }
}

/// One device on one radio.
#[derive(Debug)]
pub struct LorawanTransport<R> {
    radio: R,
    device: Device,
    confirmed: bool,
    timeout: Duration,
    /// Set on a loopback: the radio holds the network server.
    loopback: bool,
}

/// A [`LorawanTransport`] as a mathematical value.
#[verifier::ext_equal]
pub struct LinkView<R> {
    /// The radio.
    pub radio: R,
    /// The device's session.
    pub device: DeviceView,
    /// Whether every frame up waits for its ACK.
    pub confirmed: bool,
    /// How long a receive window stays open.
    pub timeout: Duration,
    /// Whether the radio holds the network server.
    pub loopback: bool,
}

impl<R: Radio> View for LorawanTransport<R> {
    type V = LinkView<R>;

    closed spec fn view(&self) -> LinkView<R> {
        LinkView {
            radio: self.radio,
            device: self.device@,
            confirmed: self.confirmed,
            timeout: self.timeout,
            loopback: self.loopback,
        }
    }
}

// ---------------------------------------------------------------------------
// What a link does
// ---------------------------------------------------------------------------

/// `lorawan://<radio>/<device address>`.
pub open spec fn origin_of(name: Seq<char>, dev_addr: u32) -> Seq<char> {
    "lorawan://"@ + name + "/"@ + text::hexadecimal(dev_addr as nat, 8)
}

impl<R: Radio> LinkView<R> {
    /// Whether `uri` is `lorawan://<radio>/<device address>`.
    pub open spec fn is_origin(self, uri: Seq<char>) -> bool {
        exists|name: Seq<char>| #[trigger]
            self.radio.is_named(name) && uri == origin_of(name, self.device.dev_addr)
    }

    /// Whether `arrived` is the stream that a frame down is.
    pub open spec fn is_arrival(self, frame: FrameView, arrived: ArrivedView) -> bool {
        &&& arrived.bytes == frame.payload
        &&& exists|origin: Seq<char>| #[trigger]
            self.is_origin(origin) && arrived.origin_uri == origin + "?port="@ + text::decimal(
                frame.port as nat,
            ) + "&fcnt="@ + text::decimal(frame.fcnt as nat)
    }

    /// The link with another session.
    pub open spec fn with_device(self, device: DeviceView) -> LinkView<R> {
        LinkView { device, ..self }
    }

    /// Whether the link is set up as `before` was: the device's address and keys,
    /// and what was configured.
    pub open spec fn set_up_as(self, before: LinkView<R>) -> bool {
        &&& self.device.dev_addr == before.device.dev_addr
        &&& self.device.keys == before.device.keys
        &&& self.confirmed == before.confirmed
        &&& self.timeout == before.timeout
        &&& self.loopback == before.loopback
    }

    /// Whether at most `n` frames went up since `before`.
    pub open spec fn is_within(self, n: nat, before: LinkView<R>) -> bool {
        &&& self.set_up_as(before)
        &&& before.device.fcnt_up <= self.device.fcnt_up <= before.device.fcnt_up + n
    }
}

/// Whether one receive window can take the link from `before` to `after` with
/// `outcome`.
#[verifier::opaque]
pub open spec fn listens<R: Radio>(
    before: LinkView<R>,
    outcome: Result<Option<FrameView>>,
    after: LinkView<R>,
) -> bool {
    exists|heard: Result<Option<Seq<u8>>>|
        {
            &&& #[trigger] R::hears(before.radio, before.timeout, after.radio, heard)
            &&& outcome == before.device.window_outcome(heard)
            &&& after == (LinkView {
                radio: after.radio,
                device: before.device.after_window(heard),
                ..before
            })
        }
}

/// Whether sending one part can take the link from `before` to `after` with
/// `result`: a frame of the next counter goes up, and where it is confirmed
/// one receive window follows. Without a counter nothing goes up.
#[verifier::opaque]
pub open spec fn sends_part<R: Radio>(
    before: LinkView<R>,
    part: Part,
    after: LinkView<R>,
    result: Result<()>,
) -> bool {
    if before.device.has_ups(1) {
        let frame = before.device.frame_up(before.confirmed, part);
        exists|radio: R, outcome: Result<()>|
            {
                let up = LinkView { radio, device: before.device.counting(), ..before };
                &&& #[trigger] R::sends(
                    before.radio,
                    frame.sealed(before.device.keys),
                    radio,
                    outcome,
                )
                &&& if outcome is Err || !before.confirmed {
                    result == outcome && after == up
                } else {
                    exists|window: Result<Option<FrameView>>, down: LinkView<R>|
                        {
                            &&& #[trigger] listens(up, window, down)
                            &&& result == down.device.settlement(window)
                            &&& after == down.with_device(down.device.after_settlement(window))
                        }
                }
            }
    } else {
        result == Err::<(), Error>(Error::Spent) && after == before
    }
}

/// Whether sending the first `n` of `parts`, each with success, can take the
/// link from `before` to `after`.
pub open spec fn sends_parts<R: Radio>(
    before: LinkView<R>,
    parts: Seq<Part>,
    n: nat,
    after: LinkView<R>,
) -> bool
    decreases n,
{
    if n == 0 {
        after == before
    } else {
        let part = parts[n - 1];
        exists|mid: LinkView<R>|
            sends_parts(before, parts, (n - 1) as nat, mid) && #[trigger] sends_part(
                mid,
                part,
                after,
                Ok(()),
            )
    }
}

/// Whether sending the stream `bytes` can take the link from `before` to `after`
/// with `result`: all of its parts in order, or those up to the first that
/// fails.
#[verifier::opaque]
pub open spec fn sends_stream<R: Radio>(
    before: LinkView<R>,
    bytes: Seq<u8>,
    after: LinkView<R>,
    result: Result<()>,
) -> bool {
    let parts = frame::stream_parts(bytes);
    match result {
        Ok(_) => sends_parts(before, parts, parts.len(), after),
        Err(error) => exists|n: nat, mid: LinkView<R>|
            n < parts.len() && #[trigger] sends_parts(before, parts, n, mid) && sends_part(
                mid,
                parts[n as int],
                after,
                Err(error),
            ),
    }
}

/// Whether a receive that passed over `n` bare ACKs can take the link from
/// `before` to `after` with `outcome`. The first frame is one that is held, where
/// there is one; the others come off the radio.
pub open spec fn hears_past<R: Radio>(
    before: LinkView<R>,
    n: nat,
    outcome: Result<Option<FrameView>>,
    after: LinkView<R>,
) -> bool
    decreases n,
{
    if n > 0 {
        exists|bare: FrameView, mid: LinkView<R>|
            hears_past(before, (n - 1) as nat, Ok(Some(bare)), mid) && #[trigger] bare.is_bare()
                && #[trigger] listens(mid, outcome, after)
    } else if before.device.held.len() > 0 {
        &&& outcome == Ok::<Option<FrameView>, Error>(Some(before.device.held[0]))
        &&& after == before.with_device(before.device.releasing())
    } else {
        listens(before, outcome, after)
    }
}

/// Whether a receive can take the link from `before` to `after` and give `outcome`:
/// the first frame down that is more than a bare ACK, or what came in its
/// place.
#[verifier::opaque]
pub open spec fn receives<R: Radio>(
    before: LinkView<R>,
    outcome: Result<Option<FrameView>>,
    after: LinkView<R>,
) -> bool {
    &&& exists|n: nat| #[trigger] hears_past(before, n, outcome, after)
    &&& !(outcome matches Ok(Some(frame)) && frame.is_bare())
}

/// Whether `arrived` is what a receive gives its caller for `outcome`.
pub open spec fn arrives<R: Radio>(
    link: LinkView<R>,
    outcome: Result<Option<FrameView>>,
    arrived: Result<Option<ArrivedView>>,
) -> bool {
    match outcome {
        Err(error) => arrived == Err::<Option<ArrivedView>, Error>(error),
        Ok(None) => arrived == Ok::<Option<ArrivedView>, Error>(None),
        Ok(Some(frame)) => arrived is Ok && arrived->Ok_0 is Some && link.is_arrival(
            frame,
            arrived->Ok_0->0,
        ),
    }
}

/// Whether a receive can take the link from `before` to `after` and give its
/// caller `arrived`: what it was that came, or that it gave up because bare ACKs
/// came for as long as they could be counted.
pub open spec fn received<R: Radio>(
    before: LinkView<R>,
    arrived: Result<Option<ArrivedView>>,
    after: LinkView<R>,
) -> bool {
    ||| exists|outcome: Result<Option<FrameView>>| #[trigger]
        receives(before, outcome, after) && arrives(after, outcome, arrived)
    ||| arrived == Err::<Option<ArrivedView>, Error>(Error::OnlyAcks) && gives_up(before, after)
}

/// Whether a receive that passed over as many bare ACKs as can be counted, and
/// met one more, can take the link from `before` to `after`.
pub open spec fn gives_up<R: Radio>(before: LinkView<R>, after: LinkView<R>) -> bool {
    exists|bare: FrameView| #[trigger]
        bare.is_bare() && hears_past(before, u64::MAX as nat, Ok(Some(bare)), after)
}

/// An optional value that arrived, as a mathematical value.
pub open spec fn arrived_view(r: Result<Option<Arrived>>) -> Result<Option<ArrivedView>> {
    match r {
        Err(error) => Err(error),
        Ok(None) => Ok(None),
        Ok(Some(arrived)) => Ok(Some(arrived@)),
    }
}

/// One part more.
proof fn lemma_sends_one_more<R: Radio>(
    before: LinkView<R>,
    parts: Seq<Part>,
    n: nat,
    mid: LinkView<R>,
    after: LinkView<R>,
)
    requires
        sends_parts(before, parts, n, mid),
        sends_part(mid, parts[n as int], after, Ok(())),
    ensures
        sends_parts(before, parts, n + 1, after),
{
    assert(((n + 1) - 1) as nat == n);
}

/// One bare ACK more.
proof fn lemma_hears_one_more<R: Radio>(
    before: LinkView<R>,
    n: nat,
    bare: FrameView,
    mid: LinkView<R>,
    outcome: Result<Option<FrameView>>,
    after: LinkView<R>,
)
    requires
        hears_past(before, n, Ok(Some(bare)), mid),
        bare.is_bare(),
        listens(mid, outcome, after),
    ensures
        hears_past(before, n + 1, outcome, after),
{
    assert(((n + 1) - 1) as nat == n);
}

/// Whether a link on a loopback radio is `link` with `server` inside its radio.
pub open spec fn with_server(
    link: LinkView<LoopbackRadio>,
    server: ServerView,
    after: LinkView<LoopbackRadio>,
) -> bool {
    after.radio@ == server && after == (LinkView { radio: after.radio, ..link })
}

/// The stream that the server inside a loopback radio gives next.
pub open spec fn served(origin_uri: Seq<char>, server: ServerView) -> Result<ArrivedView> {
    if server.complete.len() == 0 {
        Err(Error::NothingArrived)
    } else {
        Ok(
            ArrivedView {
                origin_uri: origin_uri + "?port="@ + text::decimal(server.complete[0].0 as nat),
                bytes: server.complete[0].1,
            },
        )
    }
}

/// The server once the oldest stream, where there is one, was taken.
pub open spec fn after_serving(server: ServerView) -> ServerView {
    if server.complete.len() == 0 {
        server
    } else {
        server.giving_next()
    }
}

/// Whether a round can take the link from `before` to `after` with `result`: the
/// payload is sent up, the server gives its oldest stream, and the two are
/// compared.
#[verifier::opaque]
pub open spec fn rounds(
    before: LinkView<LoopbackRadio>,
    payload: Seq<u8>,
    result: Result<ArrivedView>,
    after: LinkView<LoopbackRadio>,
) -> bool {
    if !before.loopback {
        result == Err::<ArrivedView, Error>(Error::NotLoopback) && after == before
    } else {
        exists|sent: Result<()>, up: LinkView<LoopbackRadio>|
            {
                &&& #[trigger] sends_stream(before, payload, up, sent)
                &&& match sent {
                    Err(error) => result == Err::<ArrivedView, Error>(error) && after == up,
                    Ok(_) => {
                        let taken = served(
                            origin_of("loopback"@, before.device.dev_addr),
                            up.radio@,
                        );
                        &&& with_server(up, after_serving(up.radio@), after)
                        &&& result == (if taken is Ok && taken->Ok_0.bytes != payload {
                            Err(Error::Differs)
                        } else {
                            taken
                        })
                    },
                }
            }
    }
}

/// What arrived and is handed on, as mathematical values.
pub open spec fn arrivals_view(arrivals: Seq<Arrived>) -> Seq<ArrivedView> {
    Seq::new(arrivals.len(), |i: int| arrivals[i]@)
}

/// A stream that arrived, or none, as a sequence of one or none.
pub open spec fn as_sequence(arrived: Option<ArrivedView>) -> Seq<ArrivedView> {
    match arrived {
        Some(stream) => seq![stream],
        None => seq![],
    }
}

// ---------------------------------------------------------------------------
// The transport
// ---------------------------------------------------------------------------

impl<R: Radio> LorawanTransport<R> {
    /// `device` on `radio`, sending unconfirmed.
    pub fn new(radio: R, device: Device) -> (transport: LorawanTransport<R>)
        ensures
            transport@ == (LinkView {
                radio,
                device: device@,
                confirmed: false,
                timeout: whole_seconds(5),
                loopback: false,
            }),
    {
        LorawanTransport {
            radio,
            device,
            confirmed: false,
            timeout: Duration::from_secs(5),
            loopback: false,
        }
    }

    /// Send confirmed: every frame up waits for the ACK down.
    pub fn confirmed(self) -> (transport: LorawanTransport<R>)
        ensures
            transport@ == (LinkView { confirmed: true, ..self@ }),
    {
        let mut transport = self;
        transport.confirmed = true;
        transport
    }

    /// Give up on a receive window that stays empty for `timeout`.
    pub fn timing_out_after(self, timeout: Duration) -> (transport: LorawanTransport<R>)
        ensures
            transport@ == (LinkView { timeout, ..self@ }),
    {
        let mut transport = self;
        transport.timeout = timeout;
        transport
    }

    /// The radio.
    pub fn radio(&mut self) -> (radio: &mut R)
        ensures
            *radio == old(self)@.radio,
            final(self)@ == (LinkView { radio: *final(radio), ..old(self)@ }),
    {
        &mut self.radio
    }

    /// The session, to go on with elsewhere.
    pub fn into_device(self) -> (device: Device)
        ensures
            device@ == self@.device,
    {
        self.device
    }

    /// `lorawan://<radio>/<device address>`.
    pub fn origin(&self) -> (uri: String)
        ensures
            self@.is_origin(uri@),
    {
        let mut uri = String::from_str("lorawan://");
        let name = self.radio.name();
        assert(self@.radio.is_named(name@));
        uri.append(name);
        uri.append("/");
        text::append_hexadecimal(&mut uri, self.device.address(), 8);
        uri
    }

    /// The next frame down, opened, or `None` when the window closed empty.
    fn next_down(&mut self) -> (r: Result<Option<Frame>>)
        ensures
            listens(old(self)@, window_view(r), final(self)@),
            final(self)@.set_up_as(old(self)@),
            final(self)@.device.fcnt_up == old(self)@.device.fcnt_up,
    {
        let ghost before = self@;
        let window = self.radio.receive(self.timeout);
        let ghost heard = radio::heard(window);
        let opened = self.device.hear(window);
        proof {
            assert(R::hears(before.radio, before.timeout, self@.radio, heard));
            assert(listens(before, window_view(opened), self@)) by {
                reveal(listens);
            }
        }
        opened
    }

    /// Send one part of a stream up, confirmed as configured.
    fn send_part(&mut self, port: u8, payload: &[u8]) -> (r: Result<()>)
        requires
            payload@.len() <= frame::MAX_FRM_PAYLOAD,
        ensures
            sends_part(old(self)@, (port, payload@), final(self)@, error::outcome_of(r)),
            final(self)@.is_within(1, old(self)@),
    {
        let ghost before = self@;
        let ghost part = (port, payload@);
        let bytes = match self.device.seal_up(self.confirmed, port, payload) {
            Ok(bytes) => bytes,
            Err(error) => {
                assert(sends_part(before, part, self@, Err(error))) by {
                    reveal(sends_part);
                }
                return Err(error);
            },
        };
        let sent = self.radio.transmit(bytes.as_slice());
        let ghost up = self@;
        assert(R::sends(before.radio, bytes@, up.radio, error::outcome_of(sent)));
        match sent {
            Ok(()) => {},
            Err(error) => {
                assert(sends_part(before, part, self@, Err(error))) by {
                    reveal(sends_part);
                }
                return Err(error);
            },
        }
        if !self.confirmed {
            assert(sends_part(before, part, self@, Ok(()))) by {
                reveal(sends_part);
            }
            return Ok(());
        }
        let window = self.next_down();
        let ghost down = self@;
        assert(listens(up, window_view(window), down));
        let settled = self.device.settle(window);
        assert(sends_part(before, part, self@, error::outcome_of(settled))) by {
            reveal(sends_part);
        }
        settled
    }

    /// Send `bytes` up as one frame, or as fragments, confirmed as configured.
    pub fn send_stream(&mut self, bytes: &[u8]) -> (r: Result<()>)
        ensures
            sends_stream(old(self)@, bytes@, final(self)@, r),
            final(self)@.is_within(frame::stream_parts(bytes@).len(), old(self)@),
    {
        let ghost before = self@;
        let ghost parts = frame::stream_parts(bytes@);
        let payloads = frame::payloads(bytes);
        let mut at: usize = 0;
        while at < payloads.len()
            invariant
                before == old(self)@,
                at <= payloads@.len(),
                frame::parts_of(payloads@) == parts,
                parts == frame::stream_parts(bytes@),
                sends_parts(before, parts, at as nat, self@),
                self@.is_within(at as nat, before),
            decreases payloads@.len() - at,
        {
            proof {
                frame::every_part_fits_a_frame(bytes@, at as int);
                assert(parts[at as int] == (payloads@[at as int].0, payloads@[at as int].1@));
            }
            let ghost mid = self@;
            let sent = self.send_part(payloads[at].0, payloads[at].1.as_slice());
            assert(sends_part(mid, parts[at as int], self@, error::outcome_of(sent)));
            match sent {
                Ok(()) => {},
                Err(error) => {
                    assert(sends_parts(before, parts, at as nat, mid));
                    assert(sends_stream(before, bytes@, self@, Err(error))) by {
                        reveal(sends_stream);
                    }
                    return Err(error);
                },
            }
            proof {
                lemma_sends_one_more(before, parts, at as nat, mid, self@);
            }
            at += 1;
        }
        proof {
            reveal(sends_stream);
        }
        Ok(())
    }

    /// The stream that a frame down is. A bare ACK carries nothing and is not a
    /// stream.
    pub fn arrival(&self, frame: Frame) -> (r: Option<Arrived>)
        ensures
            match r {
                Some(arrived) => !frame@.is_bare() && self@.is_arrival(frame@, arrived@),
                None => frame@.is_bare(),
            },
    {
        if frame.is_bare_ack() {
            return None;
        }
        let mut origin_uri = self.origin();
        assert(self@.is_origin(origin_uri@));
        origin_uri.append("?port=");
        text::append_decimal(&mut origin_uri, frame.port as u32);
        origin_uri.append("&fcnt=");
        text::append_decimal(&mut origin_uri, frame.fcnt);
        Some(Arrived { origin_uri, bytes: frame.payload })
    }

    /// The next stream down with a payload, one held from a confirmed send, else
    /// the next off the radio, or `None` when the windows closed empty. A bare
    /// ACK carries nothing and is not a stream. A radio that never tires of them
    /// is given up on when they cannot be counted any more, and the next receive
    /// goes on where this one stopped.
    pub fn receive_one(&mut self) -> (r: Result<Option<Arrived>>)
        ensures
            received(old(self)@, arrived_view(r), final(self)@),
            final(self)@.set_up_as(old(self)@),
            final(self)@.device.fcnt_up == old(self)@.device.fcnt_up,
    {
        let ghost before = self@;
        let mut window: Result<Option<Frame>> = match self.device.release() {
            Some(frame) => Ok(Some(frame)),
            None => self.next_down(),
        };
        let mut passed: u64 = 0;
        loop
            invariant
                before == old(self)@,
                hears_past(before, passed as nat, window_view(window), self@),
                self@.set_up_as(before),
                self@.device.fcnt_up == before.device.fcnt_up,
            decreases u64::MAX - passed,
        {
            let ghost mid = self@;
            let frame = match window {
                Ok(Some(frame)) => frame,
                Ok(None) => {
                    assert(receives(before, Ok(None), mid)) by {
                        reveal(receives);
                    }
                    return Ok(None);
                },
                Err(error) => {
                    assert(receives(before, Err(error), mid)) by {
                        reveal(receives);
                    }
                    return Err(error);
                },
            };
            let ghost heard = frame@;
            if let Some(arrived) = self.arrival(frame) {
                assert(receives(before, Ok(Some(heard)), mid)) by {
                    reveal(receives);
                }
                return Ok(Some(arrived));
            }
            if passed == u64::MAX {
                return Err(Error::OnlyAcks);
            }
            window = self.next_down();
            proof {
                lemma_hears_one_more(
                    before,
                    passed as nat,
                    heard,
                    mid,
                    window_view(window),
                    self@,
                );
            }
            passed += 1;
        }
    }
}

impl<R: Radio> LorawanTransport<R> {
    /// The transport's name.
    pub fn name(&self) -> (name: &'static str)
        ensures
            name@ == "lorawan"@,
    {
        "lorawan"
    }

    /// Streams go both ways.
    pub fn directions(&self) -> (both: Directions)
        ensures
            both.comes_in() && both.goes_out(),
    {
        Directions { receiving: true, sending: true }
    }

    /// What one receive brings: a stream, or none where the windows closed
    /// empty, which is not an error.
    pub fn receive(&mut self) -> (r: Result<Vec<Arrived>>)
        ensures
            match r {
                Ok(arrivals) => exists|arrived: Option<ArrivedView>|
                    arrivals_view(arrivals@) == #[trigger] as_sequence(arrived) && received(
                        old(self)@,
                        Ok(arrived),
                        final(self)@,
                    ),
                Err(error) => received(old(self)@, Err(error), final(self)@),
            },
            final(self)@.set_up_as(old(self)@),
            final(self)@.device.fcnt_up == old(self)@.device.fcnt_up,
    {
        let mut arrivals: Vec<Arrived> = Vec::new();
        match self.receive_one() {
            Ok(Some(arrived)) => {
                arrivals.push(arrived);
                assert(arrivals_view(arrivals@) =~= as_sequence(Some(arrived@)));
            },
            Ok(None) => {
                assert(arrivals_view(arrivals@) =~= as_sequence(None));
            },
            Err(error) => {
                return Err(error);
            },
        }
        Ok(arrivals)
    }

    /// Send a stream up. The target is the network: a device sends to whoever
    /// hears it.
    pub fn send(&mut self, target: &str, bytes: &[u8]) -> (r: Result<()>)
        ensures
            sends_stream(old(self)@, bytes@, final(self)@, r),
            final(self)@.is_within(frame::stream_parts(bytes@).len(), old(self)@),
    {
        self.send_stream(bytes)
    }

    /// Send a stream to the far end at `address`: the network, as every send is.
    pub fn send_to(&mut self, address: &str, payload: &[u8]) -> (r: Result<()>)
        ensures
            sends_stream(old(self)@, payload@, final(self)@, r),
            final(self)@.is_within(frame::stream_parts(payload@).len(), old(self)@),
    {
        self.send(address, payload)
    }

    /// The network server at the far end, which only a loopback radio holds.
    pub fn far_end(&self) -> (r: Result<Served>)
        ensures
            match r {
                Ok(far) => self@.loopback && self@.is_origin(far@),
                Err(error) => !self@.loopback && error == Error::NotLoopback,
            },
    {
        if !self.loopback {
            return Err(Error::NotLoopback);
        }
        Ok(Served { origin: self.origin() })
    }
}

/// The network server, holding what arrived whole.
#[derive(Debug)]
pub struct Served {
    origin: String,
}

impl View for Served {
    type V = Seq<char>;

    closed spec fn view(&self) -> Seq<char> {
        self.origin@
    }
}

impl Served {
    /// Where the streams come from.
    pub fn address(&self) -> (address: &str)
        ensures
            address@ == self@,
    {
        self.origin.as_str()
    }

    /// The oldest stream that arrived whole at the server inside `radio`.
    pub fn take_one(self, radio: &mut LoopbackRadio) -> (r: Result<Arrived>)
        ensures
            frame::same_outcome(r, served(self@, old(radio)@)),
            final(radio)@ == after_serving(old(radio)@),
    {
        match radio.server().take() {
            Some((port, bytes)) => {
                let mut origin_uri = self.origin;
                origin_uri.append("?port=");
                text::append_decimal(&mut origin_uri, port as u32);
                Ok(Arrived { origin_uri, bytes })
            },
            None => Err(Error::NothingArrived),
        }
    }
}

/// Whether two runs of bytes are the same.
fn same_bytes(a: &[u8], b: &[u8]) -> (r: bool)
    ensures
        r == (a@ == b@),
{
    if a.len() != b.len() {
        return false;
    }
    let mut at: usize = 0;
    while at < a.len()
        invariant
            a@.len() == b@.len(),
            at <= a@.len(),
            forall|i: int| 0 <= i < at ==> a@[i] == b@[i],
        decreases a@.len() - at,
    {
        if a[at] != b[at] {
            return false;
        }
        at += 1;
    }
    assert(a@ =~= b@);
    true
}

impl LorawanTransport<LoopbackRadio> {
    /// Both ends on one in-process radio: a device sending confirmed, and the
    /// network server that opens and acknowledges what it sends, `timeout` on
    /// the receive windows.
    pub fn loopback(timeout: Duration) -> (transport: LorawanTransport<LoopbackRadio>)
        ensures
            transport@.loopback,
            transport@.confirmed,
            transport@.timeout == timeout,
            transport@.device.keys.nwk_s_key@ == Seq::new(16, |i: int| 0x2bu8),
            transport@.device.keys.app_s_key@ == Seq::new(16, |i: int| 0x7eu8),
            transport@.device == (DeviceView {
                dev_addr: 0x2601_1b2c,
                keys: transport@.device.keys,
                fcnt_up: 0,
                fcnt_down: None,
                held: seq![],
            }),
            transport@.radio@ == (ServerView {
                dev_addr: 0x2601_1b2c,
                keys: transport@.device.keys,
                fcnt_up: None,
                fcnt_down: 0,
                arriving: None,
                complete: seq![],
                downlinks: seq![],
            }),
            transport@.in_step(),
    {
        let keys = Keys { nwk_s_key: [0x2b; 16], app_s_key: [0x7e; 16] };
        assert(keys.nwk_s_key@ =~= Seq::new(16, |i: int| 0x2bu8));
        assert(keys.app_s_key@ =~= Seq::new(16, |i: int| 0x7eu8));
        let dev_addr: u32 = 0x2601_1b2c;
        let radio = LoopbackRadio::new(NetworkServer::new(dev_addr, keys));
        let mut transport = LorawanTransport::new(
            radio,
            Device::new(dev_addr, keys),
        ).confirmed().timing_out_after(timeout);
        transport.loopback = true;
        transport
    }

    /// Send `payload` up and take what arrived at the network server: the send
    /// goes first, and the server, which opens each frame as it is sent, then
    /// has the stream whole.
    pub fn round(&mut self, payload: &[u8]) -> (r: Result<Arrived>)
        ensures
            rounds(old(self)@, payload@, arrival_view(r), final(self)@),
            old(self)@.round_comes_back(payload@) ==> {
                &&& r is Ok
                &&& r->Ok_0.bytes@ == payload@
                &&& r->Ok_0.origin_uri@ == "lorawan://"@ + "loopback"@ + "/"@ + text::hexadecimal(
                    old(self)@.device.dev_addr as nat,
                    8,
                ) + "?port="@ + text::decimal(
                    if payload@.len() <= 222 {
                        1
                    } else {
                        2
                    },
                )
                &&& r->Ok_0.origin_uri@ == origin_of("loopback"@, old(self)@.device.dev_addr)
                    + "?port="@ + text::decimal(frame::stream_parts(payload@)[0].0 as nat)
                &&& final(self)@.in_step()
                &&& final(self)@.radio@.complete.len() == 0
                &&& final(self)@.radio@.fcnt_down <= old(self)@.radio@.fcnt_down
                    + frame::stream_parts(payload@).len()
            },
            final(self)@.is_within(frame::stream_parts(payload@).len(), old(self)@),
    {
        proof {
            reveal(rounds);
        }
        let ghost before = self@;
        let far = match self.far_end() {
            Ok(far) => far,
            Err(error) => {
                return Err(error);
            },
        };
        let sent = self.send_to(far.address(), payload);
        let ghost up = self@;
        proof {
            assert(sends_stream(before, payload@, up, sent));
            if before.round_comes_back(payload@) {
                loopback::stream_arrives_whole(before, payload@, up, sent);
            }
        }
        match sent {
            Ok(()) => {},
            Err(error) => {
                return Err(error);
            },
        }
        let arrived = match far.take_one(&mut self.radio) {
            Ok(arrived) => arrived,
            Err(error) => {
                return Err(error);
            },
        };
        if !same_bytes(arrived.bytes.as_slice(), payload) {
            return Err(Error::Differs);
        }
        Ok(arrived)
    }
}

impl LinkView<LoopbackRadio> {
    /// Whether a round with `payload` comes back whole: device and server are in
    /// step and have the counters, and no older stream waits at the server.
    pub open spec fn round_comes_back(self, payload: Seq<u8>) -> bool {
        &&& self.loopback
        &&& self.in_step()
        &&& self.device.has_ups(frame::stream_parts(payload).len())
        &&& self.has_acks(frame::stream_parts(payload).len())
        &&& self.radio@.complete.len() == 0
    }
}

/// A stream that arrived, as a mathematical value.
pub open spec fn arrival_view(r: Result<Arrived>) -> Result<ArrivedView> {
    match r {
        Ok(arrived) => Ok(arrived@),
        Err(error) => Err(error),
    }
}

// ---------------------------------------------------------------------------
// Laws
// ---------------------------------------------------------------------------

/// Every frame up takes a counter of its own, the next one each time, and a
/// session that kept nothing but streams still keeps nothing else.
pub proof fn every_frame_up_takes_a_counter<R: Radio>(
    before: LinkView<R>,
    parts: Seq<Part>,
    n: nat,
    after: LinkView<R>,
)
    requires
        sends_parts(before, parts, n, after),
    ensures
        after.device.fcnt_up == before.device.fcnt_up + n,
        after.set_up_as(before),
        before.device.holds_streams() ==> after.device.holds_streams(),
    decreases n,
{
    if n > 0 {
        let part = parts[n - 1];
        let mid = choose|mid: LinkView<R>|
            sends_parts(before, parts, (n - 1) as nat, mid) && #[trigger] sends_part(
                mid,
                part,
                after,
                Ok(()),
            );
        every_frame_up_takes_a_counter(before, parts, (n - 1) as nat, mid);
        lemma_part_takes_a_counter(mid, part, after);
    }
}

/// A frame that goes up takes a counter of its own.
proof fn lemma_part_takes_a_counter<R: Radio>(
    before: LinkView<R>,
    part: Part,
    after: LinkView<R>,
)
    requires
        sends_part(before, part, after, Ok(())),
    ensures
        after.device.fcnt_up == before.device.fcnt_up + 1,
        after.set_up_as(before),
        before.device.holds_streams() ==> after.device.holds_streams(),
{
    reveal(sends_part);
    reveal(listens);
}

/// An unconfirmed send opens no receive window: of the session nothing changes
/// but the counter of its next frame up.
pub proof fn unconfirmed_send_does_not_listen<R: Radio>(
    before: LinkView<R>,
    parts: Seq<Part>,
    n: nat,
    after: LinkView<R>,
)
    requires
        !before.confirmed,
        sends_parts(before, parts, n, after),
    ensures
        after.device == (DeviceView { fcnt_up: after.device.fcnt_up, ..before.device }),
        after.device.fcnt_up == before.device.fcnt_up + n,
    decreases n,
{
    if n > 0 {
        let part = parts[n - 1];
        let mid = choose|mid: LinkView<R>|
            sends_parts(before, parts, (n - 1) as nat, mid) && #[trigger] sends_part(
                mid,
                part,
                after,
                Ok(()),
            );
        unconfirmed_send_does_not_listen(before, parts, (n - 1) as nat, mid);
        every_frame_up_takes_a_counter(before, parts, (n - 1) as nat, mid);
        lemma_part_takes_a_counter(mid, part, after);
        assert(after.device == mid.device.counting()) by {
            reveal(sends_part);
        }
    }
}

/// Whether everything sent on a radio goes out and nothing ever comes down.
pub open spec fn is_silent<R: Radio>() -> bool {
    &&& forall|before: R, frame: Seq<u8>, after: R, outcome: Result<()>| #[trigger]
        R::sends(before, frame, after, outcome) ==> outcome is Ok
    &&& forall|before: R, timeout: Duration, after: R, heard: Result<Option<Seq<u8>>>| #[trigger]
        R::hears(before, timeout, after, heard) ==> heard == Ok::<Option<Seq<u8>>, Error>(None)
}

/// A confirmed frame that nobody acknowledges is worth trying again: on a
/// radio that stays silent a confirmed send fails with its first frame, for
/// want of an ACK, and that is retryable.
pub proof fn silence_is_worth_trying_again<R: Radio>(
    before: LinkView<R>,
    bytes: Seq<u8>,
    after: LinkView<R>,
    result: Result<()>,
)
    requires
        is_silent::<R>(),
        before.confirmed,
        before.device.has_ups(1),
        sends_stream(before, bytes, after, result),
    ensures
        result == Err::<(), Error>(Error::NoAck),
        result->Err_0.is_retryable(),
        after.device == before.device.counting(),
{
    reveal(sends_stream);
    let parts = frame::stream_parts(bytes);
    frame::every_stream_has_a_part(bytes);
    match result {
        Ok(_) => {
            let n = parts.len();
            let mid = choose|mid: LinkView<R>|
                sends_parts(before, parts, (n - 1) as nat, mid) && #[trigger] sends_part(
                    mid,
                    parts[n - 1],
                    after,
                    Ok(()),
                );
            lemma_silence_sends_none(before, parts, (n - 1) as nat, mid);
            lemma_silence_fails(mid, parts[n - 1], after, Ok(()));
        },
        Err(error) => {
            let (n, mid) = choose|n: nat, mid: LinkView<R>|
                n < parts.len() && #[trigger] sends_parts(before, parts, n, mid) && sends_part(
                    mid,
                    parts[n as int],
                    after,
                    Err(error),
                );
            lemma_silence_sends_none(before, parts, n, mid);
            lemma_silence_fails(mid, parts[n as int], after, Err(error));
        },
    }
}

/// On a silent radio no confirmed frame succeeds.
proof fn lemma_silence_sends_none<R: Radio>(
    before: LinkView<R>,
    parts: Seq<Part>,
    n: nat,
    after: LinkView<R>,
)
    requires
        is_silent::<R>(),
        before.confirmed,
        before.device.has_ups(1),
        sends_parts(before, parts, n, after),
    ensures
        n == 0,
        after == before,
    decreases n,
{
    if n > 0 {
        let mid = choose|mid: LinkView<R>|
            sends_parts(before, parts, (n - 1) as nat, mid) && #[trigger] sends_part(
                mid,
                parts[n - 1],
                after,
                Ok(()),
            );
        lemma_silence_sends_none(before, parts, (n - 1) as nat, mid);
        lemma_silence_fails(mid, parts[n - 1], after, Ok(()));
    }
}

/// On a silent radio a confirmed frame fails for want of an ACK.
proof fn lemma_silence_fails<R: Radio>(
    before: LinkView<R>,
    part: Part,
    after: LinkView<R>,
    result: Result<()>,
)
    requires
        is_silent::<R>(),
        before.confirmed,
        before.device.has_ups(1),
        sends_part(before, part, after, result),
    ensures
        result == Err::<(), Error>(Error::NoAck),
        after.device == before.device.counting(),
{
    reveal(sends_part);
    reveal(listens);
}

/// The receive after one that gave up goes on where that one stopped: it brings
/// what one receive for both would have brought.
pub proof fn receive_goes_on<R: Radio>(
    before: LinkView<R>,
    mid: LinkView<R>,
    outcome: Result<Option<FrameView>>,
    after: LinkView<R>,
)
    requires
        before.device.holds_streams(),
        gives_up(before, mid),
        receives(mid, outcome, after),
    ensures
        mid.device.holds_streams(),
        receives(before, outcome, after),
{
    reveal(receives);
    let bare = choose|bare: FrameView| #[trigger]
        bare.is_bare() && hears_past(before, u64::MAX as nat, Ok(Some(bare)), mid);
    let n = choose|n: nat| #[trigger] hears_past(mid, n, outcome, after);
    lemma_none_held_past_bare(before, u64::MAX as nat, bare, mid);
    lemma_hears_more(before, u64::MAX as nat, bare, mid, n, outcome, after);
}

/// Past a bare ACK nothing is held.
proof fn lemma_none_held_past_bare<R: Radio>(
    before: LinkView<R>,
    n: nat,
    bare: FrameView,
    after: LinkView<R>,
)
    requires
        before.device.holds_streams(),
        bare.is_bare(),
        hears_past(before, n, Ok(Some(bare)), after),
    ensures
        after.device.held.len() == 0,
    decreases n,
{
    reveal(listens);
    let outcome = Ok::<Option<FrameView>, Error>(Some(bare));
    if n > 0 {
        let (last, mid) = choose|last: FrameView, mid: LinkView<R>|
            hears_past(before, (n - 1) as nat, Ok(Some(last)), mid) && #[trigger] last.is_bare()
                && #[trigger] listens(mid, outcome, after);
        lemma_none_held_past_bare(before, (n - 1) as nat, last, mid);
    }
}

/// What is heard past a bare ACK, and past more from there on.
proof fn lemma_hears_more<R: Radio>(
    before: LinkView<R>,
    n: nat,
    bare: FrameView,
    mid: LinkView<R>,
    m: nat,
    outcome: Result<Option<FrameView>>,
    after: LinkView<R>,
)
    requires
        hears_past(before, n, Ok(Some(bare)), mid),
        bare.is_bare(),
        mid.device.held.len() == 0,
        hears_past(mid, m, outcome, after),
    ensures
        hears_past(before, n + m + 1, outcome, after),
    decreases m,
{
    if m == 0 {
        lemma_hears_one_more(before, n, bare, mid, outcome, after);
    } else {
        let (last, there) = choose|last: FrameView, there: LinkView<R>|
            hears_past(mid, (m - 1) as nat, Ok(Some(last)), there) && #[trigger] last.is_bare()
                && #[trigger] listens(there, outcome, after);
        lemma_hears_more(before, n, bare, mid, (m - 1) as nat, Ok(Some(last)), there);
        lemma_hears_one_more(before, n + m, last, there, outcome, after);
    }
}

/// On a radio that never brings anything a receive with no frame held brings
/// nothing, and that is no error.
pub proof fn nothing_comes_of_empty_windows<R: Radio>(
    before: LinkView<R>,
    arrived: Result<Option<ArrivedView>>,
    after: LinkView<R>,
)
    requires
        forall|radio: R, timeout: Duration, left: R, heard: Result<Option<Seq<u8>>>| #[trigger]
            R::hears(radio, timeout, left, heard) ==> heard == Ok::<Option<Seq<u8>>, Error>(None),
        before.device.held.len() == 0,
        received(before, arrived, after),
    ensures
        arrived == Ok::<Option<ArrivedView>, Error>(None),
        after.device == before.device,
{
    reveal(receives);
    if gives_up(before, after) {
        let bare = choose|bare: FrameView| #[trigger]
            bare.is_bare() && hears_past(before, u64::MAX as nat, Ok(Some(bare)), after);
        lemma_nothing_passes(before, u64::MAX as nat, Ok(Some(bare)), after);
    }
    if exists|outcome: Result<Option<FrameView>>| #[trigger]
        receives(before, outcome, after) && arrives(after, outcome, arrived) {
        let outcome = choose|outcome: Result<Option<FrameView>>| #[trigger]
            receives(before, outcome, after) && arrives(after, outcome, arrived);
        let n = choose|n: nat| #[trigger] hears_past(before, n, outcome, after);
        lemma_nothing_passes(before, n, outcome, after);
    }
}

/// Where every window closes empty there is nothing to pass over.
proof fn lemma_nothing_passes<R: Radio>(
    before: LinkView<R>,
    n: nat,
    outcome: Result<Option<FrameView>>,
    after: LinkView<R>,
)
    requires
        forall|radio: R, timeout: Duration, left: R, heard: Result<Option<Seq<u8>>>| #[trigger]
            R::hears(radio, timeout, left, heard) ==> heard == Ok::<Option<Seq<u8>>, Error>(None),
        before.device.held.len() == 0,
        hears_past(before, n, outcome, after),
    ensures
        n == 0,
        outcome == Ok::<Option<FrameView>, Error>(None),
        after.device == before.device,
    decreases n,
{
    reveal(listens);
    if n > 0 {
        let (bare, mid) = choose|bare: FrameView, mid: LinkView<R>|
            hears_past(before, (n - 1) as nat, Ok(Some(bare)), mid) && #[trigger] bare.is_bare()
                && #[trigger] listens(mid, outcome, after);
        lemma_nothing_passes(before, (n - 1) as nat, Ok(Some(bare)), mid);
    }
}

/// One receive window asks the radio once, for as long as was configured, and what
/// it brings is judged by the session. Nothing else of the link changes.
pub proof fn window_asks_the_radio_once<R: Radio>(
    before: LinkView<R>,
    outcome: Result<Option<FrameView>>,
    after: LinkView<R>,
)
    requires
        listens(before, outcome, after),
    ensures
        exists|heard: Result<Option<Seq<u8>>>|
            {
                &&& #[trigger] R::hears(before.radio, before.timeout, after.radio, heard)
                &&& outcome == before.device.window_outcome(heard)
                &&& after.device == before.device.after_window(heard)
            },
        after.confirmed == before.confirmed,
        after.timeout == before.timeout,
        after.loopback == before.loopback,
{
    reveal(listens);
}

/// One part sends one frame up, that of the next counter, and is done with what
/// the radio answers; where it is confirmed and went out, one window follows, and
/// what that brings settles it. Without a counter nothing goes up.
pub proof fn part_sends_one_frame<R: Radio>(
    before: LinkView<R>,
    part: Part,
    after: LinkView<R>,
    result: Result<()>,
)
    requires
        sends_part(before, part, after, result),
    ensures
        before.device.fcnt_up == u32::MAX ==> result == Err::<(), Error>(Error::Spent) && after
            == before,
        before.device.fcnt_up < u32::MAX ==> {
            let frame = before.device.frame_up(before.confirmed, part);
            &&& before.confirmed ==> frame.mtype is ConfirmedUp
            &&& !before.confirmed ==> frame.mtype is UnconfirmedUp
            &&& frame.dev_addr == before.device.dev_addr
            &&& frame.fcnt == before.device.fcnt_up
            &&& frame.port == part.0
            &&& frame.payload == part.1
            &&& exists|radio: R, outcome: Result<()>|
                {
                    let up = LinkView {
                        radio,
                        device: DeviceView {
                            fcnt_up: (before.device.fcnt_up + 1) as u32,
                            ..before.device
                        },
                        ..before
                    };
                    &&& #[trigger] R::sends(
                        before.radio,
                        frame.sealed(before.device.keys),
                        radio,
                        outcome,
                    )
                    &&& outcome is Err ==> result is Err && result->Err_0 == outcome->Err_0 && after
                        == up
                    &&& outcome is Ok && !before.confirmed ==> result is Ok && after == up
                    &&& outcome is Ok && before.confirmed ==> exists|
                        window: Result<Option<FrameView>>,
                        down: LinkView<R>,
                    |
                        {
                            &&& #[trigger] listens(up, window, down)
                            &&& result == down.device.settlement(window)
                            &&& after == (LinkView {
                                device: down.device.after_settlement(window),
                                ..down
                            })
                        }
                }
        },
{
    reveal(sends_part);
}

/// A stream goes up part by part in order, each once, all of them where it
/// succeeds and else those before the one that failed.
pub proof fn stream_goes_up_in_order<R: Radio>(
    before: LinkView<R>,
    bytes: Seq<u8>,
    parts: Seq<Part>,
    n: nat,
    after: LinkView<R>,
    result: Result<()>,
)
    ensures
        sends_parts(before, parts, 0, after) ==> after == before,
        n >= 1 && sends_parts(before, parts, n, after) ==> exists|mid: LinkView<R>|
            sends_parts(before, parts, (n - 1) as nat, mid) && #[trigger] sends_part(
                mid,
                parts[n - 1],
                after,
                Ok(()),
            ),
        sends_stream(before, bytes, after, result) && result is Ok ==> sends_parts(
            before,
            frame::stream_parts(bytes),
            frame::stream_parts(bytes).len(),
            after,
        ),
        sends_stream(before, bytes, after, result) && result is Err ==> exists|
            k: nat,
            mid: LinkView<R>,
        |
            k < frame::stream_parts(bytes).len() && #[trigger] sends_parts(
                before,
                frame::stream_parts(bytes),
                k,
                mid,
            ) && sends_part(
                mid,
                frame::stream_parts(bytes)[k as int],
                after,
                Err(result->Err_0),
            ),
{
    reveal(sends_stream);
}

/// A receive takes the oldest frame held where there is one, without asking the
/// radio; else it asks the radio, and again for as long as it gets bare ACKs.
/// What ends it is no bare ACK.
pub proof fn receive_asks_until_no_bare_ack<R: Radio>(
    before: LinkView<R>,
    n: nat,
    outcome: Result<Option<FrameView>>,
    after: LinkView<R>,
)
    ensures
        hears_past(before, 0, outcome, after) && before.device.held.len() > 0 ==> {
            &&& outcome is Ok && outcome->Ok_0 == Some(before.device.held[0])
            &&& after == (LinkView {
                device: DeviceView { held: before.device.held.skip(1), ..before.device },
                ..before
            })
        },
        hears_past(before, 0, outcome, after) && before.device.held.len() == 0 ==> listens(
            before,
            outcome,
            after,
        ),
        n >= 1 && hears_past(before, n, outcome, after) ==> exists|bare: FrameView, mid: LinkView<R>|
            {
                &&& hears_past(before, (n - 1) as nat, Ok(Some(bare)), mid)
                &&& #[trigger] bare.is_bare()
                &&& #[trigger] listens(mid, outcome, after)
            },
        receives(before, outcome, after) ==> exists|k: nat| #[trigger]
            hears_past(before, k, outcome, after),
        receives(before, outcome, after) && outcome is Ok && outcome->Ok_0 is Some ==> {
            let frame = outcome->Ok_0->0;
            frame.port != 0 || frame.payload.len() > 0
        },
{
    reveal(receives);
}

/// What a receive gives its caller: the failure, nothing, or the whole payload of
/// the frame that came, under the radio's name, the device's address in eight
/// hexadecimal digits, and the frame's port and counter in decimal.
pub proof fn receive_gives_what_came<R: Radio>(
    before: LinkView<R>,
    arrived: Result<Option<ArrivedView>>,
    after: LinkView<R>,
)
    requires
        received(before, arrived, after),
    ensures
        arrived is Ok || arrived->Err_0 != Error::OnlyAcks ==> exists|
            outcome: Result<Option<FrameView>>,
        |
            {
                &&& #[trigger] receives(before, outcome, after)
                &&& outcome is Err ==> arrived is Err && arrived->Err_0 == outcome->Err_0
                &&& outcome is Ok && outcome->Ok_0 is None ==> arrived is Ok && arrived->Ok_0 is None
                &&& outcome is Ok && outcome->Ok_0 is Some ==> {
                    let frame = outcome->Ok_0->0;
                    &&& arrived is Ok && arrived->Ok_0 is Some
                    &&& arrived->Ok_0->0.bytes == frame.payload
                    &&& exists|name: Seq<char>|
                        {
                            &&& #[trigger] after.radio.is_named(name)
                            &&& arrived->Ok_0->0.origin_uri == "lorawan://"@ + name + "/"@
                                + text::hexadecimal(after.device.dev_addr as nat, 8) + "?port="@
                                + text::decimal(frame.port as nat) + "&fcnt="@ + text::decimal(
                                frame.fcnt as nat,
                            )
                        }
                }
            },
        arrived is Err && arrived->Err_0 == Error::OnlyAcks && !(exists|
            outcome: Result<Option<FrameView>>,
        | #[trigger]
            receives(before, outcome, after) && outcome is Err) ==> exists|bare: FrameView| #[trigger]
            bare.is_bare() && hears_past(before, 0xffff_ffff_ffff_ffff, Ok(Some(bare)), after),
{
    if exists|outcome: Result<Option<FrameView>>| #[trigger]
        receives(before, outcome, after) && arrives(after, outcome, arrived) {
        let outcome = choose|outcome: Result<Option<FrameView>>| #[trigger]
            receives(before, outcome, after) && arrives(after, outcome, arrived);
        if let Ok(Some(frame)) = outcome {
            lemma_arrival_is_named(after, frame, arrived->Ok_0->0);
        }
    }
}

/// An arrival names the radio, the device and the frame.
proof fn lemma_arrival_is_named<R: Radio>(
    link: LinkView<R>,
    frame: FrameView,
    arrived: ArrivedView,
)
    requires
        link.is_arrival(frame, arrived),
    ensures
        arrived.bytes == frame.payload,
        exists|name: Seq<char>|
            {
                &&& #[trigger] link.radio.is_named(name)
                &&& arrived.origin_uri == "lorawan://"@ + name + "/"@ + text::hexadecimal(
                    link.device.dev_addr as nat,
                    8,
                ) + "?port="@ + text::decimal(frame.port as nat) + "&fcnt="@ + text::decimal(
                    frame.fcnt as nat,
                )
            },
{
}

/// An arrival is the whole payload of its frame and names where it came from; an
/// origin is the radio's name and the device's address.
pub proof fn origins_name_radio_and_device<R: Radio>(
    link: LinkView<R>,
    uri: Seq<char>,
    frame: FrameView,
    arrived: ArrivedView,
)
    ensures
        link.is_origin(uri) ==> exists|name: Seq<char>| #[trigger]
            link.radio.is_named(name) && uri == "lorawan://"@ + name + "/"@ + text::hexadecimal(
                link.device.dev_addr as nat,
                8,
            ),
        link.is_arrival(frame, arrived) ==> arrived.bytes == frame.payload && exists|name: Seq<char>|
            #[trigger]
            link.radio.is_named(name) && arrived.origin_uri == "lorawan://"@ + name + "/"@
                + text::hexadecimal(link.device.dev_addr as nat, 8) + "?port="@ + text::decimal(
                frame.port as nat,
            ) + "&fcnt="@ + text::decimal(frame.fcnt as nat),
{
}

/// What arrived and what is stated of it are the same.
pub proof fn arrivals_are_their_fields(
    arrived: Arrived,
    arrivals: Seq<Arrived>,
    i: int,
    one: Result<Arrived>,
    some: Result<Option<Arrived>>,
    stream: Option<ArrivedView>,
)
    ensures
        arrived@.origin_uri == arrived.origin_uri@,
        arrived@.bytes == arrived.bytes@,
        arrivals_view(arrivals).len() == arrivals.len(),
        0 <= i < arrivals.len() ==> arrivals_view(arrivals)[i] == arrivals[i]@,
        one is Ok ==> arrival_view(one) is Ok && arrival_view(one)->Ok_0 == one->Ok_0@,
        one is Err ==> arrival_view(one) is Err && arrival_view(one)->Err_0 == one->Err_0,
        some is Err ==> arrived_view(some) is Err && arrived_view(some)->Err_0 == some->Err_0,
        some is Ok && some->Ok_0 is None ==> arrived_view(some) is Ok && arrived_view(some)->Ok_0
            is None,
        some is Ok && some->Ok_0 is Some ==> arrived_view(some) is Ok && arrived_view(some)->Ok_0
            == Some(some->Ok_0->0@),
        stream is None ==> as_sequence(stream).len() == 0,
        stream is Some ==> as_sequence(stream).len() == 1 && as_sequence(stream)[0] == stream->0,
{
}

/// A link keeps its set-up exactly where the address, the keys and the three
/// things configured are the same, and the counters say how many frames went up.
pub proof fn set_up_is_five_things<R: Radio>(link: LinkView<R>, before: LinkView<R>, n: nat)
    ensures
        link.set_up_as(before) <==> {
            &&& link.device.dev_addr == before.device.dev_addr
            &&& link.device.keys == before.device.keys
            &&& link.confirmed == before.confirmed
            &&& link.timeout == before.timeout
            &&& link.loopback == before.loopback
        },
        link.is_within(n, before) ==> link.device.dev_addr == before.device.dev_addr
            && link.device.keys == before.device.keys && link.confirmed == before.confirmed
            && link.timeout == before.timeout && link.loopback == before.loopback
            && before.device.fcnt_up <= link.device.fcnt_up <= before.device.fcnt_up + n,
{
}

/// The far end gives the oldest stream that its server holds, whole, with the port
/// it came on, and the server then holds the others; with none it gives nothing
/// and stays as it is.
pub proof fn far_end_gives_the_oldest(origin_uri: Seq<char>, server: ServerView)
    ensures
        server.complete.len() == 0 ==> served(origin_uri, server) == Err::<ArrivedView, Error>(
            Error::NothingArrived,
        ) && after_serving(server) == server,
        server.complete.len() > 0 ==> {
            &&& served(origin_uri, server) is Ok
            &&& served(origin_uri, server)->Ok_0.bytes == server.complete[0].1
            &&& served(origin_uri, server)->Ok_0.origin_uri == origin_uri + "?port="@ + text::decimal(
                server.complete[0].0 as nat,
            )
            &&& after_serving(server) == (ServerView {
                complete: server.complete.skip(1),
                ..server
            })
        },
{
}

/// A round sends its payload and takes the oldest stream of the server: it succeeds
/// only with what was sent, and else says what went wrong. Off a loopback it does
/// nothing.
pub proof fn round_gives_what_was_sent(
    before: LinkView<LoopbackRadio>,
    payload: Seq<u8>,
    result: Result<ArrivedView>,
    after: LinkView<LoopbackRadio>,
)
    requires
        rounds(before, payload, result, after),
    ensures
        result is Ok ==> before.loopback && result->Ok_0.bytes == payload,
        !before.loopback ==> result == Err::<ArrivedView, Error>(Error::NotLoopback) && after
            == before,
        before.loopback ==> exists|sent: Result<()>, up: LinkView<LoopbackRadio>|
            {
                &&& #[trigger] sends_stream(before, payload, up, sent)
                &&& sent is Err ==> result is Err && result->Err_0 == sent->Err_0 && after == up
                &&& sent is Ok && up.radio@.complete.len() == 0 ==> result == Err::<
                    ArrivedView,
                    Error,
                >(Error::NothingArrived) && after.radio@ == up.radio@
                &&& sent is Ok && up.radio@.complete.len() > 0 ==> {
                    &&& after.radio@ == (ServerView {
                        complete: up.radio@.complete.skip(1),
                        ..up.radio@
                    })
                    &&& up.radio@.complete[0].1 != payload ==> result == Err::<ArrivedView, Error>(
                        Error::Differs,
                    )
                    &&& up.radio@.complete[0].1 == payload ==> result is Ok
                        && result->Ok_0.origin_uri == "lorawan://"@ + "loopback"@ + "/"@
                        + text::hexadecimal(before.device.dev_addr as nat, 8) + "?port="@
                        + text::decimal(up.radio@.complete[0].0 as nat)
                }
                &&& after.device == up.device && after.confirmed == up.confirmed && after.timeout
                    == up.timeout && after.loopback == up.loopback
            },
{
    reveal(rounds);
}

/// When a round comes back whole: on a loopback in step, with counters for its
/// frames and their ACKs, and no older stream at the server.
pub proof fn round_needs_counters_alone(link: LinkView<LoopbackRadio>, payload: Seq<u8>)
    requires
        link.loopback,
        link.in_step(),
        link.radio@.complete.len() == 0,
        link.device.fcnt_up + frame::stream_parts(payload).len() <= u32::MAX,
        link.radio@.fcnt_down + frame::stream_parts(payload).len() <= u32::MAX,
    ensures
        link.round_comes_back(payload),
{
}

} // verus!
