//! The device's session: what it seals to send up, and what it takes of the
//! frames that come down.

use std::collections::VecDeque;

use vstd::prelude::*;

use crate::error::Error;
use crate::error::Result;
use crate::frame;
use crate::frame::Frame;
use crate::frame::FrameView;
use crate::frame::Keys;
use crate::frame::MType;
use crate::frame::Part;
use crate::radio;
use crate::server;

verus! {

/// The device's session: its address, its keys and where its counters are. One
/// session sends for the device, because the network refuses a counter that
/// goes back.
#[derive(Debug)]
pub struct Device {
    /// The device's address.
    pub dev_addr: u32,
    /// The session keys.
    pub keys: Keys,
    fcnt_up: u32,
    fcnt_down: Option<u32>,
    /// Frames down that carried data as well as an ACK, kept for the next
    /// receive.
    held: VecDeque<Frame>,
}

/// A [`Device`] as a mathematical value.
#[verifier::ext_equal]
pub struct DeviceView {
    /// The device's address.
    pub dev_addr: u32,
    /// The session keys.
    pub keys: Keys,
    /// The counter of the next frame up.
    pub fcnt_up: u32,
    /// The counter of the last frame down, or `None` before the first.
    pub fcnt_down: Option<u32>,
    /// Frames down kept for the next receive, the oldest first.
    pub held: Seq<FrameView>,
}

impl View for Device {
    type V = DeviceView;

    closed spec fn view(&self) -> DeviceView {
        DeviceView {
            dev_addr: self.dev_addr,
            keys: self.keys,
            fcnt_up: self.fcnt_up,
            fcnt_down: self.fcnt_down,
            held: server::frames_of(self.held@),
        }
    }
}

/// The message type of a frame up.
pub open spec fn type_up(confirmed: bool) -> MType {
    if confirmed {
        MType::ConfirmedUp
    } else {
        MType::UnconfirmedUp
    }
}

impl FrameView {
    /// Whether a frame down carries nothing but its ACK bit.
    pub open spec fn is_bare(self) -> bool {
        self.port == 0 && self.payload.len() == 0
    }
}

impl DeviceView {
    /// The next frame up, carrying `part`.
    pub open spec fn frame_up(self, confirmed: bool, part: Part) -> FrameView {
        FrameView {
            mtype: type_up(confirmed),
            dev_addr: self.dev_addr,
            ack: false,
            fcnt: self.fcnt_up,
            port: part.0,
            payload: part.1,
        }
    }

    /// The session once a frame up took its counter.
    pub open spec fn counting(self) -> DeviceView {
        DeviceView { fcnt_up: (self.fcnt_up + 1) as u32, ..self }
    }

    /// The frame down that `bytes` carry, or why the device does not take it:
    /// there is no counter past the last, else it does not open, else it goes
    /// up or to another device.
    pub open spec fn taken_down(self, bytes: Seq<u8>) -> Result<FrameView> {
        if self.fcnt_down == Some(u32::MAX) {
            Err(Error::Spent)
        } else {
            self.taken_next(bytes)
        }
    }

    /// The frame down that `bytes` carry, or why the device does not take it,
    /// while there is a counter past the last.
    pub open spec fn taken_next(self, bytes: Seq<u8>) -> Result<FrameView> {
        match frame::opened(bytes, self.keys, server::high_after(self.fcnt_down)) {
            Err(error) => Err(error),
            Ok(frame) => if frame.mtype.goes_up() || frame.dev_addr != self.dev_addr {
                Err(Error::NotForDevice)
            } else {
                Ok(frame)
            },
        }
    }

    /// The session once a frame down came in; one refused changes nothing.
    pub open spec fn hearing(self, outcome: Result<FrameView>) -> DeviceView {
        match outcome {
            Ok(frame) => DeviceView { fcnt_down: Some(frame.fcnt), ..self },
            Err(_) => self,
        }
    }

    /// The session once a frame down is kept for the next receive.
    pub open spec fn holding(self, frame: FrameView) -> DeviceView {
        DeviceView { held: self.held.push(frame), ..self }
    }

    /// The session once the oldest frame down kept for a receive is gone.
    pub open spec fn releasing(self) -> DeviceView {
        DeviceView { held: self.held.skip(1), ..self }
    }

    /// What a receive window brings the session: a frame that it takes, nothing,
    /// or why there is none.
    pub open spec fn window_outcome(self, heard: Result<Option<Seq<u8>>>) -> Result<
        Option<FrameView>,
    > {
        match heard {
            Err(error) => Err(error),
            Ok(None) => Ok(None),
            Ok(Some(bytes)) => match self.taken_down(bytes) {
                Ok(frame) => Ok(Some(frame)),
                Err(error) => Err(error),
            },
        }
    }

    /// The session after a receive window.
    pub open spec fn after_window(self, heard: Result<Option<Seq<u8>>>) -> DeviceView {
        match heard {
            Ok(Some(bytes)) => self.hearing(self.taken_down(bytes)),
            _ => self,
        }
    }

    /// What becomes of a confirmed frame when the window after it brought
    /// `outcome`: it is done where an ACK came.
    pub open spec fn settlement(self, outcome: Result<Option<FrameView>>) -> Result<()> {
        match outcome {
            Err(error) => Err(error),
            Ok(None) => Err(Error::NoAck),
            Ok(Some(frame)) => if frame.ack {
                Ok(())
            } else {
                Err(Error::NoAckBit)
            },
        }
    }

    /// The session once a confirmed frame was settled: a frame that carries more
    /// than its ACK is kept for the next receive.
    pub open spec fn after_settlement(self, outcome: Result<Option<FrameView>>) -> DeviceView {
        match outcome {
            Ok(Some(frame)) => if frame.ack && !frame.is_bare() {
                self.holding(frame)
            } else {
                self
            },
            _ => self,
        }
    }

    /// Whether every frame kept for a receive is a stream.
    pub open spec fn holds_streams(self) -> bool {
        forall|i: int| 0 <= i < self.held.len() ==> !(#[trigger] self.held[i]).is_bare()
    }

    /// Whether the counter has room for `n` frames up.
    pub open spec fn has_ups(self, n: nat) -> bool {
        self.fcnt_up + n <= u32::MAX
    }

    /// The session once `n` frames up took their counters.
    pub open spec fn counted(self, n: nat) -> DeviceView
        decreases n,
    {
        if n == 0 {
            self
        } else {
            self.counted((n - 1) as nat).counting()
        }
    }
}

impl Device {
    /// A session before its first frame.
    pub fn new(dev_addr: u32, keys: Keys) -> (device: Device)
        ensures
            device@ == (DeviceView {
                dev_addr,
                keys,
                fcnt_up: 0,
                fcnt_down: None,
                held: seq![],
            }),
            device@.holds_streams(),
    {
        let device = Device { dev_addr, keys, fcnt_up: 0, fcnt_down: None, held: VecDeque::new() };
        assert(device@.held =~= seq![]);
        device
    }

    /// The device's address.
    pub fn address(&self) -> (dev_addr: u32)
        ensures
            dev_addr == self@.dev_addr,
    {
        self.dev_addr
    }

    /// The counter of the next frame up, taken.
    pub fn next_fcnt_up(&mut self) -> (fcnt: u32)
        requires
            old(self)@.has_ups(1),
        ensures
            fcnt == old(self)@.fcnt_up,
            final(self)@ == old(self)@.counting(),
    {
        let next = self.fcnt_up;
        self.fcnt_up = self.fcnt_up + 1;
        next
    }

    /// The next frame up, carrying `payload` on `port`, sealed. Without a counter
    /// for it there is none; else it takes its counter even where the payload
    /// is more than one frame carries, which is refused.
    pub fn seal_up(&mut self, confirmed: bool, port: u8, payload: &[u8]) -> (r: Result<Vec<u8>>)
        ensures
            final(self)@ == (if old(self)@.has_ups(1) {
                old(self)@.counting()
            } else {
                old(self)@
            }),
            frame::same_outcome(
                r,
                if !old(self)@.has_ups(1) {
                    Err(Error::Spent)
                } else if payload@.len() > frame::MAX_FRM_PAYLOAD {
                    Err(Error::TooLong)
                } else {
                    Ok(old(self)@.frame_up(confirmed, (port, payload@)).sealed(old(self)@.keys))
                },
            ),
    {
        let mtype = if confirmed {
            MType::ConfirmedUp
        } else {
            MType::UnconfirmedUp
        };
        if self.fcnt_up == u32::MAX {
            return Err(Error::Spent);
        }
        let fcnt = self.next_fcnt_up();
        match Frame::new(mtype, self.dev_addr, fcnt, port, payload) {
            Ok(frame) => Ok(frame.seal(&self.keys)),
            Err(error) => Err(error),
        }
    }

    /// One frame down, opened.
    fn open_down(&mut self, bytes: &[u8]) -> (r: Result<Frame>)
        ensures
            frame::same_outcome(r, old(self)@.taken_down(bytes@)),
            final(self)@ == old(self)@.hearing(old(self)@.taken_down(bytes@)),
    {
        let expected: u32 = match self.fcnt_down {
            Some(last) => {
                if last == u32::MAX {
                    return Err(Error::Spent);
                }
                last + 1
            },
            None => 0,
        };
        let frame = match Frame::open(bytes, &self.keys, (expected / 0x1_0000) as u16) {
            Ok(frame) => frame,
            Err(error) => {
                return Err(error);
            },
        };
        if frame.mtype.is_uplink() || frame.dev_addr != self.dev_addr {
            return Err(Error::NotForDevice);
        }
        self.fcnt_down = Some(frame.fcnt);
        Ok(frame)
    }

    /// What a receive window brought, opened.
    pub fn hear(&mut self, window: Result<Option<Vec<u8>>>) -> (r: Result<Option<Frame>>)
        ensures
            window_view(r) == old(self)@.window_outcome(radio::heard(window)),
            final(self)@ == old(self)@.after_window(radio::heard(window)),
    {
        match window {
            Ok(Some(bytes)) => match self.open_down(bytes.as_slice()) {
                Ok(frame) => Ok(Some(frame)),
                Err(error) => Err(error),
            },
            Ok(None) => Ok(None),
            Err(error) => Err(error),
        }
    }

    /// Settle a confirmed frame by what the window after it brought. A frame
    /// down that carries more than its ACK is kept for the next receive.
    pub fn settle(&mut self, window: Result<Option<Frame>>) -> (r: Result<()>)
        ensures
            r == old(self)@.settlement(window_view(window)),
            final(self)@ == old(self)@.after_settlement(window_view(window)),
    {
        match window {
            Ok(Some(frame)) => {
                if !frame.ack {
                    return Err(Error::NoAckBit);
                }
                if !frame.is_bare_ack() {
                    self.hold(frame);
                }
                Ok(())
            },
            Ok(None) => Err(Error::NoAck),
            Err(error) => Err(error),
        }
    }

    /// Keep a frame down for the next receive.
    fn hold(&mut self, frame: Frame)
        ensures
            final(self)@ == old(self)@.holding(frame@),
    {
        let ghost before = self@;
        self.held.push_back(frame);
        assert(self@.held =~= before.held.push(frame@));
    }

    /// The oldest frame down kept for a receive.
    pub fn release(&mut self) -> (r: Option<Frame>)
        ensures
            match r {
                Some(frame) => {
                    &&& old(self)@.held.len() > 0
                    &&& frame@ == old(self)@.held[0]
                    &&& final(self)@ == old(self)@.releasing()
                },
                None => old(self)@.held.len() == 0 && final(self)@ == old(self)@,
            },
    {
        let ghost before = self@;
        let next = self.held.pop_front();
        if next.is_some() {
            assert(self@.held =~= before.held.skip(1));
        }
        next
    }
}

impl Frame {
    /// Whether a frame down carries nothing but its ACK bit.
    pub fn is_bare_ack(&self) -> (r: bool)
        ensures
            r == self@.is_bare(),
    {
        self.port == 0 && self.payload.len() == 0
    }
}

/// A frame or none, as a mathematical value.
pub open spec fn window_view(r: Result<Option<Frame>>) -> Result<Option<FrameView>> {
    match r {
        Err(error) => Err(error),
        Ok(None) => Ok(None),
        Ok(Some(frame)) => Ok(Some(frame@)),
    }
}

/// A session keeps nothing but streams for its receives, whatever it sends and
/// whatever comes down.
pub proof fn session_holds_streams(
    device: DeviceView,
    heard: Result<Option<Seq<u8>>>,
    outcome: Result<Option<FrameView>>,
)
    requires
        device.holds_streams(),
    ensures
        device.counting().holds_streams(),
        device.after_window(heard).holds_streams(),
        device.after_settlement(outcome).holds_streams(),
        device.held.len() > 0 ==> device.releasing().holds_streams(),
{
    let released = device.releasing();
    if device.held.len() > 0 {
        assert forall|i: int| 0 <= i < released.held.len() implies !(
        #[trigger] released.held[i]).is_bare() by {
            assert(released.held[i] == device.held[i + 1]);
        }
    }
}

/// A frame up says who sends it and carries its part as it is: the next counter,
/// the part's port and bytes, no ACK, and confirmed where that was asked for.
pub proof fn frame_up_carries_its_part(device: DeviceView, confirmed: bool, part: Part)
    ensures
        device.frame_up(confirmed, part).mtype is ConfirmedUp <==> confirmed,
        device.frame_up(confirmed, part).mtype is UnconfirmedUp <==> !confirmed,
        device.frame_up(confirmed, part).dev_addr == device.dev_addr,
        device.frame_up(confirmed, part).fcnt == device.fcnt_up,
        device.frame_up(confirmed, part).port == part.0,
        device.frame_up(confirmed, part).payload == part.1,
        !device.frame_up(confirmed, part).ack,
        device.has_ups(1) <==> device.fcnt_up < u32::MAX,
        device.has_ups(1) ==> device.counting() == (DeviceView {
            fcnt_up: (device.fcnt_up + 1) as u32,
            ..device
        }),
{
}

/// Whether there are counters for a number of frames up.
pub proof fn counters_up_are_as_many(device: DeviceView, n: nat)
    ensures
        device.has_ups(n) <==> device.fcnt_up + n <= 0xffff_ffff,
{
}

/// How a frame down is judged: it is refused for the first reason against it
/// that holds, and taken as the frame it opens to where none does.
pub proof fn frame_down_is_judged(device: DeviceView, bytes: Seq<u8>)
    ensures
        ({
            let expected = match device.fcnt_down {
                Some(last) => last + 1,
                None => 0,
            };
            let read = frame::opened(bytes, device.keys, (expected / 0x1_0000) as u16);
            match device.taken_down(bytes) {
                Err(error) => if expected > u32::MAX {
                    error == Error::Spent
                } else if read is Err {
                    error == read->Err_0
                } else {
                    let frame = read->Ok_0;
                    &&& error == Error::NotForDevice
                    &&& frame.mtype is UnconfirmedUp || frame.mtype is ConfirmedUp || frame.dev_addr
                        != device.dev_addr
                },
                Ok(frame) => {
                    &&& expected <= u32::MAX
                    &&& read == Ok::<FrameView, Error>(frame)
                    &&& frame.mtype is UnconfirmedDown || frame.mtype is ConfirmedDown
                    &&& frame.dev_addr == device.dev_addr
                },
            }
        }),
{
}

/// What a receive window does: a frame that is taken comes out as it is and its
/// counter is the last; nothing, a failure or a frame that is refused comes out
/// as such and changes nothing.
pub proof fn window_brings_what_came(device: DeviceView, heard: Result<Option<Seq<u8>>>)
    ensures
        heard is Err ==> device.window_outcome(heard) is Err && device.window_outcome(heard)->Err_0
            == heard->Err_0 && device.after_window(heard) == device,
        heard is Ok && heard->Ok_0 is None ==> device.window_outcome(heard) == Ok::<
            Option<FrameView>,
            Error,
        >(None) && device.after_window(heard) == device,
        heard is Ok && heard->Ok_0 is Some ==> {
            let taken = device.taken_down(heard->Ok_0->0);
            &&& taken is Err ==> device.window_outcome(heard) is Err && device.window_outcome(
                heard,
            )->Err_0 == taken->Err_0 && device.after_window(heard) == device
            &&& taken is Ok ==> device.window_outcome(heard) == Ok::<Option<FrameView>, Error>(
                Some(taken->Ok_0),
            ) && device.after_window(heard) == (DeviceView {
                fcnt_down: Some(taken->Ok_0.fcnt),
                ..device
            })
        },
{
}

/// What settles a confirmed frame: an ACK does, and what came with it is held
/// behind the others unless it is port zero without a payload; without one, the
/// reason is that nothing came, that the ACK bit was missing, or the failure.
pub proof fn ack_settles_a_frame(device: DeviceView, outcome: Result<Option<FrameView>>)
    ensures
        outcome is Err ==> device.settlement(outcome) is Err && device.settlement(outcome)->Err_0
            == outcome->Err_0 && device.after_settlement(outcome) == device,
        outcome is Ok && outcome->Ok_0 is None ==> device.settlement(outcome) == Err::<(), Error>(
            Error::NoAck,
        ) && device.after_settlement(outcome) == device,
        outcome is Ok && outcome->Ok_0 is Some ==> {
            let frame = outcome->Ok_0->0;
            &&& !frame.ack ==> device.settlement(outcome) == Err::<(), Error>(Error::NoAckBit)
                && device.after_settlement(outcome) == device
            &&& frame.ack ==> device.settlement(outcome) is Ok
            &&& frame.ack && frame.port == 0 && frame.payload.len() == 0 ==> device.after_settlement(
                outcome,
            ) == device
            &&& frame.ack && (frame.port != 0 || frame.payload.len() > 0)
                ==> device.after_settlement(outcome) == (DeviceView {
                held: device.held.push(frame),
                ..device
            })
        },
{
}

/// The oldest frame held goes first, and the others stay in their order.
pub proof fn oldest_held_goes_first(device: DeviceView, frame: FrameView, i: int)
    requires
        device.held.len() > 0,
    ensures
        device.releasing().held.len() == device.held.len() - 1,
        0 <= i < device.held.len() - 1 ==> device.releasing().held[i] == device.held[i + 1],
        device.releasing() == (DeviceView { held: device.releasing().held, ..device }),
        frame.is_bare() <==> frame.port == 0 && frame.payload.len() == 0,
{
}

/// A session that holds nothing but streams holds no bare ACK.
pub proof fn held_streams_are_no_bare_acks(device: DeviceView, i: int)
    requires
        0 <= i < device.held.len(),
    ensures
        device.holds_streams() ==> device.held[i].port != 0 || device.held[i].payload.len() > 0,
        !device.holds_streams() ==> exists|j: int|
            0 <= j < device.held.len() && (#[trigger] device.held[j]).port == 0
                && device.held[j].payload.len() == 0,
{
    if !device.holds_streams() {
        let j = choose|j: int|
            0 <= j < device.held.len() && (#[trigger] device.held[j]).is_bare();
        assert(device.held[j].port == 0);
    }
}

/// What a window brought and what is stated of it are the same.
pub proof fn window_is_what_came(r: Result<Option<Frame>>)
    ensures
        match r {
            Ok(Some(frame)) => window_view(r) == Ok::<Option<FrameView>, Error>(Some(frame@)),
            Ok(None) => window_view(r) == Ok::<Option<FrameView>, Error>(None),
            Err(error) => window_view(r) == Err::<Option<FrameView>, Error>(error),
        },
{
}

/// Every frame up takes the counter after the one before: once `n` of them did,
/// the next counter is `n` further on, and nothing else of the session changed.
/// Of a new session, whose first counter is zero, that is `n` itself.
pub proof fn counters_up_run_on(device: DeviceView, n: nat)
    requires
        device.has_ups(n),
    ensures
        device.counted(n).fcnt_up == device.fcnt_up + n,
        device.counted(n) == (DeviceView { fcnt_up: device.counted(n).fcnt_up, ..device }),
    decreases n,
{
    if n > 0 {
        counters_up_run_on(device, (n - 1) as nat);
    }
}

} // verus!
