//! The network server's side of one device: it opens each uplink under the
//! device's session keys, refuses a counter that does not advance, puts the
//! fragments of a stream back together, and answers a confirmed uplink with
//! a downlink carrying the ACK bit. The same server runs inside the loopback
//! radio; behind a real gateway it is the operator's.

use std::collections::VecDeque;

use vstd::prelude::*;
use vstd::slice::*;

use crate::error::Error;
use crate::error::Result;
use crate::frame;
use crate::frame::Frame;
use crate::frame::FrameView;
use crate::frame::Keys;
use crate::frame::MType;
use crate::frame::Part;

verus! {

/// One device as its network server knows it.
#[derive(Debug)]
pub struct NetworkServer {
    dev_addr: u32,
    keys: Keys,
    /// The last uplink counter accepted, or `None` before the first.
    fcnt_up: Option<u32>,
    fcnt_down: u32,
    /// What has arrived of a stream in fragments, or `None` while none is under
    /// way.
    arriving: Option<Vec<u8>>,
    complete: VecDeque<(u8, Vec<u8>)>,
    /// Queued for the device's receive windows, sealed when they open: a
    /// confirmed uplink puts its ACK on the first of them.
    downlinks: VecDeque<Frame>,
}

/// A [`NetworkServer`] as a mathematical value.
#[verifier::ext_equal]
pub struct ServerView {
    /// The device's address.
    pub dev_addr: u32,
    /// The session keys.
    pub keys: Keys,
    /// The last uplink counter accepted, or `None` before the first.
    pub fcnt_up: Option<u32>,
    /// The counter of the next downlink queued.
    pub fcnt_down: u32,
    /// What has arrived of a stream in fragments, or `None` while none is under
    /// way.
    pub arriving: Option<Seq<u8>>,
    /// The streams that arrived whole and were not taken, the oldest first.
    pub complete: Seq<Part>,
    /// The downlinks queued, the next to be sent first.
    pub downlinks: Seq<FrameView>,
}

/// Frames, as mathematical values.
pub open spec fn frames_of(frames: Seq<Frame>) -> Seq<FrameView> {
    Seq::new(frames.len(), |i: int| frames[i]@)
}

impl View for NetworkServer {
    type V = ServerView;

    closed spec fn view(&self) -> ServerView {
        ServerView {
            dev_addr: self.dev_addr,
            keys: self.keys,
            fcnt_up: self.fcnt_up,
            fcnt_down: self.fcnt_down,
            arriving: match self.arriving {
                Some(bytes) => Some(bytes@),
                None => None,
            },
            complete: frame::parts_of(self.complete@),
            downlinks: frames_of(self.downlinks@),
        }
    }
}

/// The counter that follows the last one, or the first.
pub open spec fn counter_after(last: Option<u32>) -> int {
    match last {
        Some(n) => n + 1,
        None => 0,
    }
}

/// The high sixteen bits of the counter that follows the last one.
pub open spec fn high_after(last: Option<u32>) -> u16 {
    (counter_after(last) / 0x1_0000) as u16
}

impl ServerView {
    /// Whether accepting `frame` takes a counter for a bare ACK.
    pub open spec fn owes_bare_ack(self, frame: FrameView) -> bool {
        frame.mtype.asks_ack() && self.downlinks.len() == 0
    }

    /// The frame that an uplink carries, or why it is refused: no counter is
    /// left to advance to, else it does not open, else it is from another
    /// device, else it goes down, else its counter does not advance, else it is
    /// a fragment without flags or on a port that nothing listens on, else there
    /// is no counter for the bare ACK that it asks for.
    pub open spec fn accepted(self, bytes: Seq<u8>) -> Result<FrameView> {
        if self.fcnt_up == Some(u32::MAX) {
            Err(Error::Counter)
        } else {
            self.accepted_next(bytes)
        }
    }

    /// The frame that an uplink carries, or why it is refused, while there is a
    /// counter past the last.
    pub open spec fn accepted_next(self, bytes: Seq<u8>) -> Result<FrameView> {
        match frame::opened(bytes, self.keys, high_after(self.fcnt_up)) {
            Err(error) => Err(error),
            Ok(frame) => if frame.dev_addr != self.dev_addr {
                Err(Error::OtherDevice)
            } else if !frame.mtype.goes_up() {
                Err(Error::WrongWay)
            } else if frame.fcnt < counter_after(self.fcnt_up) {
                Err(Error::Counter)
            } else if frame.port != frame::PORT_STREAM && frame.port != frame::PORT_FRAGMENT {
                Err(Error::Port(frame.port))
            } else if frame.port == frame::PORT_FRAGMENT && frame.payload.len() == 0 {
                Err(Error::NoFlags)
            } else if self.owes_bare_ack(frame) && self.fcnt_down == u32::MAX {
                Err(Error::Spent)
            } else {
                Ok(frame)
            },
        }
    }

    /// The server once a fragment came in: the first of a stream drops what had
    /// arrived of another, the last completes the stream. While no stream is
    /// under way only a first fragment begins one: any other belongs to a stream
    /// whose beginning never arrived, and nothing of it is kept.
    pub open spec fn with_fragment(self, payload: Seq<u8>) -> ServerView {
        let under_way = if payload[0] & frame::FIRST != 0 {
            Some(Seq::<u8>::empty())
        } else {
            self.arriving
        };
        match under_way {
            None => self,
            Some(kept) => {
                let arriving = kept + payload.skip(1);
                if payload[0] & frame::LAST != 0 {
                    ServerView {
                        arriving: None,
                        complete: self.complete.push((frame::PORT_FRAGMENT, arriving)),
                        ..self
                    }
                } else {
                    ServerView { arriving: Some(arriving), ..self }
                }
            },
        }
    }

    /// The server once a part of a stream came in.
    pub open spec fn with_part(self, part: Part) -> ServerView {
        if part.0 == frame::PORT_STREAM {
            ServerView { complete: self.complete.push(part), ..self }
        } else {
            self.with_fragment(part.1)
        }
    }

    /// A downlink with the server's next counter.
    pub open spec fn downlink_frame(self, port: u8, payload: Seq<u8>) -> FrameView {
        FrameView {
            mtype: MType::UnconfirmedDown,
            dev_addr: self.dev_addr,
            ack: false,
            fcnt: self.fcnt_down,
            port,
            payload,
        }
    }

    /// The server once `frame` is queued under the next counter.
    pub open spec fn queueing(self, frame: FrameView) -> ServerView {
        ServerView {
            fcnt_down: (self.fcnt_down + 1) as u32,
            downlinks: self.downlinks.push(frame),
            ..self
        }
    }

    /// The server once it owes the device an ACK: on the first downlink queued,
    /// else on one of its own that carries nothing else.
    pub open spec fn acknowledging(self) -> ServerView {
        if self.downlinks.len() > 0 {
            let first = FrameView { ack: true, ..self.downlinks[0] };
            ServerView { downlinks: self.downlinks.update(0, first), ..self }
        } else {
            let bare = FrameView { ack: true, ..self.downlink_frame(0, seq![]) };
            self.queueing(bare)
        }
    }

    /// The server once it accepted `frame`.
    pub open spec fn taking(self, frame: FrameView) -> ServerView {
        let taken = ServerView {
            fcnt_up: Some(frame.fcnt),
            ..self.with_part((frame.port, frame.payload))
        };
        if frame.mtype.asks_ack() {
            taken.acknowledging()
        } else {
            taken
        }
    }

    /// The server once the uplink `bytes` came in; one refused changes nothing.
    pub open spec fn uplinked(self, bytes: Seq<u8>) -> ServerView {
        match self.accepted(bytes) {
            Ok(frame) => self.taking(frame),
            Err(_) => self,
        }
    }

    /// The server once the oldest stream that arrived whole was taken.
    pub open spec fn giving_next(self) -> ServerView {
        ServerView { complete: self.complete.skip(1), ..self }
    }

    /// The server once it sent the next downlink.
    pub open spec fn sending_next(self) -> ServerView {
        ServerView { downlinks: self.downlinks.skip(1), ..self }
    }

    /// Whether the downlinks queued are as the server queues them: unconfirmed
    /// frames for its device that fit a frame, under counters that run up to
    /// the next one.
    pub open spec fn is_orderly(self) -> bool {
        forall|i: int|
            0 <= i < self.downlinks.len() ==> {
                let frame = #[trigger] self.downlinks[i];
                &&& frame.mtype == MType::UnconfirmedDown
                &&& frame.dev_addr == self.dev_addr
                &&& frame.payload.len() <= frame::MAX_FRM_PAYLOAD
                &&& frame.fcnt + (self.downlinks.len() - i) == self.fcnt_down
            }
    }
}

impl NetworkServer {
    /// The server of the device `dev_addr`, before its first uplink.
    pub fn new(dev_addr: u32, keys: Keys) -> (server: NetworkServer)
        ensures
            server@ == (ServerView {
                dev_addr,
                keys,
                fcnt_up: None,
                fcnt_down: 0,
                arriving: None,
                complete: seq![],
                downlinks: seq![],
            }),
            server@.is_orderly(),
    {
        let server = NetworkServer {
            dev_addr,
            keys,
            fcnt_up: None,
            fcnt_down: 0,
            arriving: None,
            complete: VecDeque::new(),
            downlinks: VecDeque::new(),
        };
        assert(server@.complete =~= seq![]);
        assert(server@.downlinks =~= seq![]);
        server
    }

    /// The frame that an uplink carries, or why it is refused.
    fn accept(&self, bytes: &[u8]) -> (r: Result<Frame>)
        ensures
            frame::same_outcome(r, self@.accepted(bytes@)),
    {
        let expected: u32 = match self.fcnt_up {
            Some(last) => {
                if last == u32::MAX {
                    return Err(Error::Counter);
                }
                last + 1
            },
            None => 0,
        };
        let frame = match Frame::open(bytes, &self.keys, (expected / 0x1_0000) as u16) {
            Ok(frame) => frame,
            Err(error) => {
                return Err(error);
            },
        };
        if frame.dev_addr != self.dev_addr {
            return Err(Error::OtherDevice);
        }
        if !frame.mtype.is_uplink() {
            return Err(Error::WrongWay);
        }
        if frame.fcnt < expected {
            return Err(Error::Counter);
        }
        if frame.port == frame::PORT_FRAGMENT {
            if frame.payload.len() == 0 {
                return Err(Error::NoFlags);
            }
        } else if frame.port != frame::PORT_STREAM {
            return Err(Error::Port(frame.port));
        }
        if frame.mtype.is_confirmed() && self.downlinks.len() == 0 && self.fcnt_down == u32::MAX {
            return Err(Error::Spent);
        }
        Ok(frame)
    }

    /// One uplink as the gateway forwarded it.
    pub fn uplink(&mut self, bytes: &[u8]) -> (r: Result<()>)
        ensures
            r == crate::error::outcome_of(old(self)@.accepted(bytes@)),
            final(self)@ == old(self)@.uplinked(bytes@),
    {
        let frame = match self.accept(bytes) {
            Ok(frame) => frame,
            Err(error) => {
                return Err(error);
            },
        };
        let ghost before = self@;
        if frame.port == frame::PORT_STREAM {
            self.complete.push_back((frame.port, slice_to_vec(frame.payload.as_slice())));
            assert(self@.complete =~= before.complete.push((frame.port, frame.payload@)));
        } else {
            self.fragment(frame.payload.as_slice());
        }
        assert(self@ == before.with_part((frame.port, frame.payload@)));
        self.fcnt_up = Some(frame.fcnt);
        if frame.mtype.is_confirmed() {
            self.acknowledge();
        }
        Ok(())
    }

    /// Owe the device an ACK: on the first downlink queued, else on a bare one.
    fn acknowledge(&mut self)
        requires
            old(self)@.downlinks.len() == 0 ==> old(self)@.fcnt_down < u32::MAX,
        ensures
            final(self)@ == old(self)@.acknowledging(),
    {
        let ghost before = self@;
        match self.downlinks.pop_front() {
            Some(pending) => {
                let acknowledging = pending.acknowledging();
                self.downlinks.push_front(acknowledging);
                assert(self@.downlinks =~= before.acknowledging().downlinks);
            },
            None => {
                let ack = Frame {
                    mtype: MType::UnconfirmedDown,
                    dev_addr: self.dev_addr,
                    ack: true,
                    fcnt: self.fcnt_down,
                    port: 0,
                    payload: Vec::new(),
                };
                self.fcnt_down = self.fcnt_down + 1;
                self.downlinks.push_back(ack);
                assert(self@.downlinks =~= before.acknowledging().downlinks);
            },
        }
    }

    /// One fragment of a stream.
    fn fragment(&mut self, payload: &[u8])
        requires
            payload@.len() > 0,
        ensures
            final(self)@ == old(self)@.with_fragment(payload@),
    {
        let ghost before = self@;
        let flags = payload[0];
        let mut whole: Vec<u8> = if flags & frame::FIRST != 0 {
            Vec::new()
        } else {
            match self.arriving.take() {
                Some(kept) => kept,
                None => {
                    return;
                },
            }
        };
        let ghost kept = whole@;
        whole.extend_from_slice(slice_subrange(payload, 1, payload.len()));
        assert(whole@ =~= kept + payload@.skip(1));
        if flags & frame::LAST != 0 {
            self.arriving = None;
            self.complete.push_back((frame::PORT_FRAGMENT, whole));
            assert(self@.complete =~= before.with_fragment(payload@).complete);
        } else {
            self.arriving = Some(whole);
        }
    }

    /// Queue a downlink carrying `bytes` on `port` for the device's next
    /// receive window; more than one frame carries is refused, and so is one
    /// that there is no counter for.
    pub fn downlink(&mut self, port: u8, bytes: &[u8]) -> (r: Result<()>)
        ensures
            r is Ok ==> {
                let queued = final(self)@.downlinks.last();
                &&& final(self)@.downlinks.drop_last() == old(self)@.downlinks
                &&& queued.mtype is UnconfirmedDown
                &&& queued.dev_addr == old(self)@.dev_addr
                &&& !queued.ack
                &&& queued.fcnt == old(self)@.fcnt_down
                &&& queued.port == port
                &&& queued.payload == bytes@
            },
            r == (if bytes@.len() > frame::MAX_FRM_PAYLOAD {
                Err::<(), Error>(Error::TooLong)
            } else if old(self)@.fcnt_down == u32::MAX {
                Err::<(), Error>(Error::Spent)
            } else {
                Ok::<(), Error>(())
            }),
            final(self)@ == (if r is Ok {
                old(self)@.queueing(old(self)@.downlink_frame(port, bytes@))
            } else {
                old(self)@
            }),
    {
        let ghost before = self@;
        let frame = match Frame::new(
            MType::UnconfirmedDown,
            self.dev_addr,
            self.fcnt_down,
            port,
            bytes,
        ) {
            Ok(frame) => frame,
            Err(error) => {
                return Err(error);
            },
        };
        if self.fcnt_down == u32::MAX {
            return Err(Error::Spent);
        }
        self.fcnt_down = self.fcnt_down + 1;
        self.downlinks.push_back(frame);
        assert(self@.downlinks =~= before.downlinks.push(frame@));
        Ok(())
    }

    /// The next downlink for the device, sealed.
    pub fn next_downlink(&mut self) -> (r: Option<Vec<u8>>)
        ensures
            match r {
                Some(bytes) => {
                    &&& old(self)@.downlinks.len() > 0
                    &&& bytes@ == old(self)@.downlinks[0].sealed(old(self)@.keys)
                    &&& final(self)@ == old(self)@.sending_next()
                },
                None => old(self)@.downlinks.len() == 0 && final(self)@ == old(self)@,
            },
    {
        let ghost before = self@;
        match self.downlinks.pop_front() {
            Some(frame) => {
                assert(self@.downlinks =~= before.downlinks.skip(1));
                Some(frame.seal(&self.keys))
            },
            None => None,
        }
    }

    /// The next stream that arrived whole: the port it came on and its bytes.
    pub fn take(&mut self) -> (r: Option<(u8, Vec<u8>)>)
        ensures
            match r {
                Some((port, bytes)) => {
                    &&& old(self)@.complete.len() > 0
                    &&& (port, bytes@) == old(self)@.complete[0]
                    &&& final(self)@ == old(self)@.giving_next()
                },
                None => old(self)@.complete.len() == 0 && final(self)@ == old(self)@,
            },
    {
        let ghost before = self@;
        let next = self.complete.pop_front();
        if next.is_some() {
            assert(self@.complete =~= before.complete.skip(1));
        }
        next
    }
}

// ---------------------------------------------------------------------------
// Laws
// ---------------------------------------------------------------------------

impl ServerView {
    /// The server once the first `n` of `parts` came in.
    pub open spec fn with_parts(self, parts: Seq<Part>, n: nat) -> ServerView
        decreases n,
    {
        if n == 0 {
            self
        } else {
            self.with_parts(parts, (n - 1) as nat).with_part(parts[n - 1])
        }
    }

    /// The server once the stream `bytes` arrived whole.
    pub open spec fn with_stream(self, bytes: Seq<u8>) -> ServerView {
        if bytes.len() <= frame::MAX_FRM_PAYLOAD {
            ServerView { complete: self.complete.push((frame::PORT_STREAM, bytes)), ..self }
        } else {
            ServerView {
                arriving: None,
                complete: self.complete.push((frame::PORT_FRAGMENT, bytes)),
                ..self
            }
        }
    }
}

/// The parts of a stream, one after another, come back together: the server
/// then holds the stream whole behind those that came before, and nothing else
/// of it changes but what had arrived of another stream in fragments.
pub proof fn parts_come_back_together(server: ServerView, bytes: Seq<u8>)
    ensures
        server.with_parts(frame::stream_parts(bytes), frame::stream_parts(bytes).len())
            == server.with_stream(bytes),
        server.with_stream(bytes) == (ServerView {
            complete: server.complete.push(
                (
                    if bytes.len() <= 222 {
                        1u8
                    } else {
                        2u8
                    },
                    bytes,
                ),
            ),
            arriving: if bytes.len() <= 222 {
                server.arriving
            } else {
                None
            },
            ..server
        }),
{
    let parts = frame::stream_parts(bytes);
    if bytes.len() <= frame::MAX_FRM_PAYLOAD {
        assert(server.with_parts(parts, 0) == server);
        assert(server.with_parts(parts, 1) == server.with_part(parts[0]));
    } else {
        let n = parts.len();
        frame::every_stream_has_a_part(bytes);
        frame::every_part_fits_a_frame(bytes, 0);
        lemma_fragments_gather(server, bytes, (n - 1) as nat);
        frame::every_part_fits_a_frame(bytes, n - 1);
        let almost = server.with_parts(parts, (n - 1) as nat);
        frame::parts_join_to_the_stream(bytes);
        assert(frame::joined(parts, n) == frame::joined(parts, (n - 1) as nat)
            + frame::carried_by(parts[n - 1]));
        assert(almost.with_part(parts[n - 1]) == almost.with_fragment(parts[n - 1].1));
        assert(almost.with_fragment(parts[n - 1].1).complete
            =~= server.with_stream(bytes).complete);
    }
}

/// Short of the last, the fragments of a stream gather in order.
proof fn lemma_fragments_gather(server: ServerView, bytes: Seq<u8>, n: nat)
    requires
        bytes.len() > frame::MAX_FRM_PAYLOAD,
        1 <= n < frame::stream_parts(bytes).len(),
    ensures
        server.with_parts(frame::stream_parts(bytes), n) == (ServerView {
            arriving: Some(frame::joined(frame::stream_parts(bytes), n)),
            ..server
        }),
    decreases n,
{
    let parts = frame::stream_parts(bytes);
    let i = n - 1;
    frame::every_part_fits_a_frame(bytes, i);
    if n > 1 {
        lemma_fragments_gather(server, bytes, i as nat);
        assert(server.with_parts(parts, n).arriving->0 =~= frame::joined(parts, n));
    } else {
        assert(server.with_parts(parts, 0) == server);
        assert(frame::joined(parts, 0) =~= seq![]);
        assert(server.with_parts(parts, n).arriving->0 =~= frame::joined(parts, n));
    }
}

/// The downlinks stay orderly whatever the server does: an uplink, a downlink
/// queued, one sent, a stream taken.
pub proof fn server_stays_orderly(server: ServerView, bytes: Seq<u8>, port: u8)
    requires
        server.is_orderly(),
    ensures
        server.uplinked(bytes).is_orderly(),
        server.fcnt_down < u32::MAX && bytes.len() <= frame::MAX_FRM_PAYLOAD ==> server.queueing(
            server.downlink_frame(port, bytes),
        ).is_orderly(),
        server.downlinks.len() > 0 ==> server.sending_next().is_orderly(),
        server.giving_next().is_orderly(),
{
    if server.accepted(bytes) is Ok {
        let after = server.uplinked(bytes);
        assert forall|i: int| 0 <= i < after.downlinks.len() implies {
            let frame = #[trigger] after.downlinks[i];
            &&& frame.mtype == MType::UnconfirmedDown
            &&& frame.dev_addr == after.dev_addr
            &&& frame.payload.len() <= frame::MAX_FRM_PAYLOAD
            &&& frame.fcnt + (after.downlinks.len() - i) == after.fcnt_down
        } by {
            if i < server.downlinks.len() {
                let frame = server.downlinks[i];
                assert(after.downlinks[i] == (FrameView { ack: after.downlinks[i].ack, ..frame }));
            }
        }
    }
    let queued = server.queueing(server.downlink_frame(port, bytes));
    if server.fcnt_down < u32::MAX && bytes.len() <= frame::MAX_FRM_PAYLOAD {
        assert forall|i: int| 0 <= i < queued.downlinks.len() implies {
            let frame = #[trigger] queued.downlinks[i];
            &&& frame.mtype == MType::UnconfirmedDown
            &&& frame.dev_addr == queued.dev_addr
            &&& frame.payload.len() <= frame::MAX_FRM_PAYLOAD
            &&& frame.fcnt + (queued.downlinks.len() - i) == queued.fcnt_down
        } by {
            if i < server.downlinks.len() {
                assert(queued.downlinks[i] == server.downlinks[i]);
            }
        }
    }
    let sent = server.sending_next();
    if server.downlinks.len() > 0 {
        assert forall|i: int| 0 <= i < sent.downlinks.len() implies {
            let frame = #[trigger] sent.downlinks[i];
            &&& frame.mtype == MType::UnconfirmedDown
            &&& frame.dev_addr == sent.dev_addr
            &&& frame.payload.len() <= frame::MAX_FRM_PAYLOAD
            &&& frame.fcnt + (sent.downlinks.len() - i) == sent.fcnt_down
        } by {
            assert(sent.downlinks[i] == server.downlinks[i + 1]);
        }
    }
}

impl ServerView {
    /// The frame up that carries `part` under the counter after the last.
    pub open spec fn next_up(self, mtype: MType, part: Part) -> FrameView {
        FrameView {
            mtype,
            dev_addr: self.dev_addr,
            ack: false,
            fcnt: counter_after(self.fcnt_up) as u32,
            port: part.0,
            payload: part.1,
        }
    }

    /// The server once the first `n` of `parts` came in as uplinks, each under the
    /// counter after the one before and with its own message type.
    pub open spec fn with_uplinks(self, mtypes: Seq<MType>, parts: Seq<Part>, n: nat) -> ServerView
        decreases n,
    {
        if n == 0 {
            self
        } else {
            let before = self.with_uplinks(mtypes, parts, (n - 1) as nat);
            before.uplinked(before.next_up(mtypes[n - 1], parts[n - 1]).sealed(self.keys))
        }
    }
}

/// A stream uplinked part after part, confirmed or not, arrives whole behind those
/// that came before, as long as there are counters for its frames and their ACKs.
pub proof fn uplinked_stream_arrives_whole(server: ServerView, mtypes: Seq<MType>, bytes: Seq<u8>)
    requires
        mtypes.len() == frame::stream_parts(bytes).len(),
        forall|i: int| 0 <= i < mtypes.len() ==> (#[trigger] mtypes[i]).goes_up(),
        counter_after(server.fcnt_up) + mtypes.len() <= 0x1_0000_0000,
        server.fcnt_down + mtypes.len() <= u32::MAX,
    ensures
        ({
            let after = server.with_uplinks(
                mtypes,
                frame::stream_parts(bytes),
                frame::stream_parts(bytes).len(),
            );
            &&& after.complete == server.with_stream(bytes).complete
            &&& after.arriving == server.with_stream(bytes).arriving
            &&& after.complete == server.complete.push(
                (
                    if bytes.len() <= 222 {
                        1u8
                    } else {
                        2u8
                    },
                    bytes,
                ),
            )
            &&& counter_after(after.fcnt_up) == counter_after(server.fcnt_up) + mtypes.len()
        }),
{
    lemma_uplinks_are_taken(server, mtypes, bytes, frame::stream_parts(bytes).len());
    parts_come_back_together(server, bytes);
}

/// The first `n` parts of a stream are taken as they come.
proof fn lemma_uplinks_are_taken(
    server: ServerView,
    mtypes: Seq<MType>,
    bytes: Seq<u8>,
    n: nat,
)
    requires
        n <= mtypes.len() == frame::stream_parts(bytes).len(),
        forall|i: int| 0 <= i < mtypes.len() ==> (#[trigger] mtypes[i]).goes_up(),
        counter_after(server.fcnt_up) + mtypes.len() <= 0x1_0000_0000,
        server.fcnt_down + mtypes.len() <= u32::MAX,
    ensures
        ({
            let after = server.with_uplinks(mtypes, frame::stream_parts(bytes), n);
            let parts = server.with_parts(frame::stream_parts(bytes), n);
            &&& after.complete == parts.complete
            &&& after.arriving == parts.arriving
            &&& counter_after(after.fcnt_up) == counter_after(server.fcnt_up) + n
            &&& after.fcnt_down <= server.fcnt_down + n
            &&& after.dev_addr == server.dev_addr
            &&& after.keys == server.keys
        }),
    decreases n,
{
    if n > 0 {
        let parts = frame::stream_parts(bytes);
        lemma_uplinks_are_taken(server, mtypes, bytes, (n - 1) as nat);
        frame::every_part_fits_a_frame(bytes, n - 1);
        let before = server.with_uplinks(mtypes, parts, (n - 1) as nat);
        let frame = before.next_up(mtypes[n - 1], parts[n - 1]);
        assert(mtypes[n - 1].goes_up());
        assert(frame.counter_high() == high_after(before.fcnt_up));
        sealed_uplink_is_accepted(before, frame);
    }
}

/// An uplink that is refused changes nothing: every later call answers as if it
/// had not come.
pub proof fn refused_uplink_changes_nothing(server: ServerView, bytes: Seq<u8>)
    requires
        server.accepted(bytes) is Err,
    ensures
        server.uplinked(bytes) == server,
{
}

/// Past the last counter there is none to advance to, and every uplink is
/// refused for its counter.
pub proof fn last_counter_is_the_last(server: ServerView, bytes: Seq<u8>)
    requires
        server.fcnt_up == Some(u32::MAX),
    ensures
        server.accepted(bytes) == Err::<FrameView, Error>(Error::Counter),
        server.uplinked(bytes) == server,
{
}

/// A fragment that is not the first of its stream, while none is under way,
/// completes nothing and is not kept.
pub proof fn stray_fragment_is_not_kept(server: ServerView, payload: Seq<u8>)
    requires
        payload.len() > 0,
        payload[0] & frame::FIRST == 0,
        server.arriving is None,
    ensures
        server.with_part((frame::PORT_FRAGMENT, payload)) == server,
{
}

/// An uplink that is accepted carries a counter past the last one accepted,
/// and that counter is then the last.
pub proof fn accepted_counter_advances(server: ServerView, bytes: Seq<u8>)
    requires
        server.accepted(bytes) is Ok,
    ensures
        server.accepted(bytes)->Ok_0.fcnt >= counter_after(server.fcnt_up),
        server.uplinked(bytes).fcnt_up == Some(server.accepted(bytes)->Ok_0.fcnt),
{
}

/// An uplink that was accepted is refused when it comes again. Only past the
/// last counter of its high sixteen bits do the same bytes name another
/// counter, and a MIC that checks for both.
pub proof fn replay_is_refused(server: ServerView, bytes: Seq<u8>)
    requires
        server.accepted(bytes) is Ok,
    ensures
        ({
            let frame = server.accepted(bytes)->Ok_0;
            let after = server.uplinked(bytes);
            &&& frame.fcnt % 0x1_0000 != 0xffff ==> after.accepted(bytes) == Err::<FrameView, Error>(
                Error::Counter,
            )
            &&& match after.accepted(bytes) {
                Ok(again) => {
                    let body = bytes.take(bytes.len() - 4);
                    &&& again.fcnt == frame.fcnt + 0x1_0000
                    &&& frame.mic(server.keys, body) == again.mic(server.keys, body)
                },
                Err(_) => after.uplinked(bytes) == after,
            }
        }),
{
    let frame = server.accepted(bytes)->Ok_0;
    let after = server.uplinked(bytes);
    let high = high_after(server.fcnt_up);
    let body = bytes.take(bytes.len() - 4);
    let low = body.subrange(6, 8);
    frame::lemma_full_counter(high, low);
    assert(frame.fcnt / 0x1_0000 == high);
    let next = counter_after(Some(frame.fcnt)) / 0x1_0000;
    if frame.fcnt % 0x1_0000 != 0xffff {
        assert(next == high);
    } else {
        assert(next == high + 1);
        if after.accepted(bytes) is Ok {
            let again = after.accepted(bytes)->Ok_0;
            frame::lemma_full_counter(high_after(after.fcnt_up), low);
            let first = frame::header_of(body, frame.mtype, high);
            let second = frame::header_of(body, frame.mtype, high_after(after.fcnt_up));
            assert(frame.mic(server.keys, body) == first.mic(server.keys, body));
            assert(again.mic(server.keys, body) == second.mic(server.keys, body));
        }
    }
}

/// A frame up that was sealed for this server, in its turn and on a port that
/// is listened on, is accepted as it was.
pub proof fn sealed_uplink_is_accepted(server: ServerView, frame: FrameView)
    requires
        frame.dev_addr == server.dev_addr,
        frame.mtype.goes_up(),
        frame.fcnt >= counter_after(server.fcnt_up),
        frame.counter_high() == high_after(server.fcnt_up),
        frame.port == frame::PORT_STREAM || (frame.port == frame::PORT_FRAGMENT
            && frame.payload.len() > 0),
        server.owes_bare_ack(frame) ==> server.fcnt_down < u32::MAX,
    ensures
        server.accepted(frame.sealed(server.keys)) == Ok::<FrameView, Error>(frame),
{
    frame::sealed_frame_opens(frame, server.keys);
}

/// A confirmed uplink that is accepted is acknowledged by the next downlink:
/// the first one queued where there is one, else a bare one of its own. No
/// other downlink changes.
pub proof fn confirmed_uplink_is_acknowledged(server: ServerView, bytes: Seq<u8>)
    requires
        server.accepted(bytes) is Ok,
        server.accepted(bytes)->Ok_0.mtype.asks_ack(),
    ensures
        server.uplinked(bytes).downlinks.len() == (if server.downlinks.len() > 0 {
            server.downlinks.len()
        } else {
            1
        }),
        server.uplinked(bytes).downlinks[0] == (FrameView {
            ack: true,
            ..if server.downlinks.len() > 0 {
                server.downlinks[0]
            } else {
                server.downlink_frame(0, seq![])
            }
        }),
        server.uplinked(bytes).downlinks.skip(1) == server.downlinks.skip(
            if server.downlinks.len() > 0 {
                1
            } else {
                0
            },
        ),
{
    let after = server.uplinked(bytes);
    if server.downlinks.len() > 0 {
        assert(after.downlinks.skip(1) =~= server.downlinks.skip(1));
    } else {
        assert(after.downlinks.skip(1) =~= server.downlinks.skip(0));
    }
}

/// An unconfirmed uplink that is accepted queues nothing.
pub proof fn unconfirmed_uplink_is_not_acknowledged(server: ServerView, bytes: Seq<u8>)
    requires
        server.accepted(bytes) is Ok,
        !server.accepted(bytes)->Ok_0.mtype.asks_ack(),
    ensures
        server.uplinked(bytes).downlinks == server.downlinks,
        server.uplinked(bytes).fcnt_down == server.fcnt_down,
{
}

/// The counter that follows the last, and the high half of it.
pub proof fn counters_follow_the_last(last: u32)
    ensures
        counter_after(None) == 0,
        counter_after(Some(last)) == last + 1,
        high_after(None) == 0,
        last < u32::MAX ==> high_after(Some(last)) == (last + 1) / 0x1_0000,
{
}

/// Frames and what is stated of them are the same, one for one.
pub proof fn frames_are_their_fields(frames: Seq<Frame>, i: int)
    requires
        0 <= i < frames.len(),
    ensures
        frames_of(frames).len() == frames.len(),
        frames_of(frames)[i] == frames[i]@,
{
}

/// How an uplink is judged: it is refused for the first reason against it that
/// holds, and taken as the frame it opens to where none does. The counter may be
/// any past the last, the next one or one further on.
pub proof fn uplink_is_judged(server: ServerView, bytes: Seq<u8>)
    ensures
        ({
            let expected = match server.fcnt_up {
                Some(last) => last + 1,
                None => 0,
            };
            let read = frame::opened(bytes, server.keys, (expected / 0x1_0000) as u16);
            match server.accepted(bytes) {
                Err(error) => if expected > u32::MAX {
                    error == Error::Counter
                } else if read is Err {
                    error == read->Err_0
                } else {
                    let frame = read->Ok_0;
                    if frame.dev_addr != server.dev_addr {
                        error == Error::OtherDevice
                    } else if frame.mtype is UnconfirmedDown || frame.mtype is ConfirmedDown {
                        error == Error::WrongWay
                    } else if frame.fcnt < expected {
                        error == Error::Counter
                    } else if frame.port != 1 && frame.port != 2 {
                        error == Error::Port(frame.port)
                    } else if frame.port == 2 && frame.payload.len() == 0 {
                        error == Error::NoFlags
                    } else {
                        &&& error == Error::Spent
                        &&& frame.mtype is ConfirmedUp
                        &&& server.downlinks.len() == 0
                        &&& server.fcnt_down == u32::MAX
                    }
                },
                Ok(frame) => {
                    &&& expected <= u32::MAX
                    &&& read == Ok::<FrameView, Error>(frame)
                    &&& frame.dev_addr == server.dev_addr
                    &&& frame.mtype is UnconfirmedUp || frame.mtype is ConfirmedUp
                    &&& frame.fcnt >= expected
                    &&& frame.port == 1 || (frame.port == 2 && frame.payload.len() > 0)
                    &&& frame.mtype is ConfirmedUp && server.downlinks.len() == 0 ==> server.fcnt_down
                        < u32::MAX
                },
            }
        }),
{
}

/// Whatever uplink is accepted is taken in: its counter is the last, a stream
/// stands behind those held, a fragment joins the stream under way, and nothing
/// else of the server changes but for the ACK of a confirmed one.
pub proof fn accepted_uplink_is_taken_in(server: ServerView, bytes: Seq<u8>)
    requires
        server.accepted(bytes) is Ok,
    ensures
        ({
            let frame = server.accepted(bytes)->Ok_0;
            let after = server.uplinked(bytes);
            let first = frame.payload[0] & 0x40 != 0;
            let last = frame.payload[0] & 0x80 != 0;
            let rest = frame.payload.skip(1);
            &&& after.dev_addr == server.dev_addr
            &&& after.keys == server.keys
            &&& after.fcnt_up == Some(frame.fcnt)
            &&& frame.port == 1 || frame.port == 2
            &&& frame.port == 1 ==> after.complete == server.complete.push((1u8, frame.payload))
                && after.arriving == server.arriving
            &&& frame.port == 2 && !first && server.arriving is None ==> after.complete
                == server.complete && after.arriving is None
            &&& frame.port == 2 && first && !last ==> after.complete == server.complete
                && after.arriving == Some(rest)
            &&& frame.port == 2 && first && last ==> after.complete == server.complete.push(
                (2u8, rest),
            ) && after.arriving is None
            &&& frame.port == 2 && !first && server.arriving is Some && !last ==> after.complete
                == server.complete && after.arriving == Some(server.arriving->0 + rest)
            &&& frame.port == 2 && !first && server.arriving is Some && last ==> after.complete
                == server.complete.push((2u8, server.arriving->0 + rest)) && after.arriving is None
            &&& frame.mtype is UnconfirmedUp ==> after.downlinks == server.downlinks
                && after.fcnt_down == server.fcnt_down
            &&& frame.mtype is ConfirmedUp && server.downlinks.len() > 0 ==> {
                &&& after.fcnt_down == server.fcnt_down
                &&& after.downlinks.len() == server.downlinks.len()
                &&& after.downlinks[0] == (FrameView { ack: true, ..server.downlinks[0] })
                &&& forall|i: int|
                    1 <= i < server.downlinks.len() ==> #[trigger] after.downlinks[i]
                        == server.downlinks[i]
            }
            &&& frame.mtype is ConfirmedUp && server.downlinks.len() == 0 ==> {
                &&& after.fcnt_down == server.fcnt_down + 1
                &&& after.downlinks.len() == 1
                &&& after.downlinks[0].mtype is UnconfirmedDown
                &&& after.downlinks[0].dev_addr == server.dev_addr
                &&& after.downlinks[0].ack
                &&& after.downlinks[0].fcnt == server.fcnt_down
                &&& after.downlinks[0].port == 0
                &&& after.downlinks[0].payload.len() == 0
            }
        }),
{
    let frame = server.accepted(bytes)->Ok_0;
    assert(Seq::<u8>::empty() + frame.payload.skip(1) =~= frame.payload.skip(1));
}

/// A stream that fits one frame is held whole once its uplink was accepted,
/// however many counters were lost on the air before it.
pub proof fn late_uplink_is_held(
    server: ServerView,
    mtype: MType,
    fcnt: u32,
    payload: Seq<u8>,
)
    requires
        mtype is UnconfirmedUp || mtype is ConfirmedUp,
        fcnt >= counter_after(server.fcnt_up),
        fcnt / 0x1_0000 == counter_after(server.fcnt_up) / 0x1_0000,
        server.fcnt_down < u32::MAX,
    ensures
        ({
            let frame = FrameView {
                mtype,
                dev_addr: server.dev_addr,
                ack: false,
                fcnt,
                port: 1,
                payload,
            };
            let bytes = frame.sealed(server.keys);
            &&& server.accepted(bytes) == Ok::<FrameView, Error>(frame)
            &&& server.uplinked(bytes).complete == server.complete.push((1u8, payload))
            &&& server.uplinked(bytes).arriving == server.arriving
            &&& server.uplinked(bytes).fcnt_up == Some(fcnt)
        }),
{
    let frame = FrameView {
        mtype,
        dev_addr: server.dev_addr,
        ack: false,
        fcnt,
        port: 1,
        payload,
    };
    sealed_uplink_is_accepted(server, frame);
    accepted_uplink_is_taken_in(server, frame.sealed(server.keys));
}

/// A downlink is queued behind the others as it was given, under the next
/// counter, unconfirmed and without an ACK; and handed out in its turn.
pub proof fn downlink_is_queued_whole(server: ServerView, port: u8, payload: Seq<u8>)
    requires
        server.fcnt_down < u32::MAX,
    ensures
        ({
            let after = server.queueing(server.downlink_frame(port, payload));
            let n = server.downlinks.len() as int;
            &&& after.downlinks.len() == n + 1
            &&& forall|i: int| 0 <= i < n ==> #[trigger] after.downlinks[i] == server.downlinks[i]
            &&& after.downlinks[n].port == port
            &&& after.downlinks[n].payload == payload
            &&& after.downlinks[n].mtype is UnconfirmedDown
            &&& after.downlinks[n].dev_addr == server.dev_addr
            &&& after.downlinks[n].fcnt == server.fcnt_down
            &&& !after.downlinks[n].ack
            &&& after.fcnt_down == server.fcnt_down + 1
            &&& after.dev_addr == server.dev_addr && after.keys == server.keys
            &&& after.fcnt_up == server.fcnt_up
            &&& after.arriving == server.arriving && after.complete == server.complete
        }),
{
}

/// A queued downlink, once it is the next, opens at the device to the bytes and
/// the port that it was queued with.
pub proof fn queued_downlink_opens(server: ServerView, port: u8, payload: Seq<u8>)
    requires
        server.downlinks.len() == 0,
        server.fcnt_down < u32::MAX,
    ensures
        ({
            let queued = server.queueing(server.downlink_frame(port, payload));
            let opened = frame::opened(
                queued.downlinks[0].sealed(server.keys),
                server.keys,
                (server.fcnt_down / 0x1_0000) as u16,
            );
            &&& opened is Ok
            &&& opened->Ok_0.port == port
            &&& opened->Ok_0.payload == payload
            &&& opened->Ok_0.dev_addr == server.dev_addr
            &&& opened->Ok_0.fcnt == server.fcnt_down
            &&& !opened->Ok_0.ack
            &&& opened->Ok_0.mtype is UnconfirmedDown
        }),
{
    let queued = server.queueing(server.downlink_frame(port, payload));
    frame::sealed_frame_opens(queued.downlinks[0], server.keys);
}

/// Taking the oldest stream, or sending the next downlink, leaves the others in
/// their order and changes nothing else.
pub proof fn oldest_goes_first(server: ServerView, i: int)
    ensures
        server.complete.len() > 0 ==> {
            let after = server.giving_next();
            &&& after.complete.len() == server.complete.len() - 1
            &&& 0 <= i < after.complete.len() ==> after.complete[i] == server.complete[i + 1]
            &&& after == (ServerView { complete: after.complete, ..server })
        },
        server.downlinks.len() > 0 ==> {
            let after = server.sending_next();
            &&& after.downlinks.len() == server.downlinks.len() - 1
            &&& 0 <= i < after.downlinks.len() ==> after.downlinks[i] == server.downlinks[i + 1]
            &&& after == (ServerView { downlinks: after.downlinks, ..server })
        },
{
}

/// Of orderly downlinks each is unconfirmed, for the server's device, no longer
/// than a frame carries, and one counter past the one before it.
pub proof fn orderly_downlinks_count_on(server: ServerView, i: int)
    requires
        server.is_orderly(),
        0 <= i < server.downlinks.len(),
    ensures
        server.downlinks[i].mtype is UnconfirmedDown,
        server.downlinks[i].dev_addr == server.dev_addr,
        server.downlinks[i].payload.len() <= 222,
        i + 1 < server.downlinks.len() ==> server.downlinks[i + 1].fcnt == server.downlinks[i].fcnt
            + 1,
        i + 1 == server.downlinks.len() ==> server.fcnt_down == server.downlinks[i].fcnt + 1,
{
}

/// A part uplinked in its turn is the next frame up, with the part's port and
/// bytes.
pub proof fn parts_come_up_in_turn(server: ServerView, mtypes: Seq<MType>, parts: Seq<Part>, n: nat)
    ensures
        server.with_uplinks(mtypes, parts, 0) == server,
        server.with_parts(parts, 0) == server,
        n >= 1 ==> {
            let before = server.with_uplinks(mtypes, parts, (n - 1) as nat);
            server.with_uplinks(mtypes, parts, n) == before.uplinked(
                (FrameView {
                    mtype: mtypes[n - 1],
                    dev_addr: before.dev_addr,
                    ack: false,
                    fcnt: counter_after(before.fcnt_up) as u32,
                    port: parts[n - 1].0,
                    payload: parts[n - 1].1,
                }).sealed(server.keys),
            )
        },
        n >= 1 && parts[n - 1].0 == 1 ==> server.with_parts(parts, n).complete == server.with_parts(
            parts,
            (n - 1) as nat,
        ).complete.push((1u8, parts[n - 1].1)),
{
}

} // verus!
