//! A device and its network server in step, on a radio that holds the server:
//! what the device sends arrives whole, and what the server queues comes down.

use vstd::prelude::*;

use crate::device::DeviceView;
use crate::error::Error;
use crate::error::Result;
use crate::frame;
use crate::frame::FrameView;
use crate::frame::Part;
use crate::radio::LoopbackRadio;
use crate::radio::Radio;
use crate::server;
use crate::server::ServerView;
use crate::text;
use crate::transport;
use crate::transport::ArrivedView;
use crate::transport::LinkView;

verus! {

/// Whether a session and its server agree: the same address and keys, the
/// counter of the next frame up that the server expects, and downlinks queued
/// under the counters that the session expects next.
pub open spec fn agree(device: DeviceView, server: ServerView) -> bool {
    let next = server::counter_after(device.fcnt_down);
    &&& device.dev_addr == server.dev_addr
    &&& device.keys == server.keys
    &&& device.fcnt_up == server::counter_after(server.fcnt_up)
    &&& server.fcnt_down == next + server.downlinks.len()
    &&& forall|i: int|
        0 <= i < server.downlinks.len() ==> (#[trigger] server.downlinks[i]).fcnt == next + i
    &&& forall|i: int|
        0 <= i < server.downlinks.len() ==> (#[trigger] server.downlinks[i]).dev_addr
            == device.dev_addr && !server.downlinks[i].mtype.goes_up()
}

impl LinkView<LoopbackRadio> {
    /// Whether the device and the server inside its radio are in step: they
    /// agree, and no frame is held that is a bare ACK.
    pub open spec fn in_step(self) -> bool {
        agree(self.device, self.radio@) && self.device.holds_streams()
    }

    /// Whether the server has counters for the ACKs of `n` frames up.
    pub open spec fn has_acks(self, n: nat) -> bool {
        self.confirmed ==> self.radio@.fcnt_down + n <= u32::MAX
    }

    /// The frames down that the device has yet to receive, the next first.
    pub open spec fn coming(self) -> Seq<FrameView> {
        self.device.held + self.radio@.downlinks
    }
}

/// A part that a server takes.
pub open spec fn is_carried(part: Part) -> bool {
    part.0 == frame::PORT_STREAM || (part.0 == frame::PORT_FRAGMENT && part.1.len() > 0)
}

/// A window on a loopback radio brings the next downlink, which the session in
/// agreement takes, and they agree on what is left.
proof fn lemma_window_brings_next(
    before: LinkView<LoopbackRadio>,
    outcome: Result<Option<FrameView>>,
    after: LinkView<LoopbackRadio>,
)
    requires
        agree(before.device, before.radio@),
        transport::listens(before, outcome, after),
    ensures
        agree(after.device, after.radio@),
        after.device.held == before.device.held,
        after.device.fcnt_up == before.device.fcnt_up,
        after.confirmed == before.confirmed,
        after.timeout == before.timeout,
        after.loopback == before.loopback,
        before.radio@.downlinks.len() > 0 ==> outcome == Ok::<Option<FrameView>, Error>(
            Some(before.radio@.downlinks[0]),
        ) && after.radio@ == before.radio@.sending_next(),
        before.radio@.downlinks.len() == 0 ==> outcome == Ok::<Option<FrameView>, Error>(None)
            && after.radio@ == before.radio@,
{
    reveal(transport::listens);
    let heard = choose|heard: Result<Option<Seq<u8>>>|
        {
            &&& #[trigger] LoopbackRadio::hears(
                before.radio,
                before.timeout,
                after.radio,
                heard,
            )
            &&& outcome == before.device.window_outcome(heard)
            &&& after == (LinkView {
                radio: after.radio,
                device: before.device.after_window(heard),
                ..before
            })
        };
    let server = before.radio@;
    if server.downlinks.len() > 0 {
        let first = server.downlinks[0];
        frame::sealed_frame_opens(first, server.keys);
        assert(first.counter_high() == server::high_after(before.device.fcnt_down));
        assert(before.device.taken_down(first.sealed(server.keys)) == Ok::<FrameView, Error>(first));
        let left = after.radio@;
        assert forall|i: int| 0 <= i < left.downlinks.len() implies (
        #[trigger] left.downlinks[i]).fcnt == server::counter_after(after.device.fcnt_down) + i
            && left.downlinks[i].dev_addr == after.device.dev_addr
            && !left.downlinks[i].mtype.goes_up() by {
            assert(left.downlinks[i] == server.downlinks[i + 1]);
        }
    }
}

/// A frame down that came with an ACK is held where it is a stream, so that the
/// streams yet to be received stay the same.
proof fn lemma_ack_moves_nothing(
    before: LinkView<LoopbackRadio>,
    first: FrameView,
    after: LinkView<LoopbackRadio>,
)
    requires
        before.radio@.downlinks.len() > 0 ==> first == (FrameView {
            ack: true,
            ..before.radio@.downlinks[0]
        }) && after.radio@.downlinks == before.radio@.downlinks.skip(1),
        before.radio@.downlinks.len() == 0 ==> first.is_bare() && after.radio@.downlinks.len() == 0,
        after.device.held == (if first.is_bare() {
            before.device.held
        } else {
            before.device.held.push(first)
        }),
    ensures
        streams_among(after.coming()) == streams_among(before.coming()),
{
    let held = before.device.held;
    lemma_streams_add(held, before.radio@.downlinks);
    lemma_streams_add(after.device.held, after.radio@.downlinks);
    if before.radio@.downlinks.len() > 0 {
        lemma_streams_first(before.radio@.downlinks);
        assert(stream_of(first) == stream_of(before.radio@.downlinks[0]));
        assert(held.push(first).drop_last() =~= held);
        assert(streams_among(after.device.held) =~= streams_among(held) + stream_of(first));
        assert(streams_among(after.coming()) =~= streams_among(before.coming()));
    } else {
        assert(after.coming() =~= before.coming());
    }
}

/// On a loopback in step, the frame that carries a part is accepted.
proof fn lemma_frame_is_accepted(
    before: LinkView<LoopbackRadio>,
    part: Part,
    radio: LoopbackRadio,
    outcome: Result<()>,
)
    requires
        before.in_step(),
        before.device.has_ups(1),
        before.has_acks(1),
        is_carried(part),
        LoopbackRadio::sends(
            before.radio,
            before.device.frame_up(before.confirmed, part).sealed(before.device.keys),
            radio,
            outcome,
        ),
    ensures
        outcome == Ok::<(), Error>(()),
        radio@ == before.radio@.taking(before.device.frame_up(before.confirmed, part)),
        agree(before.device.counting(), radio@),
        radio@.complete == before.radio@.with_part(part).complete,
        radio@.arriving == before.radio@.with_part(part).arriving,
{
    let frame = before.device.frame_up(before.confirmed, part);
    let server = before.radio@;
    assert(server::high_after(server.fcnt_up) == frame.counter_high());
    server::sealed_uplink_is_accepted(server, frame);
    let taken = ServerView { fcnt_up: Some(frame.fcnt), ..server.with_part(part) };
    assert(agree(before.device.counting(), taken));
    if before.confirmed {
        assert(radio@ == taken.acknowledging());
        lemma_acknowledging_agrees(before.device.counting(), taken);
    }
}

/// Owing the device an ACK leaves the two in agreement.
proof fn lemma_acknowledging_agrees(device: DeviceView, server: ServerView)
    requires
        agree(device, server),
        server.fcnt_down < u32::MAX,
    ensures
        agree(device, server.acknowledging()),
        server.acknowledging().downlinks.len() > 0,
        server.acknowledging().downlinks[0].ack,
{
    let after = server.acknowledging();
    assert forall|i: int| 0 <= i < after.downlinks.len() implies (
    #[trigger] after.downlinks[i]).fcnt == server::counter_after(device.fcnt_down) + i
        && after.downlinks[i].dev_addr == device.dev_addr
        && !after.downlinks[i].mtype.goes_up() by {
        if i < server.downlinks.len() {
            assert(after.downlinks[i].fcnt == server.downlinks[i].fcnt);
        }
    }
}

/// On a loopback in step, one part of a stream is taken by the server. The two
/// stay in step, and no stream down is lost to the ACK.
pub proof fn part_is_taken(
    before: LinkView<LoopbackRadio>,
    part: Part,
    after: LinkView<LoopbackRadio>,
    result: Result<()>,
)
    requires
        before.in_step(),
        before.device.has_ups(1),
        before.has_acks(1),
        is_carried(part),
        transport::sends_part(before, part, after, result),
    ensures
        result == Ok::<(), Error>(()),
        after.in_step(),
        after.radio@.complete == before.radio@.with_part(part).complete,
        after.radio@.arriving == before.radio@.with_part(part).arriving,
        after.device.fcnt_up == before.device.fcnt_up + 1,
        after.radio@.fcnt_down <= before.radio@.fcnt_down + 1,
        streams_among(after.coming()) == streams_among(before.coming()),
        after.device.dev_addr == before.device.dev_addr,
        after.confirmed == before.confirmed,
        after.timeout == before.timeout,
        after.loopback == before.loopback,
{
    reveal(transport::sends_part);
    let frame = before.device.frame_up(before.confirmed, part);
    let bytes = frame.sealed(before.device.keys);
    let (radio, outcome) = choose|radio: LoopbackRadio, outcome: Result<()>|
        {
            let up = LinkView { radio, device: before.device.counting(), ..before };
            &&& #[trigger] LoopbackRadio::sends(before.radio, bytes, radio, outcome)
            &&& if outcome is Err || !before.confirmed {
                result == outcome && after == up
            } else {
                exists|window: Result<Option<FrameView>>, down: LinkView<LoopbackRadio>|
                    {
                        &&& #[trigger] transport::listens(up, window, down)
                        &&& result == down.device.settlement(window)
                        &&& after == down.with_device(down.device.after_settlement(window))
                    }
            }
        };
    let up = LinkView { radio, device: before.device.counting(), ..before };
    lemma_frame_is_accepted(before, part, radio, outcome);
    if before.confirmed {
        let (window, down) = choose|
            window: Result<Option<FrameView>>,
            down: LinkView<LoopbackRadio>,
        |
            {
                &&& #[trigger] transport::listens(up, window, down)
                &&& result == down.device.settlement(window)
                &&& after == down.with_device(down.device.after_settlement(window))
            };
        lemma_acked_part_is_taken(before, frame, up, window, down);
    } else {
        assert(after.coming() =~= before.coming());
    }
}

/// The window after a confirmed frame brings its ACK.
proof fn lemma_acked_part_is_taken(
    before: LinkView<LoopbackRadio>,
    frame: FrameView,
    up: LinkView<LoopbackRadio>,
    window: Result<Option<FrameView>>,
    down: LinkView<LoopbackRadio>,
)
    requires
        before.in_step(),
        before.radio@.fcnt_down < u32::MAX,
        frame.mtype.asks_ack(),
        up == (LinkView { radio: up.radio, device: before.device.counting(), ..before }),
        up.radio@ == before.radio@.taking(frame),
        agree(up.device, up.radio@),
        transport::listens(up, window, down),
    ensures
        down.device.settlement(window) == Ok::<(), Error>(()),
        ({
            let after = down.with_device(down.device.after_settlement(window));
            &&& after.in_step()
            &&& after.radio@ == up.radio@.sending_next()
            &&& after.device.fcnt_up == up.device.fcnt_up
            &&& after.radio@.fcnt_down <= before.radio@.fcnt_down + 1
            &&& streams_among(after.coming()) == streams_among(before.coming())
            &&& after.device.dev_addr == before.device.dev_addr
            &&& after.confirmed == before.confirmed
            &&& after.timeout == before.timeout
            &&& after.loopback == before.loopback
        }),
{
    let after = down.with_device(down.device.after_settlement(window));
    let server = before.radio@;
    lemma_window_brings_next(up, window, down);
    let first = up.radio@.downlinks[0];
    assert(first.ack);
    assert(server.downlinks.len() > 0 ==> after.radio@.downlinks =~= server.downlinks.skip(1));
    lemma_ack_moves_nothing(before, first, after);
}

/// On a loopback in step, the first `n` parts of a stream are taken by the
/// server one after another.
proof fn lemma_parts_are_taken(
    before: LinkView<LoopbackRadio>,
    parts: Seq<Part>,
    n: nat,
    after: LinkView<LoopbackRadio>,
)
    requires
        before.in_step(),
        n <= parts.len(),
        before.device.has_ups(n),
        before.has_acks(n),
        forall|i: int| 0 <= i < parts.len() ==> is_carried(#[trigger] parts[i]),
        transport::sends_parts(before, parts, n, after),
    ensures
        after.in_step(),
        after.radio@.complete == before.radio@.with_parts(parts, n).complete,
        after.radio@.arriving == before.radio@.with_parts(parts, n).arriving,
        after.device.fcnt_up == before.device.fcnt_up + n,
        after.radio@.fcnt_down <= before.radio@.fcnt_down + n,
        streams_among(after.coming()) == streams_among(before.coming()),
        after.device.dev_addr == before.device.dev_addr,
        after.confirmed == before.confirmed,
        after.timeout == before.timeout,
        after.loopback == before.loopback,
    decreases n,
{
    if n > 0 {
        let part = parts[n - 1];
        let mid = choose|mid: LinkView<LoopbackRadio>|
            transport::sends_parts(before, parts, (n - 1) as nat, mid)
                && #[trigger] transport::sends_part(mid, part, after, Ok(()));
        lemma_parts_are_taken(before, parts, (n - 1) as nat, mid);
        part_is_taken(mid, part, after, Ok(()));
    }
}

/// On a loopback in step, every part of every stream is one that the server
/// takes.
proof fn lemma_parts_are_carried(bytes: Seq<u8>)
    ensures
        forall|i: int|
            0 <= i < frame::stream_parts(bytes).len() ==> is_carried(
                #[trigger] frame::stream_parts(bytes)[i],
            ),
{
    assert forall|i: int| 0 <= i < frame::stream_parts(bytes).len() implies is_carried(
        #[trigger] frame::stream_parts(bytes)[i],
    ) by {
        frame::every_part_fits_a_frame(bytes, i);
    }
}

/// A stream sent on a loopback in step arrives whole at the network server,
/// behind those that came before. The two stay in step, and no stream down is
/// lost to the ACKs.
pub proof fn stream_arrives_whole(
    before: LinkView<LoopbackRadio>,
    bytes: Seq<u8>,
    after: LinkView<LoopbackRadio>,
    result: Result<()>,
)
    requires
        before.in_step(),
        before.device.has_ups(frame::stream_parts(bytes).len()),
        before.has_acks(frame::stream_parts(bytes).len()),
        transport::sends_stream(before, bytes, after, result),
    ensures
        result is Ok,
        after.in_step(),
        after.radio@.complete == before.radio@.with_stream(bytes).complete,
        after.radio@.arriving == before.radio@.with_stream(bytes).arriving,
        after.device.fcnt_up == before.device.fcnt_up + frame::stream_parts(bytes).len(),
        after.radio@.fcnt_down <= before.radio@.fcnt_down + frame::stream_parts(bytes).len(),
        streams_among(after.coming()) == streams_among(before.coming()),
        after.device.dev_addr == before.device.dev_addr,
        after.confirmed == before.confirmed,
        after.timeout == before.timeout,
        after.loopback == before.loopback,
{
    reveal(transport::sends_stream);
    let parts = frame::stream_parts(bytes);
    lemma_parts_are_carried(bytes);
    server::parts_come_back_together(before.radio@, bytes);
    match result {
        Ok(_) => {
            lemma_parts_are_taken(before, parts, parts.len(), after);
        },
        Err(error) => {
            let (n, mid) = choose|n: nat, mid: LinkView<LoopbackRadio>|
                n < parts.len() && #[trigger] transport::sends_parts(before, parts, n, mid)
                    && transport::sends_part(mid, parts[n as int], after, Err(error));
            lemma_parts_are_taken(before, parts, n, mid);
            part_is_taken(mid, parts[n as int], after, Err(error));
        },
    }
}

// ---------------------------------------------------------------------------
// Frames down
// ---------------------------------------------------------------------------

/// The streams among frames down, in order: each that is more than a bare ACK,
/// with its ACK bit left out, which any of them may come to carry.
pub open spec fn streams_among(frames: Seq<FrameView>) -> Seq<FrameView>
    decreases frames.len(),
{
    if frames.len() == 0 {
        seq![]
    } else {
        streams_among(frames.drop_last()) + stream_of(frames.last())
    }
}

/// The stream that a frame down is, where it is more than a bare ACK.
pub open spec fn stream_of(frame: FrameView) -> Seq<FrameView> {
    if frame.is_bare() {
        seq![]
    } else {
        seq![FrameView { ack: false, ..frame }]
    }
}

/// The streams among frames and more frames are those among each.
proof fn lemma_streams_add(a: Seq<FrameView>, b: Seq<FrameView>)
    ensures
        streams_among(a + b) == streams_among(a) + streams_among(b),
    decreases b.len(),
{
    if b.len() == 0 {
        assert(a + b =~= a);
        assert(streams_among(a) + streams_among(b) =~= streams_among(a));
    } else {
        assert((a + b).drop_last() =~= a + b.drop_last());
        lemma_streams_add(a, b.drop_last());
        assert(streams_among(a + b) =~= streams_among(a) + streams_among(b));
    }
}

/// The first of some frames, and the streams among the others.
proof fn lemma_streams_first(frames: Seq<FrameView>)
    requires
        frames.len() > 0,
    ensures
        streams_among(frames) == stream_of(frames[0]) + streams_among(frames.skip(1)),
{
    let first = seq![frames[0]];
    assert(frames =~= first + frames.skip(1));
    lemma_streams_add(first, frames.skip(1));
    assert(first.drop_last() =~= seq![]);
    assert(streams_among(first.drop_last()) =~= seq![]);
    assert(streams_among(first) =~= stream_of(frames[0]));
}

/// A receive that passed over `n` bare ACKs took nothing else away.
proof fn lemma_hears_past_takes_one(
    before: LinkView<LoopbackRadio>,
    n: nat,
    outcome: Result<Option<FrameView>>,
    after: LinkView<LoopbackRadio>,
)
    requires
        before.in_step(),
        transport::hears_past(before, n, outcome, after),
    ensures
        after.in_step(),
        n > 0 || before.device.held.len() == 0 ==> after.device.held.len() == 0,
        match outcome {
            Ok(Some(frame)) => streams_among(before.coming()) == stream_of(frame) + streams_among(
                after.coming(),
            ),
            Ok(None) => streams_among(before.coming()) == Seq::<FrameView>::empty()
                && after.coming() == Seq::<FrameView>::empty(),
            Err(_) => false,
        },
        n == 0 && before.device.held.len() > 0 ==> outcome == Ok::<Option<FrameView>, Error>(
            Some(before.device.held[0]),
        ),
        after.device.dev_addr == before.device.dev_addr,
        after.confirmed == before.confirmed,
        after.timeout == before.timeout,
        after.loopback == before.loopback,
        after.radio@ == (ServerView { downlinks: after.radio@.downlinks, ..before.radio@ }),
    decreases n,
{
    if n > 0 {
        let (bare, mid) = choose|bare: FrameView, mid: LinkView<LoopbackRadio>|
            transport::hears_past(before, (n - 1) as nat, Ok(Some(bare)), mid)
                && #[trigger] bare.is_bare() && #[trigger] transport::listens(mid, outcome, after);
        lemma_hears_past_takes_one(before, (n - 1) as nat, Ok(Some(bare)), mid);
        assert(mid.device.held.len() == 0);
        assert(streams_among(before.coming()) =~= streams_among(mid.coming()));
        lemma_window_takes_one(mid, outcome, after);
    } else if before.device.held.len() > 0 {
        let held = before.device.held;
        assert(before.coming().skip(1) =~= after.coming());
        lemma_streams_first(before.coming());
        assert forall|i: int| 0 <= i < after.device.held.len() implies !(
        #[trigger] after.device.held[i]).is_bare() by {
            assert(after.device.held[i] == held[i + 1]);
        }
    } else {
        lemma_window_takes_one(before, outcome, after);
    }
}

/// On a loopback in step a receive passes over no more bare ACKs than there are
/// downlinks queued, so that it never has to give up.
pub proof fn receive_comes_to_an_end(
    before: LinkView<LoopbackRadio>,
    n: nat,
    frame: FrameView,
    after: LinkView<LoopbackRadio>,
)
    requires
        before.in_step(),
        transport::hears_past(before, n, Ok(Some(frame)), after),
    ensures
        after.radio@.downlinks.len() + n <= before.radio@.downlinks.len(),
        n <= u32::MAX,
    decreases n,
{
    if n > 0 {
        let outcome = Ok::<Option<FrameView>, Error>(Some(frame));
        let (bare, mid) = choose|bare: FrameView, mid: LinkView<LoopbackRadio>|
            transport::hears_past(before, (n - 1) as nat, Ok(Some(bare)), mid)
                && #[trigger] bare.is_bare() && #[trigger] transport::listens(mid, outcome, after);
        receive_comes_to_an_end(before, (n - 1) as nat, bare, mid);
        lemma_hears_past_takes_one(before, (n - 1) as nat, Ok(Some(bare)), mid);
        lemma_window_brings_next(mid, outcome, after);
    } else if before.device.held.len() == 0 {
        lemma_window_brings_next(before, Ok(Some(frame)), after);
    }
}

/// A window where no frame is held takes the next downlink away.
proof fn lemma_window_takes_one(
    before: LinkView<LoopbackRadio>,
    outcome: Result<Option<FrameView>>,
    after: LinkView<LoopbackRadio>,
)
    requires
        before.in_step(),
        before.device.held.len() == 0,
        transport::listens(before, outcome, after),
    ensures
        after.in_step(),
        after.device.held.len() == 0,
        match outcome {
            Ok(Some(frame)) => streams_among(before.coming()) == stream_of(frame) + streams_among(
                after.coming(),
            ),
            Ok(None) => streams_among(before.coming()) == Seq::<FrameView>::empty()
                && after.coming() == Seq::<FrameView>::empty(),
            Err(_) => false,
        },
        after.device.dev_addr == before.device.dev_addr,
        after.confirmed == before.confirmed,
        after.timeout == before.timeout,
        after.loopback == before.loopback,
        after.radio@ == (ServerView { downlinks: after.radio@.downlinks, ..before.radio@ }),
{
    lemma_window_brings_next(before, outcome, after);
    if before.radio@.downlinks.len() > 0 {
        assert(before.coming()[0] == before.radio@.downlinks[0]);
        assert(before.coming().skip(1) =~= after.coming());
        lemma_streams_first(before.coming());
    } else {
        assert(before.coming() =~= seq![]);
        assert(after.coming() =~= seq![]);
    }
}

/// On a loopback in step, a receive brings the oldest stream down that the
/// device has yet to receive, and leaves the others; where there is none it
/// brings nothing, and that is no error. The two stay in step.
pub proof fn oldest_stream_down_is_received(
    before: LinkView<LoopbackRadio>,
    outcome: Result<Option<FrameView>>,
    after: LinkView<LoopbackRadio>,
)
    requires
        before.in_step(),
        transport::receives(before, outcome, after),
    ensures
        after.in_step(),
        match outcome {
            Ok(Some(frame)) => {
                &&& streams_among(before.coming()).len() > 0
                &&& streams_among(before.coming())[0] == (FrameView { ack: false, ..frame })
                &&& streams_among(after.coming()) == streams_among(before.coming()).skip(1)
            },
            Ok(None) => streams_among(before.coming()).len() == 0 && after.coming().len() == 0,
            Err(_) => false,
        },
        after.radio@ == (ServerView { downlinks: after.radio@.downlinks, ..before.radio@ }),
        after.device.dev_addr == before.device.dev_addr,
{
    reveal(transport::receives);
    let n = choose|n: nat| #[trigger] transport::hears_past(before, n, outcome, after);
    lemma_hears_past_takes_one(before, n, outcome, after);
    if let Ok(Some(frame)) = outcome {
        assert(streams_among(after.coming()) =~= streams_among(before.coming()).skip(1));
    }
}

/// On a loopback in step, a receive gives its caller the oldest stream down that
/// the device has yet to receive, and nothing where there is none.
pub proof fn stream_down_is_received(
    before: LinkView<LoopbackRadio>,
    arrived: Result<Option<ArrivedView>>,
    after: LinkView<LoopbackRadio>,
)
    requires
        before.in_step(),
        transport::received(before, arrived, after),
    ensures
        after.in_step(),
        arrived is Ok,
        arrived->Ok_0 is Some <==> streams_among(before.coming()).len() > 0,
        arrived->Ok_0 is Some ==> {
            let frame = streams_among(before.coming())[0];
            &&& arrived->Ok_0->0 == (ArrivedView {
                origin_uri: transport::origin_of("loopback"@, before.device.dev_addr) + "?port="@
                    + text::decimal(frame.port as nat) + "&fcnt="@ + text::decimal(
                    frame.fcnt as nat,
                ),
                bytes: frame.payload,
            })
            &&& streams_among(after.coming()) == streams_among(before.coming()).skip(1)
        },
        arrived->Ok_0 is None ==> after.coming().len() == 0,
        after.radio@ == (ServerView { downlinks: after.radio@.downlinks, ..before.radio@ }),
{
    if transport::gives_up(before, after) {
        let bare = choose|bare: FrameView| #[trigger]
            bare.is_bare() && transport::hears_past(before, u64::MAX as nat, Ok(Some(bare)), after);
        receive_comes_to_an_end(before, u64::MAX as nat, bare, after);
    } else {
        let outcome = choose|outcome: Result<Option<FrameView>>| #[trigger]
            transport::receives(before, outcome, after) && transport::arrives(
                after,
                outcome,
                arrived,
            );
        oldest_stream_down_is_received(before, outcome, after);
    }
}

/// A downlink queued on a loopback in step is, behind those that came before,
/// a stream that the device has yet to receive, unless it carries nothing on
/// port zero. The two stay in step.
pub proof fn queued_downlink_is_coming(
    before: LinkView<LoopbackRadio>,
    port: u8,
    payload: Seq<u8>,
    after: LinkView<LoopbackRadio>,
)
    requires
        before.in_step(),
        before.radio@.fcnt_down < u32::MAX,
        after.radio@ == before.radio@.queueing(before.radio@.downlink_frame(port, payload)),
        after.device == before.device,
    ensures
        after.in_step(),
        streams_among(after.coming()) == streams_among(before.coming()) + stream_of(
            before.radio@.downlink_frame(port, payload),
        ),
{
    let frame = before.radio@.downlink_frame(port, payload);
    assert(after.coming().drop_last() =~= before.coming());
    assert(after.coming().last() == frame);
}

/// What it is for a device and its server to agree, and for a link to be in step.
pub proof fn agreement_is_of_counters(link: LinkView<LoopbackRadio>)
    ensures
        link.in_step() <==> {
            let device = link.device;
            let server = link.radio@;
            let next = match device.fcnt_down {
                Some(last) => last + 1,
                None => 0,
            };
            &&& device.dev_addr == server.dev_addr
            &&& device.keys == server.keys
            &&& device.fcnt_up == (match server.fcnt_up {
                Some(last) => last + 1,
                None => 0,
            })
            &&& server.fcnt_down == next + server.downlinks.len()
            &&& forall|i: int|
                0 <= i < server.downlinks.len() ==> (#[trigger] server.downlinks[i]).fcnt == next + i
                    && server.downlinks[i].dev_addr == device.dev_addr && (
                server.downlinks[i].mtype is UnconfirmedDown
                    || server.downlinks[i].mtype is ConfirmedDown)
            &&& forall|i: int|
                0 <= i < device.held.len() ==> (#[trigger] device.held[i]).port != 0
                    || device.held[i].payload.len() > 0
        },
        link.confirmed ==> (forall|n: nat| #[trigger]
            link.has_acks(n) <==> link.radio@.fcnt_down + n <= u32::MAX),
        !link.confirmed ==> (forall|n: nat| #[trigger] link.has_acks(n)),
        link.coming() == link.device.held + link.radio@.downlinks,
{
    let device = link.device;
    let server = link.radio@;
    assert(device.holds_streams() <==> forall|i: int|
        0 <= i < device.held.len() ==> (#[trigger] device.held[i]).port != 0
            || device.held[i].payload.len() > 0) by {
        if device.holds_streams() {
            assert forall|i: int| 0 <= i < device.held.len() implies (#[trigger] device.held[i]).port
                != 0 || device.held[i].payload.len() > 0 by {
                assert(!device.held[i].is_bare());
            }
        }
    }
}

/// The streams among frames, one frame after another: each that has a port or a
/// payload, as it is but for its ACK bit.
pub proof fn streams_are_what_has_port_or_payload(frames: Seq<FrameView>, frame: FrameView)
    ensures
        streams_among(Seq::<FrameView>::empty()).len() == 0,
        frame.port == 0 && frame.payload.len() == 0 ==> streams_among(frames.push(frame))
            == streams_among(frames),
        frame.port != 0 || frame.payload.len() > 0 ==> streams_among(frames.push(frame))
            == streams_among(frames).push(FrameView { ack: false, ..frame }),
{
    assert(frames.push(frame).drop_last() =~= frames);
    assert(streams_among(frames.push(frame)) =~= streams_among(frames) + stream_of(frame));
    assert(streams_among(frames) + stream_of(frame) =~= (if frame.is_bare() {
        streams_among(frames)
    } else {
        streams_among(frames).push(FrameView { ack: false, ..frame })
    }));
}

/// A part that a server takes is a stream, or a fragment with its flags.
pub proof fn carried_parts_have_ports(part: Part)
    ensures
        is_carried(part) <==> part.0 == 1 || (part.0 == 2 && part.1.len() > 0),
{
}

/// A stream sent on a loopback in step stands at the server, byte for byte, behind
/// those that came before, on the first port where it fits a frame and else on
/// the second; and the session counted its frames.
pub proof fn stream_stands_at_the_server(
    before: LinkView<LoopbackRadio>,
    bytes: Seq<u8>,
    after: LinkView<LoopbackRadio>,
    result: Result<()>,
)
    requires
        before.in_step(),
        before.device.fcnt_up + frame::stream_parts(bytes).len() <= u32::MAX,
        before.confirmed ==> before.radio@.fcnt_down + frame::stream_parts(bytes).len() <= u32::MAX,
        transport::sends_stream(before, bytes, after, result),
    ensures
        result is Ok,
        after.radio@.complete.len() == before.radio@.complete.len() + 1,
        after.radio@.complete.drop_last() == before.radio@.complete,
        after.radio@.complete.last().1 == bytes,
        after.radio@.complete.last().0 == (if bytes.len() <= 222 {
            1u8
        } else {
            2u8
        }),
        after.device.fcnt_up == before.device.fcnt_up + frame::stream_parts(bytes).len(),
{
    stream_arrives_whole(before, bytes, after, result);
    assert(after.radio@.complete.drop_last() =~= before.radio@.complete);
}

/// A downlink queued on a loopback in step with nothing else coming is what the
/// next receive gives: exactly its bytes, with its port and its counter.
pub proof fn queued_downlink_is_received(
    before: LinkView<LoopbackRadio>,
    port: u8,
    payload: Seq<u8>,
    queued: LinkView<LoopbackRadio>,
    arrived: Result<Option<ArrivedView>>,
    after: LinkView<LoopbackRadio>,
)
    requires
        before.in_step(),
        before.device.held.len() == 0,
        before.radio@.downlinks.len() == 0,
        before.radio@.fcnt_down < u32::MAX,
        port != 0 || payload.len() > 0,
        queued.radio@ == before.radio@.queueing(before.radio@.downlink_frame(port, payload)),
        queued.device == before.device,
        transport::received(queued, arrived, after),
    ensures
        arrived is Ok && arrived->Ok_0 is Some,
        arrived->Ok_0->0.bytes == payload,
        arrived->Ok_0->0.origin_uri == "lorawan://"@ + "loopback"@ + "/"@ + text::hexadecimal(
            before.device.dev_addr as nat,
            8,
        ) + "?port="@ + text::decimal(port as nat) + "&fcnt="@ + text::decimal(
            before.radio@.fcnt_down as nat,
        ),
        after.in_step(),
        after.coming().len() == 0 || streams_among(after.coming()).len() == 0,
{
    let frame = before.radio@.downlink_frame(port, payload);
    queued_downlink_is_coming(before, port, payload, queued);
    assert(before.coming() =~= seq![]);
    assert(streams_among(before.coming()) =~= seq![]);
    assert(streams_among(queued.coming()) =~= seq![frame]);
    stream_down_is_received(queued, arrived, after);
}

} // verus!
