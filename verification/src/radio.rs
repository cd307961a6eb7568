//! Where frames go and come from: the air as one device hears it, and a radio
//! with a network server inside that stands in for a gateway.

use std::time::Duration;

use vstd::prelude::*;

use crate::error::Error;
use crate::error::Result;
use crate::server::NetworkServer;

verus! {

/// Where frames go and come from: the air, as one device hears it.
///
/// What a radio does is its own. It may say which outcomes it allows; one that
/// says nothing promises nothing.
pub trait Radio: Sized {
    /// Whether `name` can be the radio's name.
    open spec fn is_named(&self, name: Seq<char>) -> bool {
        true
    }

    /// Whether sending `frame` up can take the radio from `before` to `after`
    /// with `outcome`.
    open spec fn sends(before: Self, frame: Seq<u8>, after: Self, outcome: Result<()>) -> bool {
        true
    }

    /// Whether a receive window can take the radio from `before` to `after` with
    /// `outcome`.
    open spec fn hears(
        before: Self,
        timeout: Duration,
        after: Self,
        outcome: Result<Option<Seq<u8>>>,
    ) -> bool {
        true
    }

    /// The radio's name, for the origin URI.
    fn name(&self) -> (r: &str)
        ensures
            self.is_named(r@),
    ;

    /// Send a sealed frame up, or say why the radio refused it.
    fn transmit(&mut self, frame: &[u8]) -> (r: Result<()>)
        ensures
            Self::sends(*old(self), frame@, *final(self), crate::error::outcome_of(r)),
    ;

    /// The next sealed frame down, or `None` when nothing came within `timeout`:
    /// the receive windows closed empty.
    fn receive(&mut self, timeout: Duration) -> (r: Result<Option<Vec<u8>>>)
        ensures
            Self::hears(*old(self), timeout, *final(self), heard(r)),
    ;
}

/// What a receive window gave, as a mathematical value.
pub open spec fn heard(r: Result<Option<Vec<u8>>>) -> Result<Option<Seq<u8>>> {
    match r {
        Ok(Some(bytes)) => Ok(Some(bytes@)),
        Ok(None) => Ok(None),
        Err(error) => Err(error),
    }
}

/// A gateway and network server in-process: what the device sends up the
/// server opens, and what the server queues down the device receives next.
#[derive(Debug)]
pub struct LoopbackRadio {
    server: NetworkServer,
}

impl View for LoopbackRadio {
    type V = crate::server::ServerView;

    closed spec fn view(&self) -> crate::server::ServerView {
        self.server@
    }
}

impl LoopbackRadio {
    /// A radio with `server` inside.
    pub fn new(server: NetworkServer) -> (radio: LoopbackRadio)
        ensures
            radio@ == server@,
    {
        LoopbackRadio { server }
    }

    /// The network server, to queue a downlink or take what arrived.
    pub fn server(&mut self) -> (server: &mut NetworkServer)
        ensures
            (*server)@ == old(self)@,
            final(self)@ == (*final(server))@,
    {
        &mut self.server
    }
}

impl Radio for LoopbackRadio {
    open spec fn is_named(&self, name: Seq<char>) -> bool {
        name == "loopback"@
    }

    open spec fn sends(
        before: LoopbackRadio,
        frame: Seq<u8>,
        after: LoopbackRadio,
        outcome: Result<()>,
    ) -> bool {
        &&& outcome == crate::error::outcome_of(before@.accepted(frame))
        &&& after@ == before@.uplinked(frame)
    }

    open spec fn hears(
        before: LoopbackRadio,
        timeout: Duration,
        after: LoopbackRadio,
        outcome: Result<Option<Seq<u8>>>,
    ) -> bool {
        if before@.downlinks.len() > 0 {
            &&& outcome == Ok::<Option<Seq<u8>>, Error>(
                Some(before@.downlinks[0].sealed(before@.keys)),
            )
            &&& after@ == before@.sending_next()
        } else {
            outcome == Ok::<Option<Seq<u8>>, Error>(None) && after@ == before@
        }
    }

    fn name(&self) -> (r: &str) {
        "loopback"
    }

    /// The frame goes straight to the server.
    fn transmit(&mut self, frame: &[u8]) -> (r: Result<()>) {
        self.server.uplink(frame)
    }

    fn receive(&mut self, timeout: Duration) -> (r: Result<Option<Vec<u8>>>) {
        Ok(self.server.next_downlink())
    }
}

/// What a window gave and what is stated of it are the same.
pub proof fn heard_is_what_came(r: Result<Option<Vec<u8>>>)
    ensures
        match r {
            Ok(Some(bytes)) => heard(r) == Ok::<Option<Seq<u8>>, Error>(Some(bytes@)),
            Ok(None) => heard(r) == Ok::<Option<Seq<u8>>, Error>(None),
            Err(error) => heard(r) == Err::<Option<Seq<u8>>, Error>(error),
        },
{
}

/// A loopback radio hands every frame to its server and answers as the server
/// judges it.
pub proof fn loopback_hands_frames_to_its_server(
    before: LoopbackRadio,
    frame: Seq<u8>,
    after: LoopbackRadio,
    outcome: Result<()>,
)
    requires
        LoopbackRadio::sends(before, frame, after, outcome),
    ensures
        after@ == before@.uplinked(frame),
        outcome is Ok <==> before@.accepted(frame) is Ok,
        outcome is Err ==> outcome->Err_0 == before@.accepted(frame)->Err_0,
{
}

/// A loopback radio brings the next downlink queued, sealed, whatever the timeout,
/// and nothing where there is none.
pub proof fn loopback_brings_the_next_downlink(
    before: LoopbackRadio,
    timeout: Duration,
    after: LoopbackRadio,
    outcome: Result<Option<Seq<u8>>>,
)
    requires
        LoopbackRadio::hears(before, timeout, after, outcome),
    ensures
        outcome is Ok,
        before@.downlinks.len() == 0 ==> outcome->Ok_0 is None && after@ == before@,
        before@.downlinks.len() > 0 ==> {
            &&& outcome->Ok_0 == Some(before@.downlinks[0].sealed(before@.keys))
            &&& after@.downlinks == before@.downlinks.skip(1)
            &&& after@ == (crate::server::ServerView { downlinks: after@.downlinks, ..before@ })
        },
{
}

/// A loopback radio has one name.
pub proof fn loopback_has_one_name(radio: LoopbackRadio, name: Seq<char>)
    ensures
        radio.is_named(name) <==> name == "loopback"@,
{
}

} // verus!
