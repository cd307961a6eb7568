//! Why a frame, a stream or a send was refused.

use vstd::prelude::*;
use vstd::string::*;

use crate::text::append_decimal;
use crate::text::decimal;

verus! {

/// What went wrong.
#[derive(Clone, Debug, PartialEq, Eq)]
pub enum Error {
    /// Fewer bytes than the smallest frame.
    CutOff,
    /// A message type, as its three bits, that is not data up or down.
    MessageType(u8),
    /// Frame options in the frame header.
    FrameOptions,
    /// The MIC is not that of the frame: another key or counter, or tampering.
    Mic,
    /// More `FRMPayload` than one frame carries.
    TooLong,
    /// An uplink whose device address is another's.
    OtherDevice,
    /// A downlink where an uplink was due.
    WrongWay,
    /// A frame counter that did not advance.
    Counter,
    /// A port that nothing listens on.
    Port(u8),
    /// A fragment without its flags byte.
    NoFlags,
    /// A frame down that goes up, or to another device.
    NotForDevice,
    /// The receive windows closed without the ACK of a confirmed frame.
    NoAck,
    /// A frame down where an ACK was due, without the ACK bit.
    NoAckBit,
    /// No stream has arrived whole at the network server.
    NothingArrived,
    /// A radio with no network server inside.
    NotLoopback,
    /// The network server took other bytes than were sent.
    Differs,
    /// A frame counter has run out.
    Spent,
    /// One receive passed over as many bare ACKs as it can count. The next goes
    /// on where it stopped.
    OnlyAcks,
    /// The radio itself failed or refused.
    Radio {
        /// Its own words.
        reason: String,
        /// Whether trying again is worth it.
        retryable: bool,
    },
}

/// The result of what can be refused.
pub type Result<T> = core::result::Result<T, Error>;

/// The outcome of an attempt that only succeeds or is refused.
pub open spec fn outcome_of<T>(result: Result<T>) -> Result<()> {
    match result {
        Ok(_) => Ok(()),
        Err(error) => Err(error),
    }
}

impl Error {
    /// Whether trying again may help.
    pub open spec fn is_retryable(self) -> bool {
        match self {
            Error::NoAck | Error::OnlyAcks => true,
            Error::Radio { retryable, .. } => retryable,
            _ => false,
        }
    }

    /// The error in words.
    pub open spec fn words(self) -> Seq<char> {
        match self {
            Error::CutOff => "a frame cut off before its MIC"@,
            Error::MessageType(bits) => "a message type this crate does not carry: "@ + decimal(
                bits as nat,
            ),
            Error::FrameOptions => "frame options this crate does not carry"@,
            Error::Mic => "a MIC that does not check"@,
            Error::TooLong => "more FRMPayload than one frame carries"@,
            Error::OtherDevice => "an uplink from another device"@,
            Error::WrongWay => "a downlink where an uplink was due"@,
            Error::Counter => "a frame counter that did not advance"@,
            Error::Port(port) => "port "@ + decimal(port as nat) + ", which nothing listens on"@,
            Error::NoFlags => "a fragment without its flags"@,
            Error::NotForDevice => "a frame down that is not for this device"@,
            Error::NoAck => "no ACK in the receive windows"@,
            Error::NoAckBit => "a frame down without the ACK bit"@,
            Error::NothingArrived => "nothing arrived at the network server"@,
            Error::NotLoopback => "a concentrator, not a loopback radio"@,
            Error::Differs => "sent, but what the server took differs"@,
            Error::Spent => "a frame counter that has run out"@,
            Error::OnlyAcks => "bare ACKs past counting, and no stream"@,
            Error::Radio { reason, .. } => reason@,
        }
    }

    /// Whether trying again may help: a confirmed frame nobody acknowledged, a
    /// receive that the next one goes on with, or a radio that says so.
    pub fn retryable(&self) -> (r: bool)
        ensures
            r == self.is_retryable(),
    {
        match self {
            Error::NoAck | Error::OnlyAcks => true,
            Error::Radio { retryable, .. } => *retryable,
            _ => false,
        }
    }

    /// The error in words.
    pub fn message(&self) -> (text: String)
        ensures
            text@ == self.words(),
    {
        match self {
            Error::CutOff => String::from_str("a frame cut off before its MIC"),
            Error::MessageType(bits) => {
                let mut text = String::from_str("a message type this crate does not carry: ");
                append_decimal(&mut text, *bits as u32);
                text
            },
            Error::FrameOptions => String::from_str("frame options this crate does not carry"),
            Error::Mic => String::from_str("a MIC that does not check"),
            Error::TooLong => String::from_str("more FRMPayload than one frame carries"),
            Error::OtherDevice => String::from_str("an uplink from another device"),
            Error::WrongWay => String::from_str("a downlink where an uplink was due"),
            Error::Counter => String::from_str("a frame counter that did not advance"),
            Error::Port(port) => {
                let mut text = String::from_str("port ");
                append_decimal(&mut text, *port as u32);
                text.append(", which nothing listens on");
                text
            },
            Error::NoFlags => String::from_str("a fragment without its flags"),
            Error::NotForDevice => String::from_str("a frame down that is not for this device"),
            Error::NoAck => String::from_str("no ACK in the receive windows"),
            Error::NoAckBit => String::from_str("a frame down without the ACK bit"),
            Error::NothingArrived => String::from_str("nothing arrived at the network server"),
            Error::NotLoopback => String::from_str("a concentrator, not a loopback radio"),
            Error::Differs => String::from_str("sent, but what the server took differs"),
            Error::Spent => String::from_str("a frame counter that has run out"),
            Error::OnlyAcks => String::from_str("bare ACKs past counting, and no stream"),
            Error::Radio { reason, .. } => reason.clone(),
        }
    }
}

/// Of an attempt's outcome nothing is kept but whether it succeeded, and else
/// why not.
pub proof fn outcome_keeps_the_reason<T>(result: Result<T>)
    ensures
        outcome_of(result) is Ok <==> result is Ok,
        result is Err ==> outcome_of(result) is Err && outcome_of(result)->Err_0 == result->Err_0,
{
}

/// Three things are worth another try: a confirmed frame without its ACK, a
/// receive that met nothing but ACKs, and what a radio says is.
pub proof fn some_refusals_are_worth_another_try(error: Error)
    ensures
        error.is_retryable() <==> {
            ||| error is NoAck
            ||| error is OnlyAcks
            ||| error is Radio && error->retryable
        },
{
}

/// Every refusal in words: those of a number end or go on with it in decimal, a
/// radio's are its own.
pub proof fn refusals_have_their_words(error: Error)
    ensures
        error is CutOff ==> error.words() == "a frame cut off before its MIC"@,
        error matches Error::MessageType(bits) ==> error.words()
            == "a message type this crate does not carry: "@ + decimal(bits as nat),
        error is FrameOptions ==> error.words() == "frame options this crate does not carry"@,
        error is Mic ==> error.words() == "a MIC that does not check"@,
        error is TooLong ==> error.words() == "more FRMPayload than one frame carries"@,
        error is OtherDevice ==> error.words() == "an uplink from another device"@,
        error is WrongWay ==> error.words() == "a downlink where an uplink was due"@,
        error is Counter ==> error.words() == "a frame counter that did not advance"@,
        error matches Error::Port(port) ==> error.words() == "port "@ + decimal(port as nat)
            + ", which nothing listens on"@,
        error is NoFlags ==> error.words() == "a fragment without its flags"@,
        error is NotForDevice ==> error.words() == "a frame down that is not for this device"@,
        error is NoAck ==> error.words() == "no ACK in the receive windows"@,
        error is NoAckBit ==> error.words() == "a frame down without the ACK bit"@,
        error is NothingArrived ==> error.words() == "nothing arrived at the network server"@,
        error is NotLoopback ==> error.words() == "a concentrator, not a loopback radio"@,
        error is Differs ==> error.words() == "sent, but what the server took differs"@,
        error matches Error::Radio { reason, .. } ==> error.words() == reason@,
{
}

} // verus!
