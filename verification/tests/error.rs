//! Refusals in words, and which of them are worth another try.

use lorawan::Error;

#[test]
fn every_refusal_has_its_words() {
    let words = [
        (Error::CutOff, "a frame cut off before its MIC"),
        (Error::MessageType(7), "a message type this crate does not carry: 7"),
        (Error::FrameOptions, "frame options this crate does not carry"),
        (Error::Mic, "a MIC that does not check"),
        (Error::TooLong, "more FRMPayload than one frame carries"),
        (Error::OtherDevice, "an uplink from another device"),
        (Error::WrongWay, "a downlink where an uplink was due"),
        (Error::Counter, "a frame counter that did not advance"),
        (Error::Port(224), "port 224, which nothing listens on"),
        (Error::NoFlags, "a fragment without its flags"),
        (Error::NotForDevice, "a frame down that is not for this device"),
        (Error::NoAck, "no ACK in the receive windows"),
        (Error::NoAckBit, "a frame down without the ACK bit"),
        (Error::NothingArrived, "nothing arrived at the network server"),
        (Error::NotLoopback, "a concentrator, not a loopback radio"),
        (Error::Differs, "sent, but what the server took differs"),
        (Error::Spent, "a frame counter that has run out"),
        (Error::OnlyAcks, "bare ACKs past counting, and no stream"),
    ];
    for (error, text) in words {
        assert_eq!(error.message(), text);
        assert_eq!(error.retryable(), matches!(error, Error::NoAck | Error::OnlyAcks), "{text}");
    }
}

#[test]
fn a_radio_speaks_for_itself() {
    for retryable in [true, false] {
        let error = Error::Radio {
            reason: String::from("duty cycle"),
            retryable,
        };
        assert_eq!(error.message(), "duty cycle");
        assert_eq!(error.retryable(), retryable);
    }
}
