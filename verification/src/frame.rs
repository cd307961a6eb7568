//! The LoRaWAN MAC frame as the air carries it: a MAC header naming the
//! message type, the frame header (device address, frame control, frame
//! counter), a port, the `FRMPayload` under the application session key, and
//! the four-byte MIC under the network session key.

use vstd::prelude::*;
use vstd::slice::*;

use crate::aes;
use crate::aes::BLOCK;
use crate::error::Error;
use crate::error::Result;

verus! {

/// The most `FRMPayload` one frame carries: N for the fastest EU868 data rate
/// (DR5, 230 bytes of `MACPayload` less the frame header and port). A slower
/// data rate carries less.
pub const MAX_FRM_PAYLOAD: usize = 222;

/// A stream that fits one frame travels whole on this port.
pub const PORT_STREAM: u8 = 1;

/// A stream longer than one frame travels in fragments on this port, each
/// opening with a flags byte: [`FIRST`], [`LAST`], both or neither.
pub const PORT_FRAGMENT: u8 = 2;

/// The fragment is the stream's first.
pub const FIRST: u8 = 0x40;

/// The fragment is the stream's last.
pub const LAST: u8 = 0x80;

/// What a fragment carries past its flags byte.
pub const MAX_FRAGMENT: usize = MAX_FRM_PAYLOAD - 1;

/// The ACK bit in frame control.
pub const ACK: u8 = 0x20;

/// The frame-options length is the low four bits of frame control.
pub const FOPTS_LEN: u8 = 0x0f;

/// The session keys a device and its network share.
#[derive(Clone, Copy, Debug, PartialEq, Eq)]
pub struct Keys {
    /// The network session key, under which the MIC is made.
    pub nwk_s_key: [u8; BLOCK],
    /// The application session key, under which the payload travels.
    pub app_s_key: [u8; BLOCK],
}

/// The message type in the MAC header.
#[derive(Clone, Copy, Debug, PartialEq, Eq, Structural)]
pub enum MType {
    /// Data up that asks for no acknowledgement.
    UnconfirmedUp,
    /// Data down that asks for no acknowledgement.
    UnconfirmedDown,
    /// Data up to be acknowledged.
    ConfirmedUp,
    /// Data down to be acknowledged.
    ConfirmedDown,
}

/// One data frame, its `FRMPayload` in the clear.
#[derive(Clone, Debug, PartialEq, Eq)]
pub struct Frame {
    /// Which way the frame goes, and whether it is to be acknowledged.
    pub mtype: MType,
    /// The device's address.
    pub dev_addr: u32,
    /// Whether the frame acknowledges one that came the other way.
    pub ack: bool,
    /// The full 32-bit counter; the air carries its low sixteen bits.
    pub fcnt: u32,
    /// The port.
    pub port: u8,
    /// The `FRMPayload`.
    pub payload: Vec<u8>,
}

/// A [`Frame`] as a mathematical value.
#[verifier::ext_equal]
pub struct FrameView {
    pub mtype: MType,
    pub dev_addr: u32,
    pub ack: bool,
    pub fcnt: u32,
    pub port: u8,
    pub payload: Seq<u8>,
}

impl View for Frame {
    type V = FrameView;

    open spec fn view(&self) -> FrameView {
        FrameView {
            mtype: self.mtype,
            dev_addr: self.dev_addr,
            ack: self.ack,
            fcnt: self.fcnt,
            port: self.port,
            payload: self.payload@,
        }
    }
}

// ---------------------------------------------------------------------------
// The frame on the air
// ---------------------------------------------------------------------------

/// The two bytes of `n`, the lowest first.
pub open spec fn u16_bytes(n: u16) -> Seq<u8> {
    seq![(n % 0x100) as u8, (n / 0x100) as u8]
}

/// The four bytes of `n`, the lowest first.
pub open spec fn u32_bytes(n: u32) -> Seq<u8> {
    seq![
        (n % 0x100) as u8,
        (n / 0x100 % 0x100) as u8,
        (n / 0x1_0000 % 0x100) as u8,
        (n / 0x100_0000) as u8,
    ]
}

/// The number whose four bytes, the lowest first, open `bytes`.
pub open spec fn u32_of(bytes: Seq<u8>) -> u32 {
    (bytes[0] + 0x100 * bytes[1] + 0x1_0000 * bytes[2] + 0x100_0000 * bytes[3]) as u32
}

/// The full counter, from the high sixteen bits and the low two bytes.
pub open spec fn full_counter(high: u16, low: Seq<u8>) -> u32 {
    (0x1_0000 * high + 0x100 * low[1] + low[0]) as u32
}

/// A length as the one byte a block has for it, staying at the most a byte
/// holds.
pub open spec fn length_byte(n: nat) -> u8 {
    if n < 0xff {
        n as u8
    } else {
        0xff
    }
}

impl MType {
    /// The three bits that name the type.
    pub open spec fn code(self) -> u8 {
        match self {
            MType::UnconfirmedUp => 2,
            MType::UnconfirmedDown => 3,
            MType::ConfirmedUp => 4,
            MType::ConfirmedDown => 5,
        }
    }

    /// The type that three bits name, where it is one of data up or down.
    pub open spec fn of_code(bits: u8) -> Option<MType> {
        if bits == 2 {
            Some(MType::UnconfirmedUp)
        } else if bits == 3 {
            Some(MType::UnconfirmedDown)
        } else if bits == 4 {
            Some(MType::ConfirmedUp)
        } else if bits == 5 {
            Some(MType::ConfirmedDown)
        } else {
            None
        }
    }

    /// Whether the frame goes up, from the device.
    pub open spec fn goes_up(self) -> bool {
        self == MType::UnconfirmedUp || self == MType::ConfirmedUp
    }

    /// Whether the frame asks to be acknowledged.
    pub open spec fn asks_ack(self) -> bool {
        self == MType::ConfirmedUp || self == MType::ConfirmedDown
    }
}

impl FrameView {
    /// The block every MIC and key stream opens with: a leading byte, four
    /// zeros, the direction, the device address, the full counter, a zero and
    /// a last byte.
    pub open spec fn opening_block(self, leading: u8, last: u8) -> Seq<u8> {
        seq![
            leading,
            0,
            0,
            0,
            0,
            if self.mtype.goes_up() {
                0
            } else {
                1
            },
        ] + u32_bytes(self.dev_addr) + u32_bytes(self.fcnt) + seq![0, last]
    }

    /// MHDR, FHDR and `FPort`: what the MIC covers before the payload.
    pub open spec fn header(self) -> Seq<u8> {
        seq![(self.mtype.code() * 0x20) as u8] + u32_bytes(self.dev_addr) + seq![
            if self.ack {
                ACK
            } else {
                0
            },
        ] + u16_bytes((self.fcnt % 0x1_0000) as u16) + seq![self.port]
    }

    /// `bytes` under the application session key, to or from the clear.
    pub open spec fn crypted(self, keys: Keys, bytes: Seq<u8>) -> Seq<u8> {
        aes::under_stream(keys.app_s_key@, self.opening_block(0x01, 0), bytes)
    }

    /// What the MIC covers: the header, and the payload encrypted.
    pub open spec fn body(self, keys: Keys) -> Seq<u8> {
        self.header() + self.crypted(keys, self.payload)
    }

    /// The MIC of `body`: the first four bytes of its CMAC, opened by a block
    /// that carries the body's length.
    pub open spec fn mic(self, keys: Keys, body: Seq<u8>) -> Seq<u8> {
        aes::cmac_of(
            keys.nwk_s_key@,
            self.opening_block(0x49, length_byte(body.len())) + body,
        ).take(4)
    }

    /// The frame as the air carries it.
    pub open spec fn sealed(self, keys: Keys) -> Seq<u8> {
        self.body(keys) + self.mic(keys, self.body(keys))
    }

    /// The high sixteen bits of the counter, which the air does not carry.
    pub open spec fn counter_high(self) -> u16 {
        (self.fcnt / 0x1_0000) as u16
    }
}

/// What the header of `body` says, for a message type and the high sixteen
/// bits of the counter; the payload is not read.
pub open spec fn header_of(body: Seq<u8>, mtype: MType, fcnt_high: u16) -> FrameView {
    FrameView {
        mtype,
        dev_addr: u32_of(body.subrange(1, 5)),
        ack: body[5] / ACK % 2 == 1,
        fcnt: full_counter(fcnt_high, body.subrange(6, 8)),
        port: body[8],
        payload: seq![],
    }
}

/// The frame that `bytes` carry, or why there is none: too few bytes, else a
/// message type that is not carried, else frame options, else a MIC that does
/// not check.
pub open spec fn opened(bytes: Seq<u8>, keys: Keys, fcnt_high: u16) -> Result<FrameView> {
    let body = bytes.take(bytes.len() - 4);
    let mic = bytes.skip(bytes.len() - 4);
    if bytes.len() < 13 {
        Err(Error::CutOff)
    } else {
        match MType::of_code(body[0] / 0x20) {
            None => Err(Error::MessageType(body[0] / 0x20)),
            Some(mtype) => {
                let header = header_of(body, mtype, fcnt_high);
                if body[5] % 0x10 != 0 {
                    Err(Error::FrameOptions)
                } else if header.mic(keys, body) != mic {
                    Err(Error::Mic)
                } else {
                    Ok(FrameView { payload: header.crypted(keys, body.skip(9)), ..header })
                }
            },
        }
    }
}

/// Whether an outcome that carries a value is the one that `model` says.
pub open spec fn same_outcome<T: View>(result: Result<T>, model: Result<T::V>) -> bool {
    match result {
        Ok(value) => model == Ok::<T::V, Error>(value@),
        Err(error) => model == Err::<T::V, Error>(error),
    }
}

// ---------------------------------------------------------------------------
// Frames
// ---------------------------------------------------------------------------

impl MType {
    /// The three bits that name the type.
    pub fn bits(self) -> (bits: u8)
        ensures
            bits == self.code(),
    {
        match self {
            MType::UnconfirmedUp => 2,
            MType::UnconfirmedDown => 3,
            MType::ConfirmedUp => 4,
            MType::ConfirmedDown => 5,
        }
    }

    /// The type that three bits name, where it is one of data up or down.
    pub fn from_bits(bits: u8) -> (r: Result<MType>)
        ensures
            r == (match MType::of_code(bits) {
                Some(mtype) => Ok::<MType, Error>(mtype),
                None => Err::<MType, Error>(Error::MessageType(bits)),
            }),
    {
        match bits {
            2 => Ok(MType::UnconfirmedUp),
            3 => Ok(MType::UnconfirmedDown),
            4 => Ok(MType::ConfirmedUp),
            5 => Ok(MType::ConfirmedDown),
            other => Err(Error::MessageType(other)),
        }
    }

    /// Whether the frame goes up, from the device.
    pub fn is_uplink(self) -> (r: bool)
        ensures
            r == self.goes_up(),
    {
        matches!(self, MType::UnconfirmedUp | MType::ConfirmedUp)
    }

    /// Whether the frame asks to be acknowledged.
    pub fn is_confirmed(self) -> (r: bool)
        ensures
            r == self.asks_ack(),
    {
        matches!(self, MType::ConfirmedUp | MType::ConfirmedDown)
    }
}

/// Append `bytes`.
fn append(out: &mut Vec<u8>, bytes: &[u8])
    ensures
        final(out)@ == old(out)@ + bytes@,
{
    let ghost before = out@;
    out.extend_from_slice(bytes);
    assert(out@ =~= before + bytes@);
}

/// Append the four bytes of `n`, the lowest first.
fn append_u32(out: &mut Vec<u8>, n: u32)
    ensures
        final(out)@ == old(out)@ + u32_bytes(n),
{
    let ghost before = out@;
    out.push((n % 0x100) as u8);
    out.push((n / 0x100 % 0x100) as u8);
    out.push((n / 0x1_0000 % 0x100) as u8);
    out.push((n / 0x100_0000) as u8);
    assert(out@ =~= before + u32_bytes(n));
}

/// Append the two bytes of `n`, the lowest first.
fn append_u16(out: &mut Vec<u8>, n: u16)
    ensures
        final(out)@ == old(out)@ + u16_bytes(n),
{
    let ghost before = out@;
    out.push((n % 0x100) as u8);
    out.push((n / 0x100) as u8);
    assert(out@ =~= before + u16_bytes(n));
}

/// The number whose four bytes, the lowest first, open `bytes`.
fn read_u32(bytes: &[u8]) -> (n: u32)
    requires
        bytes@.len() >= 4,
    ensures
        n == u32_of(bytes@),
{
    bytes[0] as u32 + 0x100 * bytes[1] as u32 + 0x1_0000 * bytes[2] as u32 + 0x100_0000
        * bytes[3] as u32
}

/// The full counter, from the high sixteen bits and the low two bytes.
fn read_counter(high: u16, low: &[u8]) -> (fcnt: u32)
    requires
        low@.len() >= 2,
    ensures
        fcnt == full_counter(high, low@),
{
    0x1_0000 * high as u32 + 0x100 * low[1] as u32 + low[0] as u32
}

/// A length as one byte, staying at the most a byte holds.
fn byte_of_length(n: usize) -> (byte: u8)
    ensures
        byte == length_byte(n as nat),
{
    if n < 0xff {
        n as u8
    } else {
        0xff
    }
}

impl Frame {
    /// A frame, refusing more `FRMPayload` than the data rate carries.
    pub fn new(mtype: MType, dev_addr: u32, fcnt: u32, port: u8, payload: &[u8]) -> (r: Result<Frame>)
        ensures
            same_outcome(
                r,
                if payload@.len() > MAX_FRM_PAYLOAD {
                    Err(Error::TooLong)
                } else {
                    Ok(
                        (FrameView {
                            mtype,
                            dev_addr,
                            ack: false,
                            fcnt,
                            port,
                            payload: payload@,
                        }),
                    )
                },
            ),
    {
        if payload.len() > MAX_FRM_PAYLOAD {
            return Err(Error::TooLong);
        }
        Ok(Frame { mtype, dev_addr, ack: false, fcnt, port, payload: slice_to_vec(payload) })
    }

    /// The frame with its ACK bit set.
    pub fn acknowledging(self) -> (r: Frame)
        ensures
            r@ == (FrameView { ack: true, ..self@ }),
    {
        let mut frame = self;
        frame.ack = true;
        frame
    }

    /// The block every MIC and key stream opens with.
    fn block(&self, leading: u8, last: u8) -> (block: [u8; BLOCK])
        ensures
            block@ == self@.opening_block(leading, last),
    {
        let direction = if self.mtype.is_uplink() {
            0
        } else {
            1
        };
        let addr = self.dev_addr;
        let fcnt = self.fcnt;
        let block = [
            leading,
            0,
            0,
            0,
            0,
            direction,
            (addr % 0x100) as u8,
            (addr / 0x100 % 0x100) as u8,
            (addr / 0x1_0000 % 0x100) as u8,
            (addr / 0x100_0000) as u8,
            (fcnt % 0x100) as u8,
            (fcnt / 0x100 % 0x100) as u8,
            (fcnt / 0x1_0000 % 0x100) as u8,
            (fcnt / 0x100_0000) as u8,
            0,
            last,
        ];
        assert(block@ =~= self@.opening_block(leading, last));
        block
    }

    /// MHDR, FHDR and `FPort`: what the MIC covers before the payload.
    fn head(&self) -> (out: Vec<u8>)
        ensures
            out@ == self@.header(),
    {
        let mut out: Vec<u8> = Vec::new();
        out.push(self.mtype.bits() * 0x20);
        append_u32(&mut out, self.dev_addr);
        out.push(
            if self.ack {
                ACK
            } else {
                0
            },
        );
        append_u16(&mut out, (self.fcnt % 0x1_0000) as u16);
        out.push(self.port);
        assert(out@ =~= self@.header());
        out
    }

    /// What the MIC is taken of: the block that carries the body's length,
    /// then the body.
    fn covered(&self, body: &[u8]) -> (out: Vec<u8>)
        ensures
            out@ == self@.opening_block(0x49, length_byte(body@.len())) + body@,
    {
        let opening = self.block(0x49, byte_of_length(body.len()));
        let mut out = slice_to_vec(opening.as_slice());
        append(&mut out, body);
        out
    }

    /// The frame as the air carries it: payload encrypted, MIC appended.
    pub fn seal(&self, keys: &Keys) -> (out: Vec<u8>)
        ensures
            out@ == self@.sealed(*keys),
    {
        let mut out = self.head();
        let payload = aes::counter(&keys.app_s_key, &self.block(0x01, 0), self.payload.as_slice());
        append(&mut out, payload.as_slice());
        assert(out@ == self@.body(*keys));
        let mac = aes::cmac(&keys.nwk_s_key, self.covered(out.as_slice()).as_slice());
        append(&mut out, slice_subrange(mac.as_slice(), 0, 4));
        assert(mac@.subrange(0, 4) == mac@.take(4));
        out
    }

    /// The frame `bytes` carry, MIC checked and payload decrypted, given the
    /// high sixteen bits of the counter the air does not carry.
    pub fn open(bytes: &[u8], keys: &Keys, fcnt_high: u16) -> (r: Result<Frame>)
        ensures
            same_outcome(r, opened(bytes@, *keys, fcnt_high)),
    {
        if bytes.len() < 13 {
            return Err(Error::CutOff);
        }
        let cut: usize = bytes.len() - 4;
        let body = slice_subrange(bytes, 0, cut);
        let mic = slice_subrange(bytes, cut, bytes.len());
        assert(body@ == bytes@.take(cut as int));
        assert(mic@ == bytes@.skip(cut as int));
        let mtype = match MType::from_bits(body[0] / 0x20) {
            Ok(mtype) => mtype,
            Err(error) => {
                return Err(error);
            },
        };
        let fctrl = body[5];
        assert(fctrl & FOPTS_LEN == fctrl % 0x10) by (bit_vector)
            requires
                FOPTS_LEN == 0x0fu8,
        ;
        assert(fctrl & ACK != 0 <==> fctrl / ACK % 2 == 1) by (bit_vector)
            requires
                ACK == 0x20u8,
        ;
        if fctrl & FOPTS_LEN != 0 {
            return Err(Error::FrameOptions);
        }
        let mut frame = Frame {
            mtype,
            dev_addr: read_u32(slice_subrange(body, 1, 5)),
            ack: fctrl & ACK != 0,
            fcnt: read_counter(fcnt_high, slice_subrange(body, 6, 8)),
            port: body[8],
            payload: Vec::new(),
        };
        assert(frame@ =~= header_of(body@, mtype, fcnt_high));
        let mac = aes::cmac(&keys.nwk_s_key, frame.covered(body).as_slice());
        proof {
            aes::lemma_cmac_len(
                keys.nwk_s_key@,
                frame@.opening_block(0x49, length_byte(body@.len())) + body@,
            );
        }
        if mac[0] != mic[0] || mac[1] != mic[1] || mac[2] != mic[2] || mac[3] != mic[3] {
            assert(mac@.take(4) != mic@);
            return Err(Error::Mic);
        }
        assert(mac@.take(4) =~= mic@);
        let rest = slice_subrange(body, 9, body.len());
        assert(rest@ == body@.skip(9));
        frame.payload = aes::counter(&keys.app_s_key, &frame.block(0x01, 0), rest);
        Ok(frame)
    }
}

// ---------------------------------------------------------------------------
// A stream as frame payloads
// ---------------------------------------------------------------------------

/// A payload and the port it travels on, as a mathematical value.
pub type Part = (u8, Seq<u8>);

/// Payloads and their ports, as a mathematical value.
pub open spec fn parts_of(payloads: Seq<(u8, Vec<u8>)>) -> Seq<Part> {
    Seq::new(payloads.len(), |i: int| (payloads[i].0, payloads[i].1@))
}

/// How many fragments carry a stream of `len` bytes.
pub open spec fn fragment_count(len: nat) -> nat {
    (len + MAX_FRAGMENT as nat - 1) as nat / MAX_FRAGMENT as nat
}

/// The bytes of `bytes` that fragment `i` carries.
pub open spec fn fragment_bytes(bytes: Seq<u8>, i: int) -> Seq<u8> {
    let end = (i + 1) * MAX_FRAGMENT;
    bytes.subrange(
        i * MAX_FRAGMENT,
        if end < bytes.len() {
            end
        } else {
            bytes.len() as int
        },
    )
}

/// The flags of fragment `i` of `count`.
pub open spec fn fragment_flags(i: int, count: nat) -> u8 {
    ((if i == 0 {
        FIRST as int
    } else {
        0
    }) + (if i + 1 == count {
        LAST as int
    } else {
        0
    })) as u8
}

/// Fragment `i` of `bytes`: its flags, then what it carries.
pub open spec fn fragment(bytes: Seq<u8>, i: int) -> Seq<u8> {
    seq![fragment_flags(i, fragment_count(bytes.len()))] + fragment_bytes(bytes, i)
}

/// `bytes` as the parts that carry it: one where it fits a frame, else
/// fragments.
pub open spec fn stream_parts(bytes: Seq<u8>) -> Seq<Part> {
    if bytes.len() <= MAX_FRM_PAYLOAD {
        seq![(PORT_STREAM, bytes)]
    } else {
        Seq::new(fragment_count(bytes.len()), |i: int| (PORT_FRAGMENT, fragment(bytes, i)))
    }
}

/// Fragments lie 221 bytes apart, and every stream ends inside its last one.
proof fn lemma_fragment_layout(len: nat, i: int)
    ensures
        i * MAX_FRAGMENT == 221 * i,
        (i + 1) * MAX_FRAGMENT == 221 * i + 221,
        fragment_count(len) == (len + 220) / 221,
{
    assert(MAX_FRAGMENT == 221);
    assert(i * MAX_FRAGMENT == 221 * i) by (nonlinear_arith)
        requires
            MAX_FRAGMENT == 221,
    ;
    assert((i + 1) * MAX_FRAGMENT == 221 * i + 221) by (nonlinear_arith)
        requires
            MAX_FRAGMENT == 221,
    ;
    assert((len + MAX_FRAGMENT as nat - 1) as nat / MAX_FRAGMENT as nat == (len + 220) / 221)
        by (nonlinear_arith)
        requires
            MAX_FRAGMENT == 221,
    ;
}

/// `bytes` as the frame payloads that carry it: one on [`PORT_STREAM`] where it
/// fits, else fragments on [`PORT_FRAGMENT`], each flagged first, last, both
/// or neither.
pub fn payloads(bytes: &[u8]) -> (out: Vec<(u8, Vec<u8>)>)
    ensures
        parts_of(out@) == stream_parts(bytes@),
{
    let mut out: Vec<(u8, Vec<u8>)> = Vec::new();
    if bytes.len() <= MAX_FRM_PAYLOAD {
        out.push((PORT_STREAM, slice_to_vec(bytes)));
        assert(parts_of(out@) =~= stream_parts(bytes@));
        return out;
    }
    let len: usize = bytes.len();
    let mut at: usize = 0;
    let ghost count = fragment_count(bytes@.len());
    while at < len
        invariant
            len == bytes.len(),
            len > MAX_FRM_PAYLOAD,
            count == fragment_count(bytes@.len()),
            at <= len,
            at < len ==> at == out@.len() * MAX_FRAGMENT,
            at == len ==> out@.len() == count,
            out@.len() <= count,
            forall|i: int|
                0 <= i < out@.len() ==> #[trigger] parts_of(out@)[i] == stream_parts(bytes@)[i],
        decreases len - at,
    {
        let ghost i = out@.len() as int;
        proof {
            lemma_fragment_layout(bytes@.len(), i);
            lemma_fragment_layout(bytes@.len(), i + 1);
        }
        let end = if len - at > MAX_FRAGMENT {
            at + MAX_FRAGMENT
        } else {
            len
        };
        let first = if at == 0 {
            FIRST
        } else {
            0
        };
        let last = if end == len {
            LAST
        } else {
            0
        };
        assert(first | last == first + last) by (bit_vector)
            requires
                first == 0x40u8 || first == 0u8,
                last == 0x80u8 || last == 0u8,
        ;
        let mut payload: Vec<u8> = Vec::with_capacity(end - at + 1);
        payload.push(first | last);
        append(&mut payload, slice_subrange(bytes, at, end));
        proof {
            assert(at == 0 <==> i == 0);
            assert(end == len <==> i + 1 == count);
            assert(payload@ =~= fragment(bytes@, i));
        }
        let ghost before = out@;
        out.push((PORT_FRAGMENT, payload));
        at = end;
        proof {
            assert forall|j: int| 0 <= j < out@.len() implies #[trigger] parts_of(out@)[j]
                == stream_parts(bytes@)[j] by {
                if j < i {
                    assert(parts_of(before)[j] == parts_of(out@)[j]);
                }
            }
        }
    }
    assert(parts_of(out@) =~= stream_parts(bytes@));
    out
}

// ---------------------------------------------------------------------------
// Laws
// ---------------------------------------------------------------------------

/// Four bytes of a number give the number back.
proof fn lemma_u32_round(n: u32)
    ensures
        u32_of(u32_bytes(n)) == n,
{
}

/// Four bytes, read and written again, are the same four.
proof fn lemma_u32_bytes_round(bytes: Seq<u8>)
    requires
        bytes.len() == 4,
    ensures
        u32_bytes(u32_of(bytes)) == bytes,
{
    let (a, b, c, d) = (bytes[0] as int, bytes[1] as int, bytes[2] as int, bytes[3] as int);
    let n = u32_of(bytes) as int;
    assert(n == a + 0x100 * (b + 0x100 * (c + 0x100 * d)));
    assert(n % 0x100 == a && n / 0x100 == b + 0x100 * (c + 0x100 * d));
    let n1 = n / 0x100;
    assert(n1 % 0x100 == b && n1 / 0x100 == c + 0x100 * d);
    assert(n / 0x1_0000 == n1 / 0x100);
    let n2 = n / 0x1_0000;
    assert(n2 % 0x100 == c && n2 / 0x100 == d);
    assert(n / 0x100_0000 == n2 / 0x100);
    assert(u32_bytes(u32_of(bytes)) =~= bytes);
}

/// The low two bytes of a counter and its high sixteen bits give it back.
proof fn lemma_counter_round(fcnt: u32)
    ensures
        full_counter((fcnt / 0x1_0000) as u16, u16_bytes((fcnt % 0x1_0000) as u16)) == fcnt,
{
}

/// The counter read from two bytes and high bits has those bytes and bits.
pub proof fn lemma_full_counter(high: u16, low: Seq<u8>)
    requires
        low.len() == 2,
    ensures
        full_counter(high, low) / 0x1_0000 == high,
        u16_bytes((full_counter(high, low) % 0x1_0000) as u16) == low,
{
    let fcnt = full_counter(high, low);
    assert(fcnt == 0x1_0000 * high + 0x100 * low[1] + low[0]);
    assert(fcnt % 0x1_0000 == 0x100 * low[1] + low[0]);
    assert(u16_bytes((fcnt % 0x1_0000) as u16) =~= low);
}

/// The MIC is four bytes.
proof fn lemma_mic_len(frame: FrameView, keys: Keys, body: Seq<u8>)
    ensures
        frame.mic(keys, body).len() == 4,
{
    aes::lemma_cmac_len(
        keys.nwk_s_key@,
        frame.opening_block(0x49, length_byte(body.len())) + body,
    );
}

/// Message types and the bits that name them belong together one to one: the
/// bits from two to five name a type each, and each type is named by its own.
pub proof fn types_and_bits_are_one_to_one(bits: u8, mtype: MType)
    ensures
        MType::of_code(bits) is Some <==> 2 <= bits <= 5,
        MType::of_code(bits) == Some(mtype) <==> mtype.code() == bits,
        MType::of_code(mtype.code()) == Some(mtype),
{
}

/// A sealed frame is its payload and thirteen bytes more: nine of header, four
/// of MIC.
pub proof fn sealed_adds_thirteen_bytes(frame: FrameView, keys: Keys)
    ensures
        frame.sealed(keys).len() == frame.payload.len() + 13,
{
    lemma_mic_len(frame, keys, frame.body(keys));
}

/// A sealed frame opens under the same keys and the same high counter bits to
/// the frame it was.
pub proof fn sealed_frame_opens(frame: FrameView, keys: Keys)
    ensures
        opened(frame.sealed(keys), keys, frame.counter_high()) == Ok::<FrameView, Error>(frame),
{
    let bytes = frame.sealed(keys);
    let body = frame.body(keys);
    lemma_mic_len(frame, keys, body);
    assert(bytes.take(bytes.len() - 4) =~= body);
    assert(bytes.skip(bytes.len() - 4) =~= frame.mic(keys, body));
    let head = frame.header();
    assert(body[0] == frame.mtype.code() * 0x20);
    assert(MType::of_code(body[0] / 0x20) == Some(frame.mtype));
    assert(body.subrange(1, 5) =~= u32_bytes(frame.dev_addr));
    assert(body.subrange(6, 8) =~= u16_bytes((frame.fcnt % 0x1_0000) as u16));
    lemma_u32_round(frame.dev_addr);
    lemma_counter_round(frame.fcnt);
    let header = header_of(body, frame.mtype, frame.counter_high());
    assert(header == (FrameView { payload: seq![], ..frame }));
    assert(header.mic(keys, body) == frame.mic(keys, body));
    assert(body.skip(9) =~= frame.crypted(keys, frame.payload));
    assert(header.crypted(keys, body.skip(9)) == frame.payload) by {
        assert(header.opening_block(0x01, 0) == frame.opening_block(0x01, 0));
        aes::stream_is_its_own_inverse(
            keys.app_s_key@,
            frame.opening_block(0x01, 0),
            frame.payload,
        );
    }
}

/// A frame that opens seals back to the bytes it came from, where the bits
/// that a sealed frame leaves at zero are zero: the low five of the MAC header,
/// and all of frame control but the ACK bit.
pub proof fn opened_frame_seals_back(bytes: Seq<u8>, keys: Keys, fcnt_high: u16, frame: FrameView)
    requires
        opened(bytes, keys, fcnt_high) == Ok::<FrameView, Error>(frame),
        bytes[0] % 0x20 == 0,
        bytes[5] == 0 || bytes[5] == ACK,
    ensures
        frame.sealed(keys) == bytes,
        frame.counter_high() == fcnt_high,
{
    let body = bytes.take(bytes.len() - 4);
    let mic = bytes.skip(bytes.len() - 4);
    let header = header_of(body, frame.mtype, fcnt_high);
    lemma_u32_bytes_round(body.subrange(1, 5));
    lemma_full_counter(fcnt_high, body.subrange(6, 8));
    assert(frame.header() =~= body.take(9));
    assert(frame.opening_block(0x01, 0) == header.opening_block(0x01, 0));
    aes::stream_is_its_own_inverse(keys.app_s_key@, header.opening_block(0x01, 0), body.skip(9));
    assert(frame.crypted(keys, frame.payload) == body.skip(9));
    assert(frame.body(keys) =~= body);
    assert(frame.mic(keys, body) == header.mic(keys, body));
    assert(body + mic =~= bytes);
}

/// What a part carries of its stream: all of its payload on [`PORT_STREAM`], all
/// but the flags byte on [`PORT_FRAGMENT`].
pub open spec fn carried_by(part: Part) -> Seq<u8> {
    if part.0 == PORT_FRAGMENT {
        part.1.skip(1)
    } else {
        part.1
    }
}

/// What the first `n` of `parts` carry, in order.
pub open spec fn joined(parts: Seq<Part>, n: nat) -> Seq<u8>
    decreases n,
{
    if n == 0 {
        seq![]
    } else {
        joined(parts, (n - 1) as nat) + carried_by(parts[n - 1])
    }
}

/// The first `n` fragments carry the stream up to where fragment `n` begins, or
/// all of it.
pub proof fn fragments_join(bytes: Seq<u8>, n: nat)
    requires
        bytes.len() > MAX_FRM_PAYLOAD,
        n <= fragment_count(bytes.len()),
    ensures
        joined(stream_parts(bytes), n) == bytes.take(
            if n < fragment_count(bytes.len()) {
                n * MAX_FRAGMENT
            } else {
                bytes.len() as int
            },
        ),
    decreases n,
{
    lemma_fragment_layout(bytes.len(), n as int);
    if n == 0 {
        assert(joined(stream_parts(bytes), n) =~= bytes.take(0));
    } else {
        let i = n - 1;
        fragments_join(bytes, i as nat);
        lemma_fragment_layout(bytes.len(), i);
        assert(stream_parts(bytes)[i] == (PORT_FRAGMENT, fragment(bytes, i)));
        assert(carried_by(stream_parts(bytes)[i]) =~= fragment_bytes(bytes, i));
        assert(joined(stream_parts(bytes), n) =~= bytes.take(
            if n < fragment_count(bytes.len()) {
                221 * n as int
            } else {
                bytes.len() as int
            },
        ));
    }
}

/// The parts of a stream, joined in order, are the stream.
pub proof fn parts_join_to_the_stream(bytes: Seq<u8>)
    ensures
        joined(stream_parts(bytes), stream_parts(bytes).len()) == bytes,
{
    let parts = stream_parts(bytes);
    if bytes.len() <= MAX_FRM_PAYLOAD {
        assert(joined(parts, 0) =~= seq![]);
        assert(joined(parts, 1) =~= bytes);
    } else {
        fragments_join(bytes, parts.len());
        assert(bytes.take(bytes.len() as int) =~= bytes);
    }
}

/// Every stream has a part, the empty one too.
pub proof fn every_stream_has_a_part(bytes: Seq<u8>)
    ensures
        stream_parts(bytes).len() > 0,
{
    lemma_fragment_layout(bytes.len(), 0);
}

/// Every part of a stream fits a frame. A stream that fits one frame is one
/// part; of a longer one each part is a fragment with its flags byte and at
/// least one byte more, flagged as the first or the last where it is that and
/// nowhere else.
pub proof fn every_part_fits_a_frame(bytes: Seq<u8>, i: int)
    requires
        0 <= i < stream_parts(bytes).len(),
    ensures
        stream_parts(bytes)[i].1.len() <= MAX_FRM_PAYLOAD,
        bytes.len() <= MAX_FRM_PAYLOAD ==> stream_parts(bytes).len() == 1 && stream_parts(bytes)[i].0
            == PORT_STREAM,
        bytes.len() > MAX_FRM_PAYLOAD ==> {
            let part = stream_parts(bytes)[i];
            &&& stream_parts(bytes).len() > 1
            &&& part.0 == PORT_FRAGMENT
            &&& part.1.len() > 1
            &&& (part.1[0] & FIRST != 0 <==> i == 0)
            &&& (part.1[0] & LAST != 0 <==> i + 1 == stream_parts(bytes).len())
        },
{
    if bytes.len() > MAX_FRM_PAYLOAD {
        lemma_fragment_layout(bytes.len(), i);
        let flags = fragment_flags(i, fragment_count(bytes.len()));
        assert(stream_parts(bytes)[i].1[0] == flags);
        lemma_flag_bits(flags);
    }
}

/// The bits of the flags a fragment can have.
pub proof fn lemma_flag_bits(flags: u8)
    ensures
        flags & FIRST != 0 <==> flags / FIRST % 2 == 1,
        flags & LAST != 0 <==> flags >= LAST,
{
    assert((flags & 0x40 != 0 <==> flags / 0x40 % 2 == 1) && (flags & 0x80 != 0 <==> flags >= 0x80))
        by (bit_vector);
}

/// The values that the air knows: how much a frame and a fragment carry, the two
/// ports, the flags, the ACK bit, and the bits that name each type.
pub proof fn numbers_on_the_air()
    ensures
        MAX_FRM_PAYLOAD == 222,
        MAX_FRAGMENT == 221,
        PORT_STREAM == 1,
        PORT_FRAGMENT == 2,
        FIRST == 0x40,
        LAST == 0x80,
        ACK == 0x20,
        FOPTS_LEN == 0x0f,
        MType::UnconfirmedUp.code() == 2,
        MType::UnconfirmedDown.code() == 3,
        MType::ConfirmedUp.code() == 4,
        MType::ConfirmedDown.code() == 5,
{
}

/// A frame goes up or down, and asks for an acknowledgement or does not, as its
/// type says.
pub proof fn types_say_where_frames_go(mtype: MType)
    ensures
        mtype.goes_up() <==> mtype is UnconfirmedUp || mtype is ConfirmedUp,
        mtype.asks_ack() <==> mtype is ConfirmedUp || mtype is ConfirmedDown,
{
}

/// A frame, and what is stated of it, have the same fields.
pub proof fn frame_is_its_fields(frame: Frame)
    ensures
        frame@.mtype == frame.mtype,
        frame@.dev_addr == frame.dev_addr,
        frame@.ack == frame.ack,
        frame@.fcnt == frame.fcnt,
        frame@.port == frame.port,
        frame@.payload == frame.payload@,
{
}

/// Payloads and what is stated of them are the same, one for one.
pub proof fn parts_are_their_fields(payloads: Seq<(u8, Vec<u8>)>, i: int)
    requires
        0 <= i < payloads.len(),
    ensures
        parts_of(payloads).len() == payloads.len(),
        parts_of(payloads)[i].0 == payloads[i].0,
        parts_of(payloads)[i].1 == payloads[i].1@,
{
}

/// An outcome is the one stated exactly where both are refused alike or both
/// succeed with the same value.
pub proof fn same_outcome_is_equality(result: Result<Frame>, model: Result<FrameView>)
    ensures
        same_outcome(result, model) <==> {
            ||| result is Ok && model is Ok && result->Ok_0@ == model->Ok_0
            ||| result is Err && model is Err && result->Err_0 == model->Err_0
        },
{
}

/// Numbers lie with their lowest byte first, and are read as they lie.
pub proof fn numbers_lie_low_byte_first(n: u32, short: u16, bytes: Seq<u8>, high: u16)
    requires
        bytes.len() == 4,
    ensures
        u32_bytes(n).len() == 4,
        n == u32_bytes(n)[0] + 0x100 * u32_bytes(n)[1] + 0x1_0000 * u32_bytes(n)[2] + 0x100_0000
            * u32_bytes(n)[3],
        u16_bytes(short).len() == 2,
        short == u16_bytes(short)[0] + 0x100 * u16_bytes(short)[1],
        u32_of(bytes) == bytes[0] + 0x100 * bytes[1] + 0x1_0000 * bytes[2] + 0x100_0000 * bytes[3],
        full_counter(high, bytes) == 0x1_0000 * high + 0x100 * bytes[1] + bytes[0],
{
}

/// The block that opens a MIC or a key stream says whose frame it is: the way it
/// goes, zero for up and one for down, its device's address and its full
/// counter, each with its lowest byte first, between the two bytes given.
pub proof fn opening_block_names_the_frame(frame: FrameView, leading: u8, last: u8)
    ensures
        ({
            let block = frame.opening_block(leading, last);
            &&& block.len() == 16
            &&& block[0] == leading
            &&& block[1] == 0 && block[2] == 0 && block[3] == 0 && block[4] == 0
            &&& frame.mtype is UnconfirmedUp || frame.mtype is ConfirmedUp ==> block[5] == 0
            &&& frame.mtype is UnconfirmedDown || frame.mtype is ConfirmedDown ==> block[5] == 1
            &&& frame.dev_addr == block[6] + 0x100 * block[7] + 0x1_0000 * block[8] + 0x100_0000
                * block[9]
            &&& frame.fcnt == block[10] + 0x100 * block[11] + 0x1_0000 * block[12] + 0x100_0000
                * block[13]
            &&& block[14] == 0
            &&& block[15] == last
        }),
{
}

/// Two frames that go different ways, or are of different devices or counters,
/// open with different blocks, and no block of their key streams is the same.
pub proof fn streams_tell_frames_apart(
    a: FrameView,
    b: FrameView,
    keys: Keys,
    leading: u8,
    last: u8,
    index: int,
)
    requires
        a.mtype.goes_up() != b.mtype.goes_up() || a.dev_addr != b.dev_addr || a.fcnt != b.fcnt,
        0 <= index < 255,
    ensures
        a.opening_block(leading, last) != b.opening_block(leading, last),
        aes::cipher(keys.app_s_key@, a.opening_block(0x01, (index + 1) as u8)) != aes::cipher(
            keys.app_s_key@,
            b.opening_block(0x01, (index + 1) as u8),
        ),
{
    opening_block_names_the_frame(a, leading, last);
    opening_block_names_the_frame(b, leading, last);
    let (p, q) = (
        a.opening_block(0x01, (index + 1) as u8),
        b.opening_block(0x01, (index + 1) as u8),
    );
    opening_block_names_the_frame(a, 0x01, (index + 1) as u8);
    opening_block_names_the_frame(b, 0x01, (index + 1) as u8);
    assert(p != q);
    aes::cipher_is_one_to_one(keys.app_s_key@, p, q);
}

/// The four bytes of a MIC are the first four of the CMAC.
proof fn lemma_mic_bytes(frame: FrameView, keys: Keys, body: Seq<u8>, length: u8)
    requires
        length == (if body.len() <= 0xff {
            body.len() as u8
        } else {
            0xff
        }),
    ensures
        ({
            let mac = aes::cmac_of(keys.nwk_s_key@, frame.opening_block(0x49, length) + body);
            let mic = frame.mic(keys, body);
            &&& mic.len() == 4
            &&& mic[0] == mac[0] && mic[1] == mac[1] && mic[2] == mac[2] && mic[3] == mac[3]
        }),
{
    assert(length == length_byte(body.len()));
    aes::lemma_cmac_len(keys.nwk_s_key@, frame.opening_block(0x49, length) + body);
}

/// A sealed frame, byte by byte: the type in the high three bits of the first,
/// the address, the ACK bit alone in frame control, the low half of the counter,
/// the port; then each byte of the payload, added to the cipher of the block
/// that names the frame and counts from one; then the first four bytes of the
/// CMAC of all that, behind the block that names the frame and its length.
pub proof fn sealed_frame_lies_byte_by_byte(frame: FrameView, keys: Keys)
    ensures
        ({
            let bytes = frame.sealed(keys);
            let cut = frame.payload.len() as int + 9;
            let body = bytes.take(cut);
            let mac = aes::cmac_of(
                keys.nwk_s_key@,
                frame.opening_block(
                    0x49,
                    if cut <= 0xff {
                        cut as u8
                    } else {
                        0xff
                    },
                ) + body,
            );
            &&& bytes.len() == cut + 4
            &&& frame.mtype is UnconfirmedUp ==> bytes[0] == 0x40
            &&& frame.mtype is UnconfirmedDown ==> bytes[0] == 0x60
            &&& frame.mtype is ConfirmedUp ==> bytes[0] == 0x80
            &&& frame.mtype is ConfirmedDown ==> bytes[0] == 0xa0
            &&& frame.dev_addr == bytes[1] + 0x100 * bytes[2] + 0x1_0000 * bytes[3] + 0x100_0000
                * bytes[4]
            &&& bytes[5] == (if frame.ack {
                0x20u8
            } else {
                0u8
            })
            &&& frame.fcnt % 0x1_0000 == bytes[6] + 0x100 * bytes[7]
            &&& bytes[8] == frame.port
            &&& forall|i: int|
                0 <= i < frame.payload.len() ==> #[trigger] bytes[9 + i] == frame.payload[i]
                    ^ aes::cipher(
                    keys.app_s_key@,
                    frame.opening_block(
                        0x01,
                        if i / 16 < 255 {
                            (i / 16 + 1) as u8
                        } else {
                            0xff
                        },
                    ),
                )[i % 16]
            &&& bytes[cut] == mac[0] && bytes[cut + 1] == mac[1] && bytes[cut + 2] == mac[2]
                && bytes[cut + 3] == mac[3]
        }),
{
    let bytes = frame.sealed(keys);
    let cut = frame.payload.len() as int + 9;
    let body = frame.body(keys);
    lemma_mic_len(frame, keys, body);
    assert(bytes.take(cut) =~= body);
    assert(frame.header().len() == 9);
    let first = frame.opening_block(0x01, 0);
    assert forall|i: int| 0 <= i < frame.payload.len() implies #[trigger] bytes[9 + i]
        == frame.payload[i] ^ aes::cipher(
        keys.app_s_key@,
        frame.opening_block(
            0x01,
            if i / 16 < 255 {
                (i / 16 + 1) as u8
            } else {
                0xff
            },
        ),
    )[i % 16] by {
        let count = if i / 16 < 255 {
            (i / 16 + 1) as u8
        } else {
            0xff
        };
        assert(first.update(15, count) =~= frame.opening_block(0x01, count));
        aes::stream_counts_its_blocks(keys.app_s_key@, first, frame.payload, i);
        assert(bytes[9 + i] == frame.crypted(keys, frame.payload)[i]);
    }
    lemma_mic_bytes(
        frame,
        keys,
        body,
        if cut <= 0xff {
            cut as u8
        } else {
            0xff
        },
    );
    assert(bytes[cut] == frame.mic(keys, body)[0]);
    assert(bytes[cut + 1] == frame.mic(keys, body)[1]);
    assert(bytes[cut + 2] == frame.mic(keys, body)[2]);
    assert(bytes[cut + 3] == frame.mic(keys, body)[3]);
}

/// What bytes open to: the first reason against them that holds, else the frame
/// whose fields they lay out, its payload out of the key stream.
pub proof fn bytes_open_to_what_they_lay_out(bytes: Seq<u8>, keys: Keys, fcnt_high: u16)
    ensures
        ({
            let cut = bytes.len() - 4;
            let code = bytes[0] / 0x20;
            let named = FrameView {
                mtype: if code == 2 {
                    MType::UnconfirmedUp
                } else if code == 3 {
                    MType::UnconfirmedDown
                } else if code == 4 {
                    MType::ConfirmedUp
                } else {
                    MType::ConfirmedDown
                },
                dev_addr: (bytes[1] + 0x100 * bytes[2] + 0x1_0000 * bytes[3] + 0x100_0000
                    * bytes[4]) as u32,
                ack: bytes[5] / 0x20 % 2 == 1,
                fcnt: (0x1_0000 * fcnt_high + 0x100 * bytes[7] + bytes[6]) as u32,
                port: bytes[8],
                payload: seq![],
            };
            let mac = aes::cmac_of(
                keys.nwk_s_key@,
                named.opening_block(
                    0x49,
                    if cut <= 0xff {
                        cut as u8
                    } else {
                        0xff
                    },
                ) + bytes.take(cut),
            );
            match opened(bytes, keys, fcnt_high) {
                Err(error) => if bytes.len() < 13 {
                    error == Error::CutOff
                } else if code < 2 || code > 5 {
                    error == Error::MessageType(code)
                } else if bytes[5] % 0x10 != 0 {
                    error == Error::FrameOptions
                } else {
                    error == Error::Mic && !(bytes[cut] == mac[0] && bytes[cut + 1] == mac[1]
                        && bytes[cut + 2] == mac[2] && bytes[cut + 3] == mac[3])
                },
                Ok(frame) => {
                    &&& bytes.len() >= 13
                    &&& 2 <= code <= 5
                    &&& bytes[5] % 0x10 == 0
                    &&& bytes[cut] == mac[0] && bytes[cut + 1] == mac[1] && bytes[cut + 2] == mac[2]
                        && bytes[cut + 3] == mac[3]
                    &&& frame == (FrameView { payload: frame.payload, ..named })
                    &&& frame.payload.len() == bytes.len() - 13
                    &&& forall|i: int|
                        0 <= i < frame.payload.len() ==> #[trigger] frame.payload[i] == bytes[9 + i]
                            ^ aes::cipher(
                            keys.app_s_key@,
                            frame.opening_block(
                                0x01,
                                if i / 16 < 255 {
                                    (i / 16 + 1) as u8
                                } else {
                                    0xff
                                },
                            ),
                        )[i % 16]
                },
            }
        }),
{
    let cut = bytes.len() - 4;
    let code = bytes[0] / 0x20;
    if bytes.len() >= 13 && 2 <= code <= 5 && bytes[5] % 0x10 == 0 {
        let body = bytes.take(cut);
        let mic = bytes.skip(cut);
        let mtype = MType::of_code(code)->0;
        let header = header_of(body, mtype, fcnt_high);
        let (addr, low) = (body.subrange(1, 5), body.subrange(6, 8));
        assert(addr[0] == bytes[1] && addr[1] == bytes[2] && addr[2] == bytes[3] && addr[3]
            == bytes[4]);
        assert(low[0] == bytes[6] && low[1] == bytes[7]);
        let named = header.mic(keys, body);
        lemma_mic_bytes(
            header,
            keys,
            body,
            if cut <= 0xff {
                cut as u8
            } else {
                0xff
            },
        );
        assert(mic[0] == bytes[cut] && mic[1] == bytes[cut + 1] && mic[2] == bytes[cut + 2] && mic[3]
            == bytes[cut + 3]);
        if named[0] == mic[0] && named[1] == mic[1] && named[2] == mic[2] && named[3] == mic[3] {
            assert(named =~= mic);
            let frame = opened(bytes, keys, fcnt_high)->Ok_0;
            let rest = body.skip(9);
            let first = header.opening_block(0x01, 0);
            assert forall|i: int| 0 <= i < frame.payload.len() implies #[trigger] frame.payload[i]
                == bytes[9 + i] ^ aes::cipher(
                keys.app_s_key@,
                frame.opening_block(
                    0x01,
                    if i / 16 < 255 {
                        (i / 16 + 1) as u8
                    } else {
                        0xff
                    },
                ),
            )[i % 16] by {
                let count = if i / 16 < 255 {
                    (i / 16 + 1) as u8
                } else {
                    0xff
                };
                assert(first.update(15, count) =~= frame.opening_block(0x01, count));
                aes::stream_counts_its_blocks(keys.app_s_key@, first, rest, i);
                assert(rest[i] == bytes[9 + i]);
            }
        }
    }
}

/// How a stream is carried: whole on the first port where it fits; else part `i`
/// is a fragment on the second, its flags and then the bytes from `221 * i` on,
/// as many as there are up to 221, and the parts end where the stream does.
pub proof fn parts_lie_end_to_end(bytes: Seq<u8>, i: int)
    requires
        0 <= i < stream_parts(bytes).len(),
    ensures
        bytes.len() <= 222 ==> stream_parts(bytes).len() == 1 && stream_parts(bytes)[i] == (
            1u8,
            bytes,
        ),
        bytes.len() > 222 ==> {
            let parts = stream_parts(bytes);
            let part = parts[i].1;
            &&& 221 * (parts.len() - 1) < bytes.len() <= 221 * parts.len()
            &&& parts[i].0 == 2
            &&& part[0] == (if i == 0 {
                0x40u8
            } else if i + 1 == parts.len() {
                0x80u8
            } else {
                0u8
            })
            &&& part.len() == (if i + 1 < parts.len() {
                222
            } else {
                1 + bytes.len() - 221 * i
            })
            &&& forall|j: int| 1 <= j < part.len() ==> #[trigger] part[j] == bytes[221 * i + j - 1]
        },
{
    lemma_fragment_layout(bytes.len(), i);
    if bytes.len() > 222 {
        let n = stream_parts(bytes).len();
        assert(n == (bytes.len() + 220) / 221);
        assert(stream_parts(bytes)[i].1 == fragment(bytes, i));
    }
}

/// What the parts of a stream carry, joined, and what is meant by that.
pub proof fn joining_takes_the_flags_off(parts: Seq<Part>, n: nat)
    ensures
        joined(parts, 0).len() == 0,
        n >= 1 ==> joined(parts, n) == joined(parts, (n - 1) as nat) + (if parts[n - 1].0 == 2 {
            parts[n - 1].1.skip(1)
        } else {
            parts[n - 1].1
        }),
{
}

} // verus!
