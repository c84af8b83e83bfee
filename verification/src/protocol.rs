//! Wire framing: v1 (a one-byte length, then the body) and v2 (a marker, a
//! `u16` length, a version byte and a correlation id before the body).

use crate::auth::validate_token;
use crate::error::DmqError;
use crate::message::{
    encode_message, lemma_message_roundtrip, message_encodable, message_fits_wire, parse_frame, parseable_body, parsed_as,
    spec_encode_message, spec_parse_frame, HandshakeRequest, Message, MessageView,
};
use crate::text::{bytes_eq, bytes_eq_ignore_case, decimal, decimal_string, eq_ignore_case};
use crate::wire::{be16, be32, get_u32, lemma_u32_window, put_bytes, put_u16, put_u32, u32_at};
use vstd::prelude::*;

verus! {

pub const PROTOCOL_V1: u16 = 1;

pub const PROTOCOL_V2: u16 = 2;

pub const MAX_PROTOCOL_VERSION: u16 = 2;

/// The v2 body layout after the `u16` length:
/// `[version: u8 = 2][correlation_id: u32 BE][msg_type: u8][payload...]`.
pub const V2_HEADER_LEN: usize = 6;

#[derive(Debug, Clone, PartialEq, Eq)]
pub struct Frame {
    pub correlation_id: u32,
    pub message: Message,
}

pub struct FrameView {
    pub correlation_id: u32,
    pub message: MessageView,
}

impl View for Frame {
    type V = FrameView;

    open spec fn view(&self) -> FrameView {
        FrameView { correlation_id: self.correlation_id, message: self.message@ }
    }
}

#[derive(Debug, Clone, Copy, PartialEq, Eq)]
pub enum WireFormat {
    V1,
    V2,
}

impl Frame {
    /// A v1 frame, which carries no correlation id.
    pub fn v1(message: Message) -> (f: Frame)
        ensures
            f.correlation_id == 0,
            f.message == message,
    {
        Frame { correlation_id: 0, message }
    }

    pub fn v2(correlation_id: u32, message: Message) -> (f: Frame)
        ensures
            f.correlation_id == correlation_id,
            f.message == message,
    {
        Frame { correlation_id, message }
    }
}

/// Whether an on/off setting is on: `1`, or `true` in any case.
pub open spec fn setting_on(value: Seq<u8>) -> bool {
    value == seq![49u8] || eq_ignore_case(value, seq![116u8, 114u8, 117u8, 101u8])
}

/// Reads an on/off setting (absent means off); the legacy dial-back and the
/// handshake requirement are read this way.
pub fn flag_enabled(setting: Option<&[u8]>) -> (r: bool)
    ensures
        r == match setting {
            Some(v) => setting_on(v@),
            None => false,
        },
{
    match setting {
        Some(v) => {
            let one: [u8; 1] = [49u8];
            let t: [u8; 4] = [116u8, 114u8, 117u8, 101u8];
            assert(one@ =~= seq![49u8]);
            assert(t@ =~= seq![116u8, 114u8, 117u8, 101u8]);
            bytes_eq(v, one.as_slice()) || bytes_eq_ignore_case(v, t.as_slice())
        },
        None => false,
    }
}

/// The protocol version a broker speaks: the configured one (2 when unset or
/// unreadable), brought into `1 ..= MAX_PROTOCOL_VERSION`.
pub fn negotiated_version(configured: Option<u16>) -> (v: u16)
    ensures
        v == match configured {
            Some(c) => if c < PROTOCOL_V1 {
                PROTOCOL_V1
            } else if c > MAX_PROTOCOL_VERSION {
                MAX_PROTOCOL_VERSION
            } else {
                c
            },
            None => PROTOCOL_V2,
        },
{
    let c = match configured {
        Some(c) => c,
        None => PROTOCOL_V2,
    };
    if c < PROTOCOL_V1 {
        PROTOCOL_V1
    } else if c > MAX_PROTOCOL_VERSION {
        MAX_PROTOCOL_VERSION
    } else {
        c
    }
}

/// Accepts a requested protocol version in `1 ..= MAX_PROTOCOL_VERSION`; any other
/// is refused with code 1.
pub fn validate_protocol_version(requested: u16) -> (r: Result<u16, u8>)
    ensures
        r == if requested == 0 || requested > MAX_PROTOCOL_VERSION {
            Err::<u16, u8>(1)
        } else {
            Ok(requested)
        },
{
    if requested == 0 || requested > MAX_PROTOCOL_VERSION {
        Err(1)
    } else {
        Ok(requested)
    }
}

/// The refusal text for an unsupported protocol version.
pub open spec fn version_refusal(requested: u16) -> Seq<char> {
    "unsupported protocol version "@ + decimal(requested as nat) + "; max supported "@ + decimal(
        MAX_PROTOCOL_VERSION as nat,
    )
}

/// Answers a handshake: a token that does not match the configured one is refused
/// with code 2, then the requested version is checked (code 1 when refused). On
/// success, the agreed version.
pub fn process_handshake(req: &HandshakeRequest, expected_token: Option<&[u8]>) -> (r: Result<u16, (u8, String)>)
    ensures
        match r {
            Ok(v) => (match expected_token {
                None => true,
                Some(e) => req.auth_token@ == e@,
            }) && v == req.protocol_version && 1 <= v <= MAX_PROTOCOL_VERSION,
            Err((code, text)) => if !(match expected_token {
                None => true,
                Some(e) => req.auth_token@ == e@,
            }) {
                code == 2 && text@ == "invalid auth token"@
            } else {
                code == 1 && (req.protocol_version == 0 || req.protocol_version > MAX_PROTOCOL_VERSION) && text@
                    == version_refusal(req.protocol_version)
            },
        },
{
    match validate_token(req.auth_token.as_slice(), expected_token) {
        Ok(()) => {},
        Err(_) => {
            return Err((2, "invalid auth token".to_string()));
        },
    }
    match validate_protocol_version(req.protocol_version) {
        Ok(v) => Ok(v),
        Err(code) => {
            let mut text = "unsupported protocol version ".to_string();
            let v = decimal_string(req.protocol_version as u64);
            text.append(v.as_str());
            text.append("; max supported ");
            let m = decimal_string(MAX_PROTOCOL_VERSION as u64);
            text.append(m.as_str());
            Err((code, text))
        },
    }
}

/// What a v2 frame body stands for.
pub open spec fn spec_parse_v2_body(body: Seq<u8>) -> Result<FrameView, DmqError> {
    if body.len() < V2_HEADER_LEN {
        Err(DmqError::FrameTooShort)
    } else if body[0] != 2 {
        Err(DmqError::UnsupportedFrameVersion(body[0]))
    } else {
        match spec_parse_frame(body.subrange(5, body.len() as int)) {
            Ok(m) => Ok(FrameView { correlation_id: u32_at(body, 1), message: m }),
            Err(e) => Err(e),
        }
    }
}

/// Decodes a v2 frame body.
pub fn parse_v2_body(body: &[u8]) -> (r: Result<(Frame, WireFormat), DmqError>)
    requires
        body@.len() >= V2_HEADER_LEN ==> parseable_body(body@.subrange(5, body@.len() as int)),
    ensures
        match r {
            Ok((f, w)) => w == WireFormat::V2 && spec_parse_v2_body(body@) == Ok::<FrameView, DmqError>(f@),
            Err(e) => spec_parse_v2_body(body@) == Err::<FrameView, DmqError>(e),
        },
{
    if body.len() < V2_HEADER_LEN {
        return Err(DmqError::FrameTooShort);
    }
    let version = body[0];
    if version != 2 {
        return Err(DmqError::UnsupportedFrameVersion(version));
    }
    let correlation_id = get_u32(body, 1);
    let (_, rest) = body.split_at(5);
    assert(rest@ =~= body@.subrange(5, body@.len() as int));
    let message = parse_frame(rest)?;
    Ok((Frame::v2(correlation_id, message), WireFormat::V2))
}

/// The v2 wire form of a frame: `0xFF`, `2`, the body length (taken modulo
/// 2^16, as the slot holds), then the body.
pub open spec fn spec_v2_wire(f: FrameView) -> Seq<u8> {
    let inner = spec_encode_message(f.message);
    seq![0xFFu8, 2u8] + be16((V2_HEADER_LEN - 1 + inner.len()) as u16) + seq![2u8] + be32(f.correlation_id) + inner
}

/// Encodes a frame for a v2 stream.
pub fn encode_v2_frame(frame: &Frame) -> (r: Result<Vec<u8>, DmqError>)
    requires
        message_encodable(frame.message@),
        spec_encode_message(frame.message@).len() + V2_HEADER_LEN <= usize::MAX,
    ensures
        match r {
            Ok(v) => v@ == spec_v2_wire(frame@),
            Err(_) => false,
        },
{
    let inner = encode_message(&frame.message)?;
    let body_len = V2_HEADER_LEN - 1 + inner.len();
    let mut wire: Vec<u8> = Vec::new();
    wire.push(0xFFu8);
    wire.push(2u8);
    put_u16(&mut wire, body_len as u16);
    wire.push(2u8);
    put_u32(&mut wire, frame.correlation_id);
    put_bytes(&mut wire, inner.as_slice());
    assert(wire@ =~= spec_v2_wire(frame@));
    Ok(wire)
}

/// A frame read back from its v2 encoding is the frame that was written: the
/// body after the four-byte prefix parses to the same correlation id and message.
pub proof fn lemma_v2_roundtrip(f: FrameView)
    requires
        message_fits_wire(f.message),
    ensures
        spec_v2_wire(f).len() >= 4,
        spec_v2_wire(f).subrange(4, spec_v2_wire(f).len() as int).len() >= V2_HEADER_LEN,
        parseable_body(spec_v2_wire(f).subrange(4, spec_v2_wire(f).len() as int).subrange(
            5,
            spec_v2_wire(f).len() - 4,
        )),
        spec_parse_v2_body(spec_v2_wire(f).subrange(4, spec_v2_wire(f).len() as int)) == Ok::<FrameView, DmqError>(f),
{
    let w = spec_v2_wire(f);
    let inner = spec_encode_message(f.message);
    let body = w.subrange(4, w.len() as int);
    assert(body =~= seq![2u8] + be32(f.correlation_id) + inner);
    lemma_message_roundtrip(f.message);
    assert(inner.len() >= 1);
    assert(body.subrange(5, body.len() as int) =~= inner);
    assert(body.subrange(1, 5) =~= be32(f.correlation_id));
    lemma_u32_window(body, 1, f.correlation_id);
}


/// The v1 wire form of a message: the body length as one byte (taken modulo
/// 256, as the slot holds), then the body.
pub open spec fn spec_v1_wire(m: MessageView) -> Seq<u8> {
    seq![spec_encode_message(m).len() as u8] + spec_encode_message(m)
}

/// Encodes a message for a v1 stream.
pub fn encode_v1_frame(message: &Message) -> (r: Result<Vec<u8>, DmqError>)
    requires
        message_encodable(message@),
    ensures
        match r {
            Ok(v) => v@ == spec_v1_wire(message@),
            Err(_) => false,
        },
{
    let inner = encode_message(message)?;
    let mut wire: Vec<u8> = Vec::new();
    wire.push(inner.len() as u8);
    put_bytes(&mut wire, inner.as_slice());
    assert(wire@ =~= spec_v1_wire(message@));
    Ok(wire)
}

/// Whether a connection stays open after answering `message`: after a
/// handshake, and on a v2 stream that agreed protocol version 2 or later.
pub fn keeps_connection_open(message: &Message, format: WireFormat, protocol_version: u16) -> (r: bool)
    ensures
        r == (message@ is Handshake || (format == WireFormat::V2 && protocol_version >= PROTOCOL_V2)),
{
    match message {
        Message::Handshake(_) => true,
        _ => match format {
            WireFormat::V2 => protocol_version >= PROTOCOL_V2,
            WireFormat::V1 => false,
        },
    }
}

} // verus!
