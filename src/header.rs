//! The fixed 16-byte SomeIP header.
use vstd::prelude::*;
use crate::error::SomeIPError;
use crate::wire::{be16, be32, read_u16, read_u32};

verus! {

/// The SomeIP header. `length` counts the payload plus the eight header bytes
/// that follow the length field.
#[derive(Debug, Clone, Copy, PartialEq, Eq, Structural)]
pub struct SomeIPHeader {
    pub service_id: u16,
    pub method_id: u16,
    pub length: u32,
    pub client_id: u16,
    pub session_id: u16,
    pub protocol_version: u8,
    pub interface_version: u8,
    pub message_type: MessageType,
    pub return_code: ReturnCode,
}

/// The message-type byte. A byte without a defined meaning (including every
/// byte with the SomeIP-TP bit 0x20 set) is kept in `Unknown`.
#[derive(Debug, Clone, Copy, PartialEq, Eq, Structural)]
pub enum MessageType {
    Request,
    RequestNoReturn,
    Notification,
    RequestACK,
    RequestNoReturnACK,
    NotificationACK,
    Response,
    Error,
    ResponseACK,
    ErrorACK,
    Unknown(u8),
}

#[derive(Debug, Clone, Copy, PartialEq, Eq, Structural)]
pub enum ReturnCode {
    Okay,
    NotOk,
    UnknownService,
    UnknownMethod,
    NotReady,
    NotReachable,
    Timeout,
    WrongProtocolVersion,
    WrongInterfaceVersion,
    MalformedMessage,
    WrongMessageType,
    Unknown(u8),
}

/// The variant that a message-type byte decodes to.
pub open spec fn message_type_of(value: u8) -> MessageType {
    if value == 0x00 {
        MessageType::Request
    } else if value == 0x01 {
        MessageType::RequestNoReturn
    } else if value == 0x02 {
        MessageType::Notification
    } else if value == 0x40 {
        MessageType::RequestACK
    } else if value == 0x41 {
        MessageType::RequestNoReturnACK
    } else if value == 0x42 {
        MessageType::NotificationACK
    } else if value == 0x80 {
        MessageType::Response
    } else if value == 0x81 {
        MessageType::Error
    } else if value == 0xC0 {
        MessageType::ResponseACK
    } else if value == 0xC1 {
        MessageType::ErrorACK
    } else {
        MessageType::Unknown(value)
    }
}

/// The byte a message type is written as.
pub open spec fn message_type_code(m: MessageType) -> u8 {
    match m {
        MessageType::Request => 0x00,
        MessageType::RequestNoReturn => 0x01,
        MessageType::Notification => 0x02,
        MessageType::RequestACK => 0x40,
        MessageType::RequestNoReturnACK => 0x41,
        MessageType::NotificationACK => 0x42,
        MessageType::Response => 0x80,
        MessageType::Error => 0x81,
        MessageType::ResponseACK => 0xC0,
        MessageType::ErrorACK => 0xC1,
        MessageType::Unknown(v) => v,
    }
}

/// The variant that a return-code byte decodes to.
pub open spec fn return_code_of(value: u8) -> ReturnCode {
    if value == 0x00 {
        ReturnCode::Okay
    } else if value == 0x01 {
        ReturnCode::NotOk
    } else if value == 0x02 {
        ReturnCode::UnknownService
    } else if value == 0x03 {
        ReturnCode::UnknownMethod
    } else if value == 0x04 {
        ReturnCode::NotReady
    } else if value == 0x05 {
        ReturnCode::NotReachable
    } else if value == 0x06 {
        ReturnCode::Timeout
    } else if value == 0x07 {
        ReturnCode::WrongProtocolVersion
    } else if value == 0x08 {
        ReturnCode::WrongInterfaceVersion
    } else if value == 0x09 {
        ReturnCode::MalformedMessage
    } else if value == 0x0A {
        ReturnCode::WrongMessageType
    } else {
        ReturnCode::Unknown(value)
    }
}

/// The byte a return code is written as.
pub open spec fn return_code_code(r: ReturnCode) -> u8 {
    match r {
        ReturnCode::Okay => 0x00,
        ReturnCode::NotOk => 0x01,
        ReturnCode::UnknownService => 0x02,
        ReturnCode::UnknownMethod => 0x03,
        ReturnCode::NotReady => 0x04,
        ReturnCode::NotReachable => 0x05,
        ReturnCode::Timeout => 0x06,
        ReturnCode::WrongProtocolVersion => 0x07,
        ReturnCode::WrongInterfaceVersion => 0x08,
        ReturnCode::MalformedMessage => 0x09,
        ReturnCode::WrongMessageType => 0x0A,
        ReturnCode::Unknown(v) => v,
    }
}

/// A header whose `Unknown` variants hold only bytes without a named variant,
/// as every decoded header does.
pub open spec fn header_canonical(h: SomeIPHeader) -> bool {
    &&& message_type_of(message_type_code(h.message_type)) == h.message_type
    &&& return_code_of(return_code_code(h.return_code)) == h.return_code
}

/// The header that the first 16 bytes of `s` encode.
pub open spec fn header_of(s: Seq<u8>) -> SomeIPHeader
    recommends
        s.len() >= 16,
{
    SomeIPHeader {
        service_id: be16(s, 0) as u16,
        method_id: be16(s, 2) as u16,
        length: be32(s, 4) as u32,
        client_id: be16(s, 8) as u16,
        session_id: be16(s, 10) as u16,
        protocol_version: s[12],
        interface_version: s[13],
        message_type: message_type_of(s[14]),
        return_code: return_code_of(s[15]),
    }
}

/// The 16 bytes a header is written as.
pub open spec fn header_bytes(h: SomeIPHeader) -> Seq<u8> {
    seq![
        (h.service_id / 256) as u8, (h.service_id % 256) as u8,
        (h.method_id / 256) as u8, (h.method_id % 256) as u8,
        (h.length / 16777216) as u8, ((h.length / 65536) % 256) as u8,
        ((h.length / 256) % 256) as u8, (h.length % 256) as u8,
        (h.client_id / 256) as u8, (h.client_id % 256) as u8,
        (h.session_id / 256) as u8, (h.session_id % 256) as u8,
        h.protocol_version, h.interface_version,
        message_type_code(h.message_type), return_code_code(h.return_code),
    ]
}

/// The message-type byte carries the SomeIP-TP flag (0x20).
pub open spec fn tp_flagged(h: SomeIPHeader) -> bool {
    (message_type_code(h.message_type) / 32) % 2 == 1
}

impl SomeIPHeader {
    /// The key that pairs requests with responses and fragments with each
    /// other: (service, client, session).
    pub open spec fn key(self) -> (u16, u16, u16) {
        (self.service_id, self.client_id, self.session_id)
    }
}

impl MessageType {
    pub fn as_u8(&self) -> (r: u8)
        ensures
            r == message_type_code(*self),
    {
        match self {
            MessageType::Request => 0x00,
            MessageType::RequestNoReturn => 0x01,
            MessageType::Notification => 0x02,
            MessageType::RequestACK => 0x40,
            MessageType::RequestNoReturnACK => 0x41,
            MessageType::NotificationACK => 0x42,
            MessageType::Response => 0x80,
            MessageType::Error => 0x81,
            MessageType::ResponseACK => 0xC0,
            MessageType::ErrorACK => 0xC1,
            MessageType::Unknown(v) => *v,
        }
    }
}

impl ReturnCode {
    pub fn as_u8(&self) -> (r: u8)
        ensures
            r == return_code_code(*self),
    {
        match self {
            ReturnCode::Okay => 0x00,
            ReturnCode::NotOk => 0x01,
            ReturnCode::UnknownService => 0x02,
            ReturnCode::UnknownMethod => 0x03,
            ReturnCode::NotReady => 0x04,
            ReturnCode::NotReachable => 0x05,
            ReturnCode::Timeout => 0x06,
            ReturnCode::WrongProtocolVersion => 0x07,
            ReturnCode::WrongInterfaceVersion => 0x08,
            ReturnCode::MalformedMessage => 0x09,
            ReturnCode::WrongMessageType => 0x0A,
            ReturnCode::Unknown(v) => *v,
        }
    }
}

pub fn parse_message_type(value: u8) -> (r: MessageType)
    ensures
        r == message_type_of(value),
{
    match value {
        0x00 => MessageType::Request,
        0x01 => MessageType::RequestNoReturn,
        0x02 => MessageType::Notification,
        0x40 => MessageType::RequestACK,
        0x41 => MessageType::RequestNoReturnACK,
        0x42 => MessageType::NotificationACK,
        0x80 => MessageType::Response,
        0x81 => MessageType::Error,
        0xC0 => MessageType::ResponseACK,
        0xC1 => MessageType::ErrorACK,
        _ => MessageType::Unknown(value),
    }
}

pub fn parse_return_code(value: u8) -> (r: ReturnCode)
    ensures
        r == return_code_of(value),
{
    match value {
        0x00 => ReturnCode::Okay,
        0x01 => ReturnCode::NotOk,
        0x02 => ReturnCode::UnknownService,
        0x03 => ReturnCode::UnknownMethod,
        0x04 => ReturnCode::NotReady,
        0x05 => ReturnCode::NotReachable,
        0x06 => ReturnCode::Timeout,
        0x07 => ReturnCode::WrongProtocolVersion,
        0x08 => ReturnCode::WrongInterfaceVersion,
        0x09 => ReturnCode::MalformedMessage,
        0x0A => ReturnCode::WrongMessageType,
        _ => ReturnCode::Unknown(value),
    }
}

/// Decodes the header at the start of `input`; fails exactly when fewer than
/// 16 bytes are given.
pub fn parse_someip_header(input: &[u8]) -> (r: Result<SomeIPHeader, SomeIPError>)
    ensures
        input@.len() >= 16 ==> r == Ok::<SomeIPHeader, SomeIPError>(header_of(input@)),
        input@.len() < 16 ==> r == Err::<SomeIPHeader, SomeIPError>(
            SomeIPError::InvalidPacketFormat,
        ),
{
    if input.len() < 16 {
        return Err(SomeIPError::InvalidPacketFormat);
    }
    Ok(
        SomeIPHeader {
            service_id: read_u16(input, 0),
            method_id: read_u16(input, 2),
            length: read_u32(input, 4),
            client_id: read_u16(input, 8),
            session_id: read_u16(input, 10),
            protocol_version: input[12],
            interface_version: input[13],
            message_type: parse_message_type(input[14]),
            return_code: parse_return_code(input[15]),
        },
    )
}

/// Decodes a header and reports how many bytes it took.
pub fn parse_someip_header_wrapper(input: &[u8]) -> (r: Result<(SomeIPHeader, usize), SomeIPError>)
    ensures
        input@.len() >= 16 ==> r == Ok::<(SomeIPHeader, usize), SomeIPError>(
            (header_of(input@), 16usize),
        ),
        input@.len() < 16 ==> r == Err::<(SomeIPHeader, usize), SomeIPError>(
            SomeIPError::InvalidPacketFormat,
        ),
{
    match parse_someip_header(input) {
        Ok(h) => Ok((h, 16)),
        Err(e) => Err(e),
    }
}

/// Writes a header as its 16 bytes.
pub fn encode_someip_header(h: &SomeIPHeader) -> (r: Vec<u8>)
    ensures
        r@ == header_bytes(*h),
{
    let mut r: Vec<u8> = Vec::with_capacity(16);
    r.push((h.service_id / 256) as u8);
    r.push((h.service_id % 256) as u8);
    r.push((h.method_id / 256) as u8);
    r.push((h.method_id % 256) as u8);
    r.push((h.length / 16777216) as u8);
    r.push(((h.length / 65536) % 256) as u8);
    r.push(((h.length / 256) % 256) as u8);
    r.push((h.length % 256) as u8);
    r.push((h.client_id / 256) as u8);
    r.push((h.client_id % 256) as u8);
    r.push((h.session_id / 256) as u8);
    r.push((h.session_id % 256) as u8);
    r.push(h.protocol_version);
    r.push(h.interface_version);
    r.push(h.message_type.as_u8());
    r.push(h.return_code.as_u8());
    assert(r@ =~= header_bytes(*h));
    r
}

/// Decoding a written header gives the header back, for every defined
/// message-type and return-code variant and for every undefined byte carried
/// in `Unknown`.
pub proof fn lemma_header_decode_encode(h: SomeIPHeader)
    requires
        header_canonical(h),
    ensures
        header_of(header_bytes(h)) == h,
{
    let s = header_bytes(h);
    assert(be16(s, 0) == h.service_id as int);
    assert(be16(s, 2) == h.method_id as int);
    assert(be16(s, 8) == h.client_id as int);
    assert(be16(s, 10) == h.session_id as int);
    assert(be32(s, 4) == h.length as int);
}

proof fn lemma_split16(a: u8, b: u8)
    ensures
        (a as int * 256 + b as int) / 256 == a as int,
        (a as int * 256 + b as int) % 256 == b as int,
{
    assert((a as int * 256 + b as int) / 256 == a as int) by (nonlinear_arith)
        requires 0 <= b < 256;
    assert((a as int * 256 + b as int) % 256 == b as int) by (nonlinear_arith)
        requires 0 <= b < 256;
}

proof fn lemma_split32(a: u8, b: u8, c: u8, d: u8)
    ensures
        ({
            let v = a as int * 16777216 + b as int * 65536 + c as int * 256 + d as int;
            &&& v / 16777216 == a as int
            &&& (v / 65536) % 256 == b as int
            &&& (v / 256) % 256 == c as int
            &&& v % 256 == d as int
        }),
{
    let v = a as int * 16777216 + b as int * 65536 + c as int * 256 + d as int;
    assert(v / 16777216 == a as int) by (nonlinear_arith)
        requires v == a as int * 16777216 + b as int * 65536 + c as int * 256 + d as int,
            0 <= b < 256, 0 <= c < 256, 0 <= d < 256;
    assert(v / 65536 == a as int * 256 + b as int) by (nonlinear_arith)
        requires v == a as int * 16777216 + b as int * 65536 + c as int * 256 + d as int,
            0 <= c < 256, 0 <= d < 256;
    assert(v / 256 == (a as int * 256 + b as int) * 256 + c as int) by (nonlinear_arith)
        requires v == a as int * 16777216 + b as int * 65536 + c as int * 256 + d as int,
            0 <= d < 256;
    assert(v % 256 == d as int) by (nonlinear_arith)
        requires v == a as int * 16777216 + b as int * 65536 + c as int * 256 + d as int,
            0 <= d < 256;
    assert(((a as int * 256 + b as int) * 256 + c as int) % 256 == c as int) by (nonlinear_arith)
        requires 0 <= c < 256;
    assert((a as int * 256 + b as int) % 256 == b as int) by (nonlinear_arith)
        requires 0 <= b < 256;
}

/// Writing a decoded header gives back the 16 bytes it was decoded from.
pub proof fn lemma_header_encode_decode(s: Seq<u8>)
    requires
        s.len() == 16,
    ensures
        header_bytes(header_of(s)) == s,
{
    let h = header_of(s);
    lemma_split16(s[0], s[1]);
    lemma_split16(s[2], s[3]);
    lemma_split16(s[8], s[9]);
    lemma_split16(s[10], s[11]);
    lemma_split32(s[4], s[5], s[6], s[7]);
    assert(message_type_code(message_type_of(s[14])) == s[14]);
    assert(return_code_code(return_code_of(s[15])) == s[15]);
    assert(header_bytes(h) =~= s);
}

/// Every decoded header is canonical.
pub proof fn lemma_decoded_header_canonical(s: Seq<u8>)
    requires
        s.len() >= 16,
    ensures
        header_canonical(header_of(s)),
{
    assert(message_type_code(message_type_of(s[14])) == s[14]);
    assert(return_code_code(return_code_of(s[15])) == s[15]);
}

} // verus!
