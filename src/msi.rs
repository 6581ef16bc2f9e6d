//! Framing of concatenated SomeIP messages: multi-service-indication
//! containers and reassembled TCP byte streams.
use vstd::prelude::*;
use crate::error::SomeIPError;
use crate::header::{header_of, parse_message_type, parse_return_code, SomeIPHeader};
use crate::wire::{be32, copy_range, read_u16, read_u32};

verus! {

#[derive(Debug, Clone, PartialEq, Eq)]
pub struct MSIPacket {
    pub messages: Vec<MSIMessage>,
}

/// One embedded message: its header and the `length - 8` payload bytes
/// that follow the header.
#[derive(Debug, Clone, PartialEq, Eq)]
pub struct MSIMessage {
    pub header: SomeIPHeader,
    pub payload: Vec<u8>,
}

/// The messages laid end to end in `s` from `p` on, as (start, length
/// field) pairs; each takes `8 + length` bytes. Fewer than 16 bytes left ends
/// the walk; a length below 8, or one that runs past the end, fails it.
pub open spec fn msi_frames(s: Seq<u8>, p: int) -> Option<Seq<(int, int)>>
    decreases s.len() - p,
{
    if p < 0 || s.len() - p < 16 {
        Some(Seq::empty())
    } else {
        let len = be32(s, p + 4);
        if len < 8 || p + 8 + len > s.len() {
            None
        } else {
            match msi_frames(s, p + 8 + len) {
                Some(r) => Some(seq![(p, len)] + r),
                None => None,
            }
        }
    }
}

/// The messages of a stream that fit whole, from `p` on: the walk stops at
/// the first one that does not (or whose length is below 8).
pub open spec fn stream_frames(s: Seq<u8>, p: int) -> Seq<(int, int)>
    decreases s.len() - p,
{
    if p < 0 || s.len() - p < 16 {
        Seq::empty()
    } else {
        let len = be32(s, p + 4);
        if len < 8 || p + 8 + len > s.len() {
            Seq::empty()
        } else {
            seq![(p, len)] + stream_frames(s, p + 8 + len)
        }
    }
}

/// Where the walk of whole messages from `p` stops.
pub open spec fn stream_stop(s: Seq<u8>, p: int) -> int
    decreases s.len() - p,
{
    if p < 0 || s.len() - p < 16 {
        p
    } else {
        let len = be32(s, p + 4);
        if len < 8 || p + 8 + len > s.len() {
            p
        } else {
            stream_stop(s, p + 8 + len)
        }
    }
}

/// The walk stopped at a header whose length field is below 8: no later
/// bytes can complete that message.
pub open spec fn stream_stuck(s: Seq<u8>) -> bool {
    let q = stream_stop(s, 0);
    0 <= q && s.len() - q >= 16 && be32(s, q + 4) < 8
}

/// `m` is the message framed at `f` in `s`.
pub open spec fn frame_matches(s: Seq<u8>, f: (int, int), m: MSIMessage) -> bool {
    &&& 0 <= f.0 && f.0 + 16 <= s.len()
    &&& f.1 == be32(s, f.0 + 4) && 8 <= f.1 && f.0 + 8 + f.1 <= s.len()
    &&& m.header == header_of(s.subrange(f.0, f.0 + 16))
    &&& m.payload@ == s.subrange(f.0 + 16, f.0 + 8 + f.1)
}

pub open spec fn frames_match(s: Seq<u8>, fs: Seq<(int, int)>, ms: Seq<MSIMessage>) -> bool {
    &&& ms.len() == fs.len()
    &&& forall|i: int| 0 <= i < fs.len() ==> frame_matches(s, #[trigger] fs[i], ms[i])
}

/// Decodes the header at `pos`.
pub fn parse_someip_header_at(input: &[u8], pos: usize) -> (r: SomeIPHeader)
    requires
        pos + 16 <= input@.len(),
    ensures
        r == header_of(input@.subrange(pos as int, pos + 16)),
{
    let n = input.len();
    let h = SomeIPHeader {
        service_id: read_u16(input, pos),
        method_id: read_u16(input, pos + 2),
        length: read_u32(input, pos + 4),
        client_id: read_u16(input, pos + 8),
        session_id: read_u16(input, pos + 10),
        protocol_version: input[pos + 12],
        interface_version: input[pos + 13],
        message_type: parse_message_type(input[pos + 14]),
        return_code: parse_return_code(input[pos + 15]),
    };
    let ghost w = input@.subrange(pos as int, pos + 16);
    assert(h == header_of(w));
    h
}

/// Takes the message at `pos` if it fits: `None` when its length field is
/// below 8 or it runs past the end.
fn frame_at(input: &[u8], pos: usize) -> (r: Option<(MSIMessage, usize)>)
    requires
        pos + 16 <= input@.len(),
    ensures
        ({
            let len = be32(input@, pos + 4);
            match r {
                Some((m, next)) => {
                    &&& !(len < 8 || pos + 8 + len > input@.len())
                    &&& next == pos + 8 + len
                    &&& frame_matches(input@, (pos as int, len), m)
                },
                None => len < 8 || pos + 8 + len > input@.len(),
            }
        }),
{
    let header = parse_someip_header_at(input, pos);
    let len = header.length as usize;
    if len < 8 || len - 8 > input.len() - pos - 16 {
        return None;
    }
    let end = pos + 8 + len;
    let payload = copy_range(input, pos + 16, end);
    Some((MSIMessage { header, payload }, end))
}

/// Splits a multi-service-indication payload (the bytes after its own
/// header) into the messages it carries. Trailing bytes too few for a header
/// are ignored; a length field below 8, or one that runs past the end, is an
/// error.
pub fn parse_msi_packet(payload: &[u8]) -> (r: Result<MSIPacket, SomeIPError>)
    ensures
        r is Ok <==> msi_frames(payload@, 0) is Some,
        r matches Ok(p) ==> frames_match(payload@, msi_frames(payload@, 0)->0, p.messages@),
        r matches Err(e) ==> e == SomeIPError::InvalidPacketFormat,
        r matches Ok(p) ==> forall|i: int|
            0 <= i < p.messages@.len() ==> (#[trigger] p.messages@[i]).payload@.len()
                == p.messages@[i].header.length - 8,
{
    let ghost s = payload@;
    let mut messages: Vec<MSIMessage> = Vec::new();
    let ghost mut done: Seq<(int, int)> = Seq::empty();
    let mut pos: usize = 0;
    while payload.len() - pos >= 16
        invariant
            s == payload@,
            pos <= s.len(),
            msi_frames(s, 0) == match msi_frames(s, pos as int) {
                Some(r) => Some(done + r),
                None => None::<Seq<(int, int)>>,
            },
            frames_match(s, done, messages@),
        decreases s.len() - pos,
    {
        match frame_at(payload, pos) {
            None => {
                return Err(SomeIPError::InvalidPacketFormat);
            },
            Some((m, next)) => {
                proof {
                    let f = (pos as int, be32(s, pos + 4));
                    assert(done.push(f) =~= done + seq![f]);
                    match msi_frames(s, next as int) {
                        Some(r) => {
                            assert(done + (seq![f] + r) =~= done.push(f) + r);
                        },
                        None => {},
                    }
                    done = done.push(f);
                }
                messages.push(m);
                pos = next;
            },
        }
    }
    assert(done + Seq::<(int, int)>::empty() =~= done);
    let r = MSIPacket { messages };
    assert forall|i: int| 0 <= i < r.messages@.len() implies (#[trigger] r.messages@[i]).payload@.len()
        == r.messages@[i].header.length - 8 by {
        assert(frame_matches(s, done[i], r.messages@[i]));
    }
    Ok(r)
}

/// Splits a reassembled stream into the whole messages at its start and
/// reports where they end.
pub fn split_stream_prefix(data: &[u8]) -> (r: (Vec<MSIMessage>, usize))
    ensures
        frames_match(data@, stream_frames(data@, 0), r.0@),
        forall|i: int|
            0 <= i < r.0@.len() ==> (#[trigger] r.0@[i]).payload@.len() == r.0@[i].header.length - 8,
        r.1 == stream_stop(data@, 0),
        r.1 <= data@.len(),
{
    let ghost s = data@;
    let mut messages: Vec<MSIMessage> = Vec::new();
    let ghost mut done: Seq<(int, int)> = Seq::empty();
    let mut pos: usize = 0;
    while data.len() - pos >= 16
        invariant
            s == data@,
            pos <= s.len(),
            stream_frames(s, 0) == done + stream_frames(s, pos as int),
            stream_stop(s, 0) == stream_stop(s, pos as int),
            frames_match(s, done, messages@),
        ensures
            pos <= s.len(),
            stream_frames(s, 0) == done + stream_frames(s, pos as int),
            stream_stop(s, 0) == pos,
            frames_match(s, done, messages@),
            stream_frames(s, pos as int) == Seq::<(int, int)>::empty(),
        decreases s.len() - pos,
    {
        match frame_at(data, pos) {
            None => {
                break ;
            },
            Some((m, next)) => {
                proof {
                    let f = (pos as int, be32(s, pos + 4));
                    assert(done + (seq![f] + stream_frames(s, next as int)) =~= done.push(f)
                        + stream_frames(s, next as int));
                    done = done.push(f);
                }
                messages.push(m);
                pos = next;
            },
        }
    }
    assert(done + stream_frames(s, pos as int) =~= done);
    assert forall|i: int| 0 <= i < messages@.len() implies (#[trigger] messages@[i]).payload@.len()
        == messages@[i].header.length - 8 by {
        assert(frame_matches(s, done[i], messages@[i]));
    }
    (messages, pos)
}

/// Splits a reassembled stream into the whole messages at its start; a
/// partial message at the end, and anything after it, is left out.
pub fn split_someip_stream(data: &[u8]) -> (r: Vec<MSIMessage>)
    ensures
        frames_match(data@, stream_frames(data@, 0), r@),
        forall|i: int|
            0 <= i < r@.len() ==> (#[trigger] r@[i]).payload@.len() == r@[i].header.length - 8,
{
    split_stream_prefix(data).0
}

} // verus!
