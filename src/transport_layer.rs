//! Transport layer: UDP and TCP.
use vstd::prelude::*;
use crate::error::SomeIPError;
use crate::wire::{be16, be32, copy_range, read_u16, read_u32};

verus! {

#[derive(Debug, Clone, PartialEq, Eq)]
pub enum TransportLayer {
    UDP(UDPPacketInfo),
    TCP(TCPPacketInfo),
}

#[derive(Debug, Clone, PartialEq, Eq)]
pub struct UDPPacketInfo {
    pub src_port: u16,
    pub dst_port: u16,
    pub length: u16,
    pub checksum: u16,
    pub payload: Vec<u8>,
}

#[derive(Debug, Clone, PartialEq, Eq)]
pub struct TCPPacketInfo {
    pub src_port: u16,
    pub dst_port: u16,
    pub seq_num: u32,
    pub ack_num: u32,
    pub data_offset: u8,
    pub reserved: u8,
    pub flags: TCPFlags,
    pub window_size: u16,
    pub checksum: u16,
    pub urgent_ptr: u16,
    pub options: Vec<u8>,
    pub payload: Vec<u8>,
}

#[derive(Debug, Clone, Copy, PartialEq, Eq, Structural)]
pub struct TCPFlags {
    pub ns: bool,
    pub cwr: bool,
    pub ece: bool,
    pub urg: bool,
    pub ack: bool,
    pub psh: bool,
    pub rst: bool,
    pub syn: bool,
    pub fin: bool,
}


/// The flags that the data-offset/flags word carries: FIN is bit 0, then SYN,
/// RST, PSH, ACK, URG, ECE, CWR, and NS at bit 8.
pub open spec fn tcp_flags_of(w: int) -> TCPFlags {
    TCPFlags {
        fin: w % 2 == 1,
        syn: (w / 2) % 2 == 1,
        rst: (w / 4) % 2 == 1,
        psh: (w / 8) % 2 == 1,
        ack: (w / 16) % 2 == 1,
        urg: (w / 32) % 2 == 1,
        ece: (w / 64) % 2 == 1,
        cwr: (w / 128) % 2 == 1,
        ns: (w / 256) % 2 == 1,
    }
}

pub open spec fn tcp_decodes(s: Seq<u8>) -> bool {
    let off = (be16(s, 12) / 4096) * 4;
    s.len() >= 20 && 20 <= off <= s.len()
}

/// Whether `s` decodes as the transport layer that `protocol` selects.
pub open spec fn transport_decodes(s: Seq<u8>, protocol: u8) -> bool {
    if protocol == 17 {
        s.len() >= 8
    } else if protocol == 6 {
        tcp_decodes(s)
    } else {
        false
    }
}

pub open spec fn udp_matches(s: Seq<u8>, u: UDPPacketInfo) -> bool {
    &&& u.src_port == be16(s, 0)
    &&& u.dst_port == be16(s, 2)
    &&& u.length == be16(s, 4)
    &&& u.checksum == be16(s, 6)
    &&& u.payload@ == s.subrange(8, s.len() as int)
}

pub open spec fn tcp_matches(s: Seq<u8>, t: TCPPacketInfo) -> bool {
    let w = be16(s, 12);
    let off = (w / 4096) * 4;
    &&& t.src_port == be16(s, 0)
    &&& t.dst_port == be16(s, 2)
    &&& t.seq_num == be32(s, 4)
    &&& t.ack_num == be32(s, 8)
    &&& t.data_offset == w / 4096
    &&& t.reserved == (w / 512) % 8
    &&& t.flags == tcp_flags_of(w)
    &&& t.window_size == be16(s, 14)
    &&& t.checksum == be16(s, 16)
    &&& t.urgent_ptr == be16(s, 18)
    &&& t.options@ == s.subrange(20, off)
    &&& t.payload@ == s.subrange(off, s.len() as int)
}

/// Decodes the transport layer that the IP protocol number selects.
pub fn parse_transport_layer(input: &[u8], protocol: u8) -> (r: Result<TransportLayer, SomeIPError>)
    ensures
        transport_decodes(input@, protocol) <==> r is Ok,
        r matches Ok(t) ==> match t {
            TransportLayer::UDP(u) => protocol == 17 && udp_matches(input@, u),
            TransportLayer::TCP(c) => protocol == 6 && tcp_matches(input@, c),
        },
        r matches Err(e) ==> e == SomeIPError::InvalidPacketFormat,
{
    if protocol == 17 {
        parse_udp(input)
    } else if protocol == 6 {
        parse_tcp(input)
    } else {
        Err(SomeIPError::InvalidPacketFormat)
    }
}

fn parse_udp(input: &[u8]) -> (r: Result<TransportLayer, SomeIPError>)
    ensures
        input@.len() >= 8 <==> r is Ok,
        r matches Ok(t) ==> (t matches TransportLayer::UDP(u) && udp_matches(input@, u)),
        r matches Err(e) ==> e == SomeIPError::InvalidPacketFormat,
{
    if input.len() < 8 {
        return Err(SomeIPError::InvalidPacketFormat);
    }
    Ok(
        TransportLayer::UDP(
            UDPPacketInfo {
                src_port: read_u16(input, 0),
                dst_port: read_u16(input, 2),
                length: read_u16(input, 4),
                checksum: read_u16(input, 6),
                payload: copy_range(input, 8, input.len()),
            },
        ),
    )
}

fn parse_tcp(input: &[u8]) -> (r: Result<TransportLayer, SomeIPError>)
    ensures
        tcp_decodes(input@) <==> r is Ok,
        r matches Ok(t) ==> (t matches TransportLayer::TCP(c) && tcp_matches(input@, c)),
        r matches Err(e) ==> e == SomeIPError::InvalidPacketFormat,
{
    if input.len() < 20 {
        return Err(SomeIPError::InvalidPacketFormat);
    }
    let w = read_u16(input, 12);
    let data_offset = (w / 4096) as u8;
    let off = data_offset as usize * 4;
    if off < 20 || off > input.len() {
        return Err(SomeIPError::InvalidPacketFormat);
    }
    let flags = TCPFlags {
        fin: w % 2 == 1,
        syn: (w / 2) % 2 == 1,
        rst: (w / 4) % 2 == 1,
        psh: (w / 8) % 2 == 1,
        ack: (w / 16) % 2 == 1,
        urg: (w / 32) % 2 == 1,
        ece: (w / 64) % 2 == 1,
        cwr: (w / 128) % 2 == 1,
        ns: (w / 256) % 2 == 1,
    };
    Ok(
        TransportLayer::TCP(
            TCPPacketInfo {
                src_port: read_u16(input, 0),
                dst_port: read_u16(input, 2),
                seq_num: read_u32(input, 4),
                ack_num: read_u32(input, 8),
                data_offset,
                reserved: ((w / 512) % 8) as u8,
                flags,
                window_size: read_u16(input, 14),
                checksum: read_u16(input, 16),
                urgent_ptr: read_u16(input, 18),
                options: copy_range(input, 20, off),
                payload: copy_range(input, off, input.len()),
            },
        ),
    )
}

} // verus!
