//! Network layer: IPv4 and IPv6.
use vstd::prelude::*;
use crate::error::SomeIPError;
use crate::wire::{be16, be32, copy_range, read_array16, read_array4, read_u16, read_u32};

verus! {

#[derive(Debug, Clone, PartialEq, Eq)]
pub enum NetworkLayer {
    IPv4(IPv4PacketInfo),
    IPv6(IPv6PacketInfo),
}

/// An IPv4 header and the transport segment it bounds: the bytes from the
/// end of the header (`header_length` words) up to `total_length`.
#[derive(Debug, Clone, PartialEq, Eq)]
pub struct IPv4PacketInfo {
    pub version: u8,
    pub header_length: u8,
    pub dscp: u8,
    pub ecn: u8,
    pub total_length: u16,
    pub identification: u16,
    pub flags: u8,
    pub fragment_offset: u16,
    pub ttl: u8,
    pub protocol: u8,
    pub checksum: u16,
    pub src_ip: [u8; 4],
    pub dst_ip: [u8; 4],
    pub payload: Vec<u8>,
}

/// An IPv6 fixed header and the `payload_length` bytes that follow it.
#[derive(Debug, Clone, PartialEq, Eq)]
pub struct IPv6PacketInfo {
    pub version: u8,
    pub traffic_class: u8,
    pub flow_label: u32,
    pub payload_length: u16,
    pub next_header: u8,
    pub hop_limit: u8,
    pub src_ip: [u8; 16],
    pub dst_ip: [u8; 16],
    pub payload: Vec<u8>,
}

pub open spec fn ipv4_decodes(s: Seq<u8>) -> bool {
    let hl = (s[0] % 16) as int * 4;
    &&& s.len() >= 20
    &&& 20 <= hl <= be16(s, 2) <= s.len()
}

pub open spec fn ipv6_decodes(s: Seq<u8>) -> bool {
    s.len() >= 40 && 40 + be16(s, 4) <= s.len()
}

/// Whether `s` decodes as the network layer that `ethertype` selects.
pub open spec fn network_decodes(s: Seq<u8>, ethertype: u16) -> bool {
    if ethertype == 0x0800 {
        ipv4_decodes(s)
    } else if ethertype == 0x86DD {
        ipv6_decodes(s)
    } else {
        false
    }
}

pub open spec fn ipv4_matches(s: Seq<u8>, p: IPv4PacketInfo) -> bool {
    &&& p.version == s[0] / 16
    &&& p.header_length == s[0] % 16
    &&& p.dscp == s[1] / 4
    &&& p.ecn == s[1] % 4
    &&& p.total_length == be16(s, 2)
    &&& p.identification == be16(s, 4)
    &&& p.flags == be16(s, 6) / 8192
    &&& p.fragment_offset == be16(s, 6) % 8192
    &&& p.ttl == s[8]
    &&& p.protocol == s[9]
    &&& p.checksum == be16(s, 10)
    &&& p.src_ip@ == s.subrange(12, 16)
    &&& p.dst_ip@ == s.subrange(16, 20)
    &&& p.payload@ == s.subrange((s[0] % 16) as int * 4, be16(s, 2))
}

pub open spec fn ipv6_matches(s: Seq<u8>, p: IPv6PacketInfo) -> bool {
    &&& p.version == be32(s, 0) / 268435456
    &&& p.traffic_class == (be32(s, 0) / 1048576) % 256
    &&& p.flow_label == be32(s, 0) % 1048576
    &&& p.payload_length == be16(s, 4)
    &&& p.next_header == s[6]
    &&& p.hop_limit == s[7]
    &&& p.src_ip@ == s.subrange(8, 24)
    &&& p.dst_ip@ == s.subrange(24, 40)
    &&& p.payload@ == s.subrange(40, 40 + be16(s, 4))
}

/// Decodes the network layer that `ethertype` selects.
pub fn parse_network_layer(input: &[u8], ethertype: u16) -> (r: Result<NetworkLayer, SomeIPError>)
    ensures
        network_decodes(input@, ethertype) <==> r is Ok,
        r matches Ok(n) ==> match n {
            NetworkLayer::IPv4(p) => ethertype == 0x0800 && ipv4_matches(input@, p),
            NetworkLayer::IPv6(p) => ethertype == 0x86DD && ipv6_matches(input@, p),
        },
        r matches Err(e) ==> e == SomeIPError::InvalidPacketFormat,
{
    if ethertype == 0x0800 {
        parse_ipv4(input)
    } else if ethertype == 0x86DD {
        parse_ipv6(input)
    } else {
        Err(SomeIPError::InvalidPacketFormat)
    }
}

fn parse_ipv4(input: &[u8]) -> (r: Result<NetworkLayer, SomeIPError>)
    ensures
        ipv4_decodes(input@) <==> r is Ok,
        r matches Ok(n) ==> (n matches NetworkLayer::IPv4(p) && ipv4_matches(input@, p)),
        r matches Err(e) ==> e == SomeIPError::InvalidPacketFormat,
{
    if input.len() < 20 {
        return Err(SomeIPError::InvalidPacketFormat);
    }
    let version_ihl = input[0];
    let ihl = version_ihl % 16;
    let dscp_ecn = input[1];
    let total_length = read_u16(input, 2);
    let flags_fragment = read_u16(input, 6);
    let header_bytes = ihl as usize * 4;
    if header_bytes < 20 || header_bytes > total_length as usize || total_length as usize
        > input.len() {
        return Err(SomeIPError::InvalidPacketFormat);
    }
    let payload = copy_range(input, header_bytes, total_length as usize);
    Ok(
        NetworkLayer::IPv4(
            IPv4PacketInfo {
                version: version_ihl / 16,
                header_length: ihl,
                dscp: dscp_ecn / 4,
                ecn: dscp_ecn % 4,
                total_length,
                identification: read_u16(input, 4),
                flags: (flags_fragment / 8192) as u8,
                fragment_offset: flags_fragment % 8192,
                ttl: input[8],
                protocol: input[9],
                checksum: read_u16(input, 10),
                src_ip: read_array4(input, 12),
                dst_ip: read_array4(input, 16),
                payload,
            },
        ),
    )
}

fn parse_ipv6(input: &[u8]) -> (r: Result<NetworkLayer, SomeIPError>)
    ensures
        ipv6_decodes(input@) <==> r is Ok,
        r matches Ok(n) ==> (n matches NetworkLayer::IPv6(p) && ipv6_matches(input@, p)),
        r matches Err(e) ==> e == SomeIPError::InvalidPacketFormat,
{
    if input.len() < 40 {
        return Err(SomeIPError::InvalidPacketFormat);
    }
    let version_tc_fl = read_u32(input, 0);
    let payload_length = read_u16(input, 4);
    if 40 + payload_length as usize > input.len() {
        return Err(SomeIPError::InvalidPacketFormat);
    }
    let payload = copy_range(input, 40, 40 + payload_length as usize);
    Ok(
        NetworkLayer::IPv6(
            IPv6PacketInfo {
                version: (version_tc_fl / 268435456) as u8,
                traffic_class: ((version_tc_fl / 1048576) % 256) as u8,
                flow_label: version_tc_fl % 1048576,
                payload_length,
                next_header: input[6],
                hop_limit: input[7],
                src_ip: read_array16(input, 8),
                dst_ip: read_array16(input, 24),
                payload,
            },
        ),
    )
}

} // verus!
