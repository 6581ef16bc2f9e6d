//! Link layer: Ethernet II (with an optional 802.1Q/802.1ad tag) and Linux
//! cooked capture.
use vstd::prelude::*;
use crate::error::SomeIPError;
use crate::wire::{be16, copy_range, read_array6, read_u16};

verus! {

#[derive(Debug, Clone, PartialEq, Eq)]
pub enum LinkLayer {
    Ethernet(EthernetFrame),
    SLL(SLLHeader),
}

/// A VLAN tag: the tag protocol identifier and the tag control information.
#[derive(Debug, Clone, Copy, PartialEq, Eq, Structural)]
pub struct VlanTag {
    pub tpid: u16,
    pub tci: u16,
}

/// An Ethernet II frame. `ethertype` is the one that selects the network
/// layer: the inner one where the frame is tagged.
#[derive(Debug, Clone, PartialEq, Eq)]
pub struct EthernetFrame {
    pub dst_mac: [u8; 6],
    pub src_mac: [u8; 6],
    pub ethertype: u16,
    pub vlan: Option<VlanTag>,
    pub payload: Vec<u8>,
}

#[derive(Debug, Clone, PartialEq, Eq)]
pub struct SLLHeader {
    pub packet_type: u16,
    pub link_layer_addr_type: u16,
    pub link_layer_addr_len: u16,
    pub link_layer_addr: Vec<u8>,
    pub protocol: u16,
    pub payload: Vec<u8>,
}

/// Frames that open with two zero bytes (and are long enough to hold a
/// cooked header) are Linux cooked captures; all others are Ethernet.
pub open spec fn is_sll(s: Seq<u8>) -> bool {
    s.len() >= 16 && s[0] == 0 && s[1] == 0
}

pub open spec fn is_vlan_tpid(t: int) -> bool {
    t == 0x8100 || t == 0x88A8 || t == 0x9100
}

/// Whether `s` decodes as a link-layer frame.
pub open spec fn link_decodes(s: Seq<u8>) -> bool {
    if is_sll(s) {
        s.len() >= 10 + be16(s, 4)
    } else {
        s.len() >= 14 && (is_vlan_tpid(be16(s, 12)) ==> s.len() >= 18)
    }
}

/// The frame's decoded layer as `s` describes it.
pub open spec fn link_matches(s: Seq<u8>, l: LinkLayer) -> bool {
    if is_sll(s) {
        let n = be16(s, 4);
        l matches LinkLayer::SLL(h) && {
            &&& h.packet_type == be16(s, 0)
            &&& h.link_layer_addr_type == be16(s, 2)
            &&& h.link_layer_addr_len == n
            &&& h.link_layer_addr@ == s.subrange(6, 6 + n)
            &&& h.protocol == be16(s, 8 + n)
            &&& h.payload@ == s.subrange(10 + n, s.len() as int)
        }
    } else {
        l matches LinkLayer::Ethernet(e) && {
            &&& e.dst_mac@ == s.subrange(0, 6)
            &&& e.src_mac@ == s.subrange(6, 12)
            &&& if is_vlan_tpid(be16(s, 12)) {
                &&& e.vlan == Some(VlanTag { tpid: be16(s, 12) as u16, tci: be16(s, 14) as u16 })
                &&& e.ethertype == be16(s, 16)
                &&& e.payload@ == s.subrange(18, s.len() as int)
            } else {
                &&& e.vlan is None
                &&& e.ethertype == be16(s, 12)
                &&& e.payload@ == s.subrange(14, s.len() as int)
            }
        }
    }
}

/// Decodes the link layer of a captured frame.
pub fn parse_link_layer(input: &[u8]) -> (r: Result<LinkLayer, SomeIPError>)
    ensures
        link_decodes(input@) <==> r is Ok,
        r matches Ok(l) ==> link_matches(input@, l),
        r matches Err(e) ==> e == SomeIPError::InvalidPacketFormat,
{
    if input.len() >= 16 && input[0] == 0 && input[1] == 0 {
        parse_sll(input)
    } else {
        parse_ethernet(input)
    }
}

fn parse_ethernet(input: &[u8]) -> (r: Result<LinkLayer, SomeIPError>)
    requires
        !is_sll(input@),
    ensures
        link_decodes(input@) <==> r is Ok,
        r matches Ok(l) ==> link_matches(input@, l),
        r matches Err(e) ==> e == SomeIPError::InvalidPacketFormat,
{
    if input.len() < 14 {
        return Err(SomeIPError::InvalidPacketFormat);
    }
    let dst_mac = read_array6(input, 0);
    let src_mac = read_array6(input, 6);
    let outer = read_u16(input, 12);
    if outer == 0x8100 || outer == 0x88A8 || outer == 0x9100 {
        if input.len() < 18 {
            return Err(SomeIPError::InvalidPacketFormat);
        }
        let tci = read_u16(input, 14);
        let ethertype = read_u16(input, 16);
        let payload = copy_range(input, 18, input.len());
        Ok(
            LinkLayer::Ethernet(
                EthernetFrame {
                    dst_mac,
                    src_mac,
                    ethertype,
                    vlan: Some(VlanTag { tpid: outer, tci }),
                    payload,
                },
            ),
        )
    } else {
        let payload = copy_range(input, 14, input.len());
        Ok(
            LinkLayer::Ethernet(
                EthernetFrame { dst_mac, src_mac, ethertype: outer, vlan: None, payload },
            ),
        )
    }
}

fn parse_sll(input: &[u8]) -> (r: Result<LinkLayer, SomeIPError>)
    requires
        is_sll(input@),
    ensures
        link_decodes(input@) <==> r is Ok,
        r matches Ok(l) ==> link_matches(input@, l),
        r matches Err(e) ==> e == SomeIPError::InvalidPacketFormat,
{
    let packet_type = read_u16(input, 0);
    let link_layer_addr_type = read_u16(input, 2);
    let link_layer_addr_len = read_u16(input, 4);
    let n = link_layer_addr_len as usize;
    if input.len() < 10 + n {
        return Err(SomeIPError::InvalidPacketFormat);
    }
    let link_layer_addr = copy_range(input, 6, 6 + n);
    let protocol = read_u16(input, 8 + n);
    let payload = copy_range(input, 10 + n, input.len());
    Ok(
        LinkLayer::SLL(
            SLLHeader {
                packet_type,
                link_layer_addr_type,
                link_layer_addr_len,
                link_layer_addr,
                protocol,
                payload,
            },
        ),
    )
}

} // verus!
