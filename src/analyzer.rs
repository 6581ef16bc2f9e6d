//! The per-frame pipeline: decode the layers, gate on the known ports, learn
//! ports from service discovery, reassemble, and pair requests with
//! responses.
use vstd::prelude::*;
use std::collections::HashSet;
use crate::error::SomeIPError;
use crate::flow_control::{
    find_stream, leftover, live_streams, streams_wf, tcp_admit, StreamView, TcpFlowController,
};
use crate::header::{header_of, parse_someip_header, tp_flagged, MessageType, SomeIPHeader};
use crate::link_layer::{is_sll, is_vlan_tpid, link_decodes, parse_link_layer, LinkLayer};
use crate::msi::{msi_frames, parse_msi_packet, stream_frames, MSIMessage};
use crate::network_layer::{network_decodes, parse_network_layer, NetworkLayer};
use crate::sd::{
    announced_ports, entry_starts, option_frames, option_matches, option_port, options_match,
    parse_sd_packet, sd_decodes, sd_option_port, SDOption, SDPacket,
};
use crate::session::{
    after_request, find_session, is_response_type, lemma_after_request_fits, lemma_close_fits,
    lemma_sweep_fits, payload_fits, requests_fit, sessions_wf, MessageView, PairView, SessionManager,
    SomeIPMessage,
};
use crate::text::{format_ipv4, format_ipv6, ipv4_text, ipv6_text};
use crate::tp::{
    expire, lemma_admit_flagged, parse_tp_segment, pending_flagged, pending_wf, tp_admit,
    PendingView, TPParser,
};
use crate::transport_layer::{
    parse_transport_layer, tcp_flags_of, tcp_matches, transport_decodes, udp_matches, TCPFlags,
    TCPPacketInfo, TransportLayer, UDPPacketInfo,
};
use crate::wire::{be16, be32, copy_range};

verus! {

broadcast use vstd::std_specs::hash::group_hash_axioms;

/// A captured frame: its capture time in microseconds since the Unix epoch,
/// and its bytes.
#[derive(Debug, Clone)]
pub struct RawPacket {
    pub timestamp: u64,
    pub data: Vec<u8>,
}

pub open spec fn messages_view(v: Seq<SomeIPMessage>) -> Seq<MessageView> {
    v.map_values(|m: SomeIPMessage| m@)
}

/// Every message from position `from` on satisfies `payload_fits`.
pub open spec fn appended_fit(ms: Seq<SomeIPMessage>, from: int) -> bool {
    forall|i: int| from <= i < ms.len() ==> payload_fits((#[trigger] ms[i])@)
}

// ---------------------------------------------------------------- frames

/// The VLAN id of a frame's tag, if it carries one.
pub open spec fn frame_vlan(s: Seq<u8>) -> Option<u16> {
    if !is_sll(s) && is_vlan_tpid(be16(s, 12)) {
        Some((be16(s, 14) % 4096) as u16)
    } else {
        None
    }
}

/// Whether a frame passes the VLAN filter: untagged frames always do.
pub open spec fn vlan_passes(s: Seq<u8>, target: Option<u16>) -> bool {
    match (target, frame_vlan(s)) {
        (Some(t), Some(a)) => a == t,
        _ => true,
    }
}

/// The EtherType that selects a frame's network layer.
pub open spec fn link_ethertype(s: Seq<u8>) -> u16 {
    if is_sll(s) {
        be16(s, 8 + be16(s, 4)) as u16
    } else if is_vlan_tpid(be16(s, 12)) {
        be16(s, 16) as u16
    } else {
        be16(s, 12) as u16
    }
}

/// The bytes after a frame's link-layer header.
pub open spec fn link_body(s: Seq<u8>) -> Seq<u8> {
    if is_sll(s) {
        s.subrange(10 + be16(s, 4), s.len() as int)
    } else if is_vlan_tpid(be16(s, 12)) {
        s.subrange(18, s.len() as int)
    } else {
        s.subrange(14, s.len() as int)
    }
}

pub open spec fn net_protocol(s: Seq<u8>, ethertype: u16) -> u8 {
    if ethertype == 0x0800 {
        s[9]
    } else {
        s[6]
    }
}

/// The transport segment that an IP header bounds.
pub open spec fn net_body(s: Seq<u8>, ethertype: u16) -> Seq<u8> {
    if ethertype == 0x0800 {
        s.subrange((s[0] % 16) as int * 4, be16(s, 2))
    } else {
        s.subrange(40, 40 + be16(s, 4))
    }
}

/// The IP protocol and the transport segment of a frame, when every layer
/// down to the transport header decodes.
pub open spec fn frame_segment(s: Seq<u8>) -> Option<(u8, Seq<u8>)> {
    let n = link_body(s);
    let et = link_ethertype(s);
    if link_decodes(s) && network_decodes(n, et) && transport_decodes(
        net_body(n, et),
        net_protocol(n, et),
    ) {
        Some((net_protocol(n, et), net_body(n, et)))
    } else {
        None
    }
}

/// The port that an option of type `t` with its body at `b` announces.
pub open spec fn frame_port(s: Seq<u8>, t: u8, b: int) -> Option<u16> {
    if t == 0x04 || t == 0x14 || t == 0x24 {
        Some(be16(s, b + 5) as u16)
    } else if t == 0x06 || t == 0x16 || t == 0x26 {
        Some(be16(s, b + 17) as u16)
    } else {
        None
    }
}

/// The ports that the endpoint, multicast and SD-endpoint options of an SD
/// body announce.
pub open spec fn sd_body_ports(b: Seq<u8>) -> Set<u16> {
    let q = entry_starts(b, 8, (be32(b, 4) / 16) as nat).last();
    let f = option_frames(b, q + 4, q + 4 + be32(b, q));
    Set::new(|p: u16| exists|i: int| 0 <= i < f.len() && frame_port(b, f[i].0, f[i].1) == Some(p))
}

/// The ports of decoded options are the ports their frames announce.
pub proof fn lemma_announced_ports(s: Seq<u8>, start: int, end: int, opts: Seq<SDOption>)
    requires
        options_match(s, start, end, opts),
    ensures
        announced_ports(opts) == ({
            let f = option_frames(s, start, end);
            Set::new(
                |p: u16| exists|i: int| 0 <= i < f.len() && frame_port(s, f[i].0, f[i].1) == Some(p),
            )
        }),
{
    let f = option_frames(s, start, end);
    assert forall|i: int| 0 <= i < f.len() implies option_port(#[trigger] opts[i]) == frame_port(
        s,
        f[i].0,
        f[i].1,
    ) by {
        assert(option_matches(s, f[i].0, f[i].1, f[i].2, opts[i]));
    }
    let b = Set::new(
        |p: u16| exists|i: int| 0 <= i < f.len() && frame_port(s, f[i].0, f[i].1) == Some(p),
    );
    assert forall|p: u16| #[trigger] announced_ports(opts).contains(p) <==> b.contains(p) by {
        if announced_ports(opts).contains(p) {
            let i = choose|i: int| 0 <= i < opts.len() && option_port(opts[i]) == Some(p);
            assert(frame_port(s, f[i].0, f[i].1) == Some(p));
        }
        if b.contains(p) {
            let i = choose|i: int| 0 <= i < f.len() && frame_port(s, f[i].0, f[i].1) == Some(p);
            assert(option_port(opts[i]) == Some(p));
        }
    }
    assert(announced_ports(opts) =~= b);
}

/// Adds every port that the packet's endpoint, multicast and SD-endpoint
/// options announce to the known ports.
pub fn learn_ports_from_sd(sd_packet: &SDPacket, known_ports: &mut HashSet<u16>)
    ensures
        final(known_ports)@ == old(known_ports)@.union(announced_ports(sd_packet.options@)),
{
    let ghost k0 = known_ports@;
    let ghost opts = sd_packet.options@;
    let mut i: usize = 0;
    while i < sd_packet.options.len()
        invariant
            opts == sd_packet.options@,
            i <= opts.len(),
            known_ports@ == k0.union(announced_ports(opts.subrange(0, i as int))),
        decreases opts.len() - i,
    {
        let ghost before = known_ports@;
        match sd_option_port(&sd_packet.options[i]) {
            Some(port) => {
                known_ports.insert(port);
            },
            None => {},
        }
        proof {
            let sa = opts.subrange(0, i as int);
            let sb = opts.subrange(0, i + 1);
            let a = announced_ports(sa);
            let b = announced_ports(sb);
            assert forall|p: u16| #[trigger] b.contains(p) <==> a.contains(p) || crate::sd::option_port(
                opts[i as int],
            ) == Some(p) by {
                if b.contains(p) {
                    let j = choose|j: int| 0 <= j < sb.len() && crate::sd::option_port(#[trigger] sb[j]) == Some(p);
                    if j < i {
                        assert(sa[j] == sb[j]);
                    }
                }
                if a.contains(p) {
                    let j = choose|j: int| 0 <= j < sa.len() && crate::sd::option_port(#[trigger] sa[j]) == Some(p);
                    assert(sb[j] == sa[j]);
                }
                if crate::sd::option_port(opts[i as int]) == Some(p) {
                    assert(sb[i as int] == opts[i as int]);
                }
            }
            assert(known_ports@ =~= k0.union(b));
        }
        i = i + 1;
    }
    assert(opts.subrange(0, opts.len() as int) =~= opts);
}

/// A message with the place and time it was seen.
pub fn create_someip_message(
    timestamp: u64,
    src_ip: &str,
    dst_ip: &str,
    src_port: u16,
    dst_port: u16,
    header: SomeIPHeader,
    payload: Vec<u8>,
) -> (r: SomeIPMessage)
    ensures
        r@ == (MessageView {
            timestamp,
            header,
            payload: payload@,
            src_ip: src_ip@,
            dst_ip: dst_ip@,
            src_port,
            dst_port,
        }),
{
    SomeIPMessage {
        timestamp,
        header,
        payload,
        src_ip: src_ip.to_owned(),
        dst_ip: dst_ip.to_owned(),
        src_port,
        dst_port,
    }
}

/// Where a message goes, given the open requests `s` and the messages
/// emitted so far `m`: a request opens a session; a response or error closes
/// its session, and the request and the response are emitted together (or
/// it is dropped when no request is open); anything else is emitted at once.
pub open spec fn route(
    s: Seq<PairView>,
    m: Seq<MessageView>,
    msg: MessageView,
    timeout: u64,
    max_pairs: usize,
) -> (Seq<PairView>, Seq<MessageView>) {
    if msg.header.message_type == MessageType::Request || msg.header.message_type
        == MessageType::RequestNoReturn {
        (after_request(s, msg, timeout, max_pairs), m)
    } else if is_response_type(msg.header.message_type) {
        let i = find_session(s, msg.header.key(), 0);
        if i < 0 {
            (s, m)
        } else {
            (s.remove(i), m.push(s[i].request).push(msg))
        }
    } else {
        (s, m.push(msg))
    }
}

/// Routing `msgs` one after the other.
pub open spec fn route_all(
    s: Seq<PairView>,
    m: Seq<MessageView>,
    msgs: Seq<MessageView>,
    timeout: u64,
    max_pairs: usize,
) -> (Seq<PairView>, Seq<MessageView>)
    decreases msgs.len(),
{
    if msgs.len() == 0 {
        (s, m)
    } else {
        let r = route_all(s, m, msgs.drop_last(), timeout, max_pairs);
        route(r.0, r.1, msgs.last(), timeout, max_pairs)
    }
}

/// The messages that the frames `fs` of `b` carry, seen at `timestamp`
/// between the given addresses and ports.
pub open spec fn framed_messages(
    b: Seq<u8>,
    fs: Seq<(int, int)>,
    timestamp: u64,
    addr: (Seq<char>, Seq<char>),
    src_port: u16,
    dst_port: u16,
) -> Seq<MessageView> {
    Seq::new(
        fs.len(),
        |i: int|
            MessageView {
                timestamp,
                header: header_of(b.subrange(fs[i].0, fs[i].0 + 16)),
                payload: b.subrange(fs[i].0 + 16, fs[i].0 + 8 + fs[i].1),
                src_ip: addr.0,
                dst_ip: addr.1,
                src_port,
                dst_port,
            },
    )
}

/// Routes a message: requests open a session; responses and errors close
/// theirs, and the request and the response go out together; anything else
/// goes out at once.
pub fn handle_someip_message(
    msg: SomeIPMessage,
    session_manager: &mut SessionManager,
    messages: &mut Vec<SomeIPMessage>,
) -> (r: Result<(), SomeIPError>)
    requires
        sessions_wf(old(session_manager)@),
        requests_fit(old(session_manager)@),
        payload_fits(msg@),
    ensures
        r is Ok,
        requests_fit(final(session_manager)@),
        appended_fit(final(messages)@, old(messages)@.len() as int),
        final(messages)@.len() >= old(messages)@.len(),
        final(messages)@.subrange(0, old(messages)@.len() as int) == old(messages)@,
        sessions_wf(final(session_manager)@),
        final(session_manager).timeout_spec() == old(session_manager).timeout_spec(),
        final(session_manager).max_pairs_spec() == old(session_manager).max_pairs_spec(),
        (final(session_manager)@, messages_view(final(messages)@)) == route(
            old(session_manager)@,
            messages_view(old(messages)@),
            msg@,
            old(session_manager).timeout_spec(),
            old(session_manager).max_pairs_spec(),
        ),
{
    let ghost m0 = messages_view(messages@);
    let ghost v0 = messages@;
    let ghost s0 = session_manager@;
    let ghost mv0 = msg@;
    proof {
        lemma_after_request_fits(s0, mv0, session_manager.timeout_spec(), session_manager.max_pairs_spec());
        lemma_close_fits(s0, msg.header.key());
    }
    let r = match msg.header.message_type {
        MessageType::Request | MessageType::RequestNoReturn => {
            let _ = session_manager.add_request(msg);
            Ok(())
        },
        MessageType::Response | MessageType::Error => {
            match session_manager.add_response(msg) {
                Ok(Some(pair)) => {
                    let ghost req = pair.request@;
                    messages.push(pair.request);
                    match pair.response {
                        Some(resp) => {
                            messages.push(resp);
                        },
                        None => {},
                    }
                    assert(messages_view(messages@) =~= m0.push(req).push(
                        messages@[messages@.len() - 1]@,
                    ));
                    Ok(())
                },
                _ => Ok(()),
            }
        },
        _ => {
            let ghost mv = msg@;
            messages.push(msg);
            assert(messages_view(messages@) =~= m0.push(mv));
            Ok(())
        },
    };
    assert(messages@.subrange(0, v0.len() as int) =~= v0);
    proof {
        assert forall|i: int| v0.len() <= i < messages@.len() implies payload_fits(
            (#[trigger] messages@[i])@,
        ) by {
            assert(messages_view(messages@)[i] == messages@[i]@);
        }
    }
    r
}

/// The payload that a SomeIP header bounds in a datagram: the `length - 8`
/// bytes after the 16-byte header. Fails when `length` is below 8 or the
/// datagram is too short.
pub fn extract_payload(datagram: &[u8], header: &SomeIPHeader) -> (r: Result<Vec<u8>, SomeIPError>)
    ensures
        r is Ok <==> 8 <= header.length && 8 + header.length <= datagram@.len(),
        r matches Ok(p) ==> p@ == datagram@.subrange(16, 8 + header.length) && p@.len()
            == header.length - 8,
        r matches Err(e) ==> e == SomeIPError::InvalidPacketFormat,
{
    let len = header.length as usize;
    if datagram.len() < 8 || len < 8 || len > datagram.len() - 8 {
        return Err(SomeIPError::InvalidPacketFormat);
    }
    Ok(copy_range(datagram, 16, 8 + len))
}

/// The VLAN id that a tag control field carries: its low 12 bits.
pub fn vlan_id(tci: u16) -> (r: u16)
    ensures
        r == tci % 4096,
{
    tci % 4096
}

/// Whether a message-type byte carries the SomeIP-TP flag (0x20).
pub fn is_tp_message(header: &SomeIPHeader) -> (r: bool)
    ensures
        r == tp_flagged(*header),
{
    (header.message_type.as_u8() / 32) % 2 == 1
}

/// Framed messages as seen at `timestamp` between the given addresses and
/// ports.
pub open spec fn framed_views(
    fs: Seq<MSIMessage>,
    timestamp: u64,
    addr: (Seq<char>, Seq<char>),
    src_port: u16,
    dst_port: u16,
) -> Seq<MessageView> {
    fs.map_values(
        |f: MSIMessage|
            MessageView {
                timestamp,
                header: f.header,
                payload: f.payload@,
                src_ip: addr.0,
                dst_ip: addr.1,
                src_port,
                dst_port,
            },
    )
}

/// Framed messages are the messages their frames describe.
pub proof fn lemma_framed_views(
    b: Seq<u8>,
    fs: Seq<(int, int)>,
    ms: Seq<MSIMessage>,
    timestamp: u64,
    addr: (Seq<char>, Seq<char>),
    src_port: u16,
    dst_port: u16,
)
    requires
        crate::msi::frames_match(b, fs, ms),
    ensures
        framed_views(ms, timestamp, addr, src_port, dst_port) == framed_messages(
            b,
            fs,
            timestamp,
            addr,
            src_port,
            dst_port,
        ),
{
    let l = framed_views(ms, timestamp, addr, src_port, dst_port);
    let r = framed_messages(b, fs, timestamp, addr, src_port, dst_port);
    assert forall|i: int| 0 <= i < l.len() implies l[i] == r[i] by {
        assert(crate::msi::frame_matches(b, fs[i], ms[i]));
    }
    assert(l =~= r);
}

/// Hands each framed message to the session logic in order.
fn handle_framed(
    mut framed: Vec<MSIMessage>,
    timestamp: u64,
    src_ip: &str,
    dst_ip: &str,
    src_port: u16,
    dst_port: u16,
    session_manager: &mut SessionManager,
    messages: &mut Vec<SomeIPMessage>,
) -> (r: Result<(), SomeIPError>)
    requires
        sessions_wf(old(session_manager)@),
        requests_fit(old(session_manager)@),
        forall|i: int|
            0 <= i < framed@.len() ==> (#[trigger] framed@[i]).payload@.len() + 8
                == framed@[i].header.length,
    ensures
        r is Ok,
        sessions_wf(final(session_manager)@),
        requests_fit(final(session_manager)@),
        appended_fit(final(messages)@, old(messages)@.len() as int),
        final(session_manager).timeout_spec() == old(session_manager).timeout_spec(),
        final(session_manager).max_pairs_spec() == old(session_manager).max_pairs_spec(),
        final(messages)@.len() >= old(messages)@.len(),
        final(messages)@.subrange(0, old(messages)@.len() as int) == old(messages)@,
        (final(session_manager)@, messages_view(final(messages)@)) == route_all(
            old(session_manager)@,
            messages_view(old(messages)@),
            framed_views(framed@, timestamp, (src_ip@, dst_ip@), src_port, dst_port),
            old(session_manager).timeout_spec(),
            old(session_manager).max_pairs_spec(),
        ),
{
    let ghost m0 = messages@;
    let ghost t0 = session_manager.timeout_spec();
    let ghost max0 = session_manager.max_pairs_spec();
    let ghost views = framed_views(framed@, timestamp, (src_ip@, dst_ip@), src_port, dst_port);
    let ghost n = framed@.len();
    let ghost s0 = session_manager@;
    let ghost mv0 = messages_view(messages@);
    let ghost mut k: int = 0;
    while framed.len() > 0
        invariant
            0 <= k <= n,
            n == views.len(),
            framed@.len() == n - k,
            forall|i: int| 0 <= i < framed@.len() ==> views[k + i] == (MessageView {
                timestamp,
                header: (#[trigger] framed@[i]).header,
                payload: framed@[i].payload@,
                src_ip: src_ip@,
                dst_ip: dst_ip@,
                src_port,
                dst_port,
            }),
            (session_manager@, messages_view(messages@)) == route_all(
                s0,
                mv0,
                views.subrange(0, k),
                t0,
                max0,
            ),
            sessions_wf(session_manager@),
            requests_fit(session_manager@),
            appended_fit(messages@, m0.len() as int),
            forall|i: int|
                0 <= i < framed@.len() ==> (#[trigger] framed@[i]).payload@.len() + 8
                    == framed@[i].header.length,
            session_manager.timeout_spec() == t0,
            session_manager.max_pairs_spec() == max0,
            messages@.len() >= m0.len(),
            messages@.subrange(0, m0.len() as int) == m0,
        decreases framed@.len(),
    {
        let ghost fr = framed@;
        let m = framed.remove(0);
        assert(m.payload@.len() + 8 == m.header.length) by {
            assert(fr[0] == m);
        }
        assert forall|i: int| 0 <= i < framed@.len() implies (#[trigger] framed@[i]).payload@.len() + 8
            == framed@[i].header.length by {
            assert(framed@[i] == fr[i + 1]);
        }
        let msg = create_someip_message(
            timestamp,
            src_ip,
            dst_ip,
            src_port,
            dst_port,
            m.header,
            m.payload,
        );
        let ghost before = messages@;
        assert(msg@ == views[k]) by {
            assert(fr[0] == m);
        }
        assert forall|i: int| 0 <= i < framed@.len() implies views[k + 1 + i] == (MessageView {
            timestamp,
            header: (#[trigger] framed@[i]).header,
            payload: framed@[i].payload@,
            src_ip: src_ip@,
            dst_ip: dst_ip@,
            src_port,
            dst_port,
        }) by {
            assert(framed@[i] == fr[i + 1]);
        }
        let _ = handle_someip_message(msg, session_manager, messages);
        proof {
            assert(views.subrange(0, k + 1).drop_last() =~= views.subrange(0, k));
            assert(views.subrange(0, k + 1).last() == views[k]);
            k = k + 1;
            assert(messages@.subrange(0, m0.len() as int) =~= before.subrange(0, m0.len() as int));
            assert forall|i: int| m0.len() <= i < messages@.len() implies payload_fits(
                (#[trigger] messages@[i])@,
            ) by {
                if i < before.len() {
                    assert(messages@.subrange(0, before.len() as int)[i] == before[i]);
                }
            }
        }
    }
    assert(views.subrange(0, n as int) =~= views);
    Ok(())
}

/// The source and destination addresses of a frame as text.
pub open spec fn frame_addresses(s: Seq<u8>) -> (Seq<char>, Seq<char>) {
    let n = link_body(s);
    if link_ethertype(s) == 0x0800 {
        (ipv4_text(n.subrange(12, 16)), ipv4_text(n.subrange(16, 20)))
    } else {
        (ipv6_text(n.subrange(8, 24)), ipv6_text(n.subrange(24, 40)))
    }
}

/// Decodes a frame down to its transport layer, with the source and
/// destination addresses as text. Every layer is decoded before the VLAN
/// filter applies: `Ok(None)` when a frame that decodes does not pass it.
pub fn decode_frame(data: &[u8], target_vlan: Option<u16>) -> (r: Result<
    Option<(String, String, TransportLayer)>,
    SomeIPError,
>)
    ensures
        frame_segment(data@) is None ==> (r matches Err(e) && e
            == SomeIPError::InvalidPacketFormat),
        frame_segment(data@) is Some && !vlan_passes(data@, target_vlan) ==> (r matches Ok(None)),
        frame_segment(data@) matches Some((p, t)) ==> (vlan_passes(data@, target_vlan) ==> (
        r matches Ok(Some((src, dst, tr))) && (src@, dst@) == frame_addresses(data@) && match tr {
            TransportLayer::UDP(u) => p == 17 && udp_matches(t, u),
            TransportLayer::TCP(c) => p == 6 && tcp_matches(t, c),
        })),
{
    let ghost s = data@;
    let link = match parse_link_layer(data) {
        Ok(l) => l,
        Err(e) => {
            return Err(e);
        },
    };
    let (vlan, ethertype) = match &link {
        LinkLayer::Ethernet(eth) => (
            match eth.vlan {
                Some(tag) => Some(vlan_id(tag.tci)),
                None => None,
            },
            eth.ethertype,
        ),
        LinkLayer::SLL(sll) => (None, sll.protocol),
    };
    assert(vlan == frame_vlan(s));
    assert(ethertype == link_ethertype(s));
    let net_payload = match &link {
        LinkLayer::Ethernet(eth) => eth.payload.as_slice(),
        LinkLayer::SLL(sll) => sll.payload.as_slice(),
    };
    assert(net_payload@ == link_body(s));
    let network = match parse_network_layer(net_payload, ethertype) {
        Ok(n) => n,
        Err(e) => {
            return Err(e);
        },
    };
    let (src_ip, dst_ip, protocol) = match &network {
        NetworkLayer::IPv4(p) => (format_ipv4(&p.src_ip), format_ipv4(&p.dst_ip), p.protocol),
        NetworkLayer::IPv6(p) => (format_ipv6(&p.src_ip), format_ipv6(&p.dst_ip), p.next_header),
    };
    assert((src_ip@, dst_ip@) == frame_addresses(s));
    let transport_payload = match &network {
        NetworkLayer::IPv4(p) => p.payload.as_slice(),
        NetworkLayer::IPv6(p) => p.payload.as_slice(),
    };
    assert(protocol == net_protocol(link_body(s), ethertype));
    assert(transport_payload@ == net_body(link_body(s), ethertype));
    let transport = match parse_transport_layer(transport_payload, protocol) {
        Ok(t) => t,
        Err(e) => {
            return Err(e);
        },
    };
    match (target_vlan, vlan) {
        (Some(target), Some(actual)) => {
            if actual != target {
                return Ok(None);
            }
        },
        _ => {},
    }
    Ok(Some((src_ip, dst_ip, transport)))
}

/// What the UDP path keeps.
pub struct UdpState {
    pub known: Set<u16>,
    pub sessions: Seq<PairView>,
    pub messages: Seq<MessageView>,
    pub tp: Seq<PendingView>,
}

/// What the TCP path keeps.
pub struct TcpState {
    pub sessions: Seq<PairView>,
    pub messages: Seq<MessageView>,
    pub tcp: Seq<StreamView>,
}

/// What a UDP datagram with payload `u`, between the given ports and
/// addresses and seen at `ts`, does on a known port. A datagram shorter than
/// a SomeIP header is ignored. A service-discovery packet on the SD port
/// teaches its ports first (and fails the datagram when it does not decode).
/// Then a TP-flagged message goes through reassembly, a multi-service
/// container is split into its messages, and any other message carries the
/// `length - 8` bytes after its header; what comes out is routed.
pub open spec fn udp_effect(
    u: Seq<u8>,
    src_port: u16,
    dst_port: u16,
    addr: (Seq<char>, Seq<char>),
    ts: u64,
    sd_port: u16,
    session_timeout: u64,
    max_pairs: usize,
    tp_timeout: u64,
    v0: UdpState,
    v1: UdpState,
    r: Result<(), SomeIPError>,
) -> bool {
    if u.len() < 16 {
        r is Ok && v1 == v0
    } else {
        let h = header_of(u);
        let b = u.subrange(16, u.len() as int);
        let is_sd = (src_port == sd_port || dst_port == sd_port) && h.service_id == 0xFFFF
            && h.method_id == 0x8100;
        let unrouted = v1.sessions == v0.sessions && v1.messages == v0.messages;
        if is_sd && !sd_decodes(b) {
            r == Err::<(), SomeIPError>(SomeIPError::InvalidPacketFormat) && v1 == v0
        } else {
            &&& v1.known == if is_sd {
                v0.known.union(sd_body_ports(b))
            } else {
                v0.known
            }
            &&& if tp_flagged(h) {
                if b.len() < 5 {
                    r == Err::<(), SomeIPError>(SomeIPError::TPSegmentError) && unrouted && v1.tp
                        == v0.tp
                } else {
                    let (next, out) = tp_admit(
                        expire(v0.tp, ts as int, tp_timeout as int),
                        h,
                        b[0] >= 128,
                        (b[0] / 64) % 2 == 1,
                        (be32(b, 0) % 0x4000_0000) as u32,
                        b.subrange(4, b.len() as int),
                        ts as int,
                    );
                    &&& v1.tp == next
                    &&& match out {
                        Err(e) => r == Err::<(), SomeIPError>(e) && unrouted,
                        Ok(None) => r is Ok && unrouted,
                        Ok(Some((mh, payload))) => r is Ok && (v1.sessions, v1.messages) == route(
                            v0.sessions,
                            v0.messages,
                            MessageView {
                                timestamp: ts,
                                header: mh,
                                payload,
                                src_ip: addr.0,
                                dst_ip: addr.1,
                                src_port,
                                dst_port,
                            },
                            session_timeout,
                            max_pairs,
                        ),
                    }
                }
            } else if h.service_id == 0xFFFF && h.method_id == 0x8101 {
                &&& v1.tp == v0.tp
                &&& match msi_frames(b, 0) {
                    None => r == Err::<(), SomeIPError>(SomeIPError::InvalidPacketFormat)
                        && unrouted,
                    Some(fs) => r is Ok && (v1.sessions, v1.messages) == route_all(
                        v0.sessions,
                        v0.messages,
                        framed_messages(b, fs, ts, addr, src_port, dst_port),
                        session_timeout,
                        max_pairs,
                    ),
                }
            } else {
                &&& v1.tp == v0.tp
                &&& if 8 <= h.length && 8 + h.length <= u.len() {
                    r is Ok && (v1.sessions, v1.messages) == route(
                        v0.sessions,
                        v0.messages,
                        MessageView {
                            timestamp: ts,
                            header: h,
                            payload: u.subrange(16, 8 + h.length),
                            src_ip: addr.0,
                            dst_ip: addr.1,
                            src_port,
                            dst_port,
                        },
                        session_timeout,
                        max_pairs,
                    )
                } else {
                    r == Err::<(), SomeIPError>(SomeIPError::InvalidPacketFormat) && unrouted
                }
            }
        }
    }
}

/// What a TCP segment of stream (addr.0, src_port) -> (addr.1, dst_port)
/// seen at `ts` does on a known port: the stream is admitted (see
/// `tcp_admit`), and the bytes it delivers in order, after those it kept,
/// are framed into whole messages that are routed in order; the rest is kept.
pub open spec fn tcp_effect(
    seq: u32,
    window: u16,
    flags: TCPFlags,
    payload: Seq<u8>,
    src_port: u16,
    dst_port: u16,
    addr: (Seq<char>, Seq<char>),
    ts: u64,
    max_connections: usize,
    segment_timeout: u64,
    connection_timeout: u64,
    session_timeout: u64,
    max_pairs: usize,
    v0: TcpState,
    v1: TcpState,
    r: Result<(), SomeIPError>,
) -> bool {
    let k = (addr.0, src_port, addr.1, dst_port);
    if payload.len() > u32::MAX {
        r == Err::<(), SomeIPError>(SomeIPError::TCPStreamError) && v1 == v0
    } else {
        let (next, out) = tcp_admit(
            live_streams(v0.tcp, ts, connection_timeout),
            k,
            seq,
            window,
            flags,
            payload,
            ts,
            max_connections,
            segment_timeout,
        );
        match out {
            None => r is Ok && v1 == TcpState { tcp: next, ..v0 },
            Some(d) => {
                let i = find_stream(next, k, 0);
                let buf = if i >= 0 {
                    next[i].undelivered + d
                } else {
                    d
                };
                let routed = route_all(
                    v0.sessions,
                    v0.messages,
                    framed_messages(buf, stream_frames(buf, 0), ts, addr, src_port, dst_port),
                    session_timeout,
                    max_pairs,
                );
                &&& r is Ok
                &&& v1.tcp == if i >= 0 {
                    next.update(i, StreamView { undelivered: leftover(buf), ..next[i] })
                } else {
                    next
                }
                &&& v1.sessions == routed.0
                &&& v1.messages == routed.1
            },
        }
    }
}

/// The UDP path (see `udp_effect`).
#[verifier::rlimit(60)]
fn process_udp(
    udp: UDPPacketInfo,
    src_ip: &str,
    dst_ip: &str,
    now: u64,
    sd_port: u16,
    known_ports: &mut HashSet<u16>,
    session_manager: &mut SessionManager,
    tp_parser: &mut TPParser,
    messages: &mut Vec<SomeIPMessage>,
) -> (r: Result<(), SomeIPError>)
    requires
        sessions_wf(old(session_manager)@),
        requests_fit(old(session_manager)@),
        pending_wf(old(tp_parser)@),
        pending_flagged(old(tp_parser)@),
    ensures
        sessions_wf(final(session_manager)@),
        requests_fit(final(session_manager)@),
        pending_wf(final(tp_parser)@),
        pending_flagged(final(tp_parser)@),
        appended_fit(final(messages)@, old(messages)@.len() as int),
        final(messages)@.len() >= old(messages)@.len(),
        final(messages)@.subrange(0, old(messages)@.len() as int) == old(messages)@,
        final(session_manager).timeout_spec() == old(session_manager).timeout_spec(),
        final(session_manager).max_pairs_spec() == old(session_manager).max_pairs_spec(),
        final(tp_parser).timeout_spec() == old(tp_parser).timeout_spec(),
        udp_effect(
            udp.payload@,
            udp.src_port,
            udp.dst_port,
            (src_ip@, dst_ip@),
            now,
            sd_port,
            old(session_manager).timeout_spec(),
            old(session_manager).max_pairs_spec(),
            old(tp_parser).timeout_spec(),
            UdpState {
                known: old(known_ports)@,
                sessions: old(session_manager)@,
                messages: messages_view(old(messages)@),
                tp: old(tp_parser)@,
            },
            UdpState {
                known: final(known_ports)@,
                sessions: final(session_manager)@,
                messages: messages_view(final(messages)@),
                tp: final(tp_parser)@,
            },
            r,
        ),
{
    let ghost u = udp.payload@;
    if udp.payload.len() < 16 {
        return Ok(());
    }
    let header = match parse_someip_header(udp.payload.as_slice()) {
        Ok(h) => h,
        Err(e) => {
            return Err(e);
        },
    };
    let body = copy_range(udp.payload.as_slice(), 16, udp.payload.len());
    if (udp.src_port == sd_port || udp.dst_port == sd_port) && header.service_id == 0xFFFF
        && header.method_id == 0x8100 {
        match parse_sd_packet(body.as_slice(), header) {
            Ok(sd) => {
                proof {
                    let b = body@;
                    let q = entry_starts(b, 8, (be32(b, 4) / 16) as nat).last();
                    lemma_announced_ports(b, q + 4, q + 4 + be32(b, q), sd.options@);
                    assert(announced_ports(sd.options@) == sd_body_ports(b));
                }
                learn_ports_from_sd(&sd, known_ports);
            },
            Err(e) => {
                return Err(e);
            },
        }
    }
    if is_tp_message(&header) {
        let segment = match parse_tp_segment(body.as_slice(), header) {
            Ok(seg) => seg,
            Err(e) => {
                return Err(e);
            },
        };
        proof {
            lemma_admit_flagged(
                tp_parser@,
                now as int,
                tp_parser.timeout_spec() as int,
                segment.header,
                segment.is_first,
                segment.is_last,
                segment.offset,
                segment.payload@,
            );
        }
        match tp_parser.process_segment(segment, now) {
            Ok(Some(reassembled)) => {
                let msg = create_someip_message(
                    now,
                    src_ip,
                    dst_ip,
                    udp.src_port,
                    udp.dst_port,
                    reassembled.header,
                    reassembled.payload,
                );
                handle_someip_message(msg, session_manager, messages)
            },
            Ok(None) => Ok(()),
            Err(e) => Err(e),
        }
    } else if header.service_id == 0xFFFF && header.method_id == 0x8101 {
        match parse_msi_packet(body.as_slice()) {
            Ok(msi) => {
                proof {
                    lemma_framed_views(
                        body@,
                        msi_frames(body@, 0)->0,
                        msi.messages@,
                        now,
                        (src_ip@, dst_ip@),
                        udp.src_port,
                        udp.dst_port,
                    );
                }
                handle_framed(
                    msi.messages,
                    now,
                    src_ip,
                    dst_ip,
                    udp.src_port,
                    udp.dst_port,
                    session_manager,
                    messages,
                )
            },
            Err(e) => Err(e),
        }
    } else {
        match extract_payload(udp.payload.as_slice(), &header) {
            Ok(payload) => {
                let msg = create_someip_message(
                    now,
                    src_ip,
                    dst_ip,
                    udp.src_port,
                    udp.dst_port,
                    header,
                    payload,
                );
                handle_someip_message(msg, session_manager, messages)
            },
            Err(e) => Err(e),
        }
    }
}

/// The TCP path (see `tcp_effect`).
#[verifier::rlimit(60)]
fn process_tcp(
    tcp: TCPPacketInfo,
    src_ip: &str,
    dst_ip: &str,
    now: u64,
    session_manager: &mut SessionManager,
    tcp_flow: &mut TcpFlowController,
    messages: &mut Vec<SomeIPMessage>,
) -> (r: Result<(), SomeIPError>)
    requires
        sessions_wf(old(session_manager)@),
        requests_fit(old(session_manager)@),
        streams_wf(old(tcp_flow)@),
    ensures
        sessions_wf(final(session_manager)@),
        requests_fit(final(session_manager)@),
        streams_wf(final(tcp_flow)@),
        appended_fit(final(messages)@, old(messages)@.len() as int),
        final(messages)@.len() >= old(messages)@.len(),
        final(messages)@.subrange(0, old(messages)@.len() as int) == old(messages)@,
        final(session_manager).timeout_spec() == old(session_manager).timeout_spec(),
        final(session_manager).max_pairs_spec() == old(session_manager).max_pairs_spec(),
        final(tcp_flow).max_connections_spec() == old(tcp_flow).max_connections_spec(),
        final(tcp_flow).segment_timeout_spec() == old(tcp_flow).segment_timeout_spec(),
        final(tcp_flow).connection_timeout_spec() == old(tcp_flow).connection_timeout_spec(),
        tcp_effect(
            tcp.seq_num,
            tcp.window_size,
            tcp.flags,
            tcp.payload@,
            tcp.src_port,
            tcp.dst_port,
            (src_ip@, dst_ip@),
            now,
            old(tcp_flow).max_connections_spec(),
            old(tcp_flow).segment_timeout_spec(),
            old(tcp_flow).connection_timeout_spec(),
            old(session_manager).timeout_spec(),
            old(session_manager).max_pairs_spec(),
            TcpState {
                sessions: old(session_manager)@,
                messages: messages_view(old(messages)@),
                tcp: old(tcp_flow)@,
            },
            TcpState {
                sessions: final(session_manager)@,
                messages: messages_view(final(messages)@),
                tcp: final(tcp_flow)@,
            },
            r,
        ),
{
    let payload = copy_range(tcp.payload.as_slice(), 0, tcp.payload.len());
    assert(payload@ =~= tcp.payload@);
    match tcp_flow.process_tcp_packet(src_ip, dst_ip, &tcp, payload, now) {
        Ok(Some(data)) => {
            let ghost mid = tcp_flow@;
            let ghost d = data@;
            let framed = tcp_flow.take_messages(src_ip, tcp.src_port, dst_ip, tcp.dst_port, data);
            proof {
                let k = (src_ip@, tcp.src_port, dst_ip@, tcp.dst_port);
                let i = find_stream(mid, k, 0);
                let buf = if i >= 0 {
                    mid[i].undelivered + d
                } else {
                    d
                };
                lemma_framed_views(
                    buf,
                    stream_frames(buf, 0),
                    framed@,
                    now,
                    (src_ip@, dst_ip@),
                    tcp.src_port,
                    tcp.dst_port,
                );
            }
            handle_framed(
                framed,
                now,
                src_ip,
                dst_ip,
                tcp.src_port,
                tcp.dst_port,
                session_manager,
                messages,
            )
        },
        Ok(None) => Ok(()),
        Err(e) => Err(e),
    }
}

/// Processes one captured frame at its capture time: decodes its layers,
/// drops it when its VLAN does not match the filter or neither of its ports
/// is known, and otherwise passes it to the UDP or TCP path (`udp_effect`,
/// `tcp_effect`). Every error is scoped to this frame.
#[verifier::rlimit(60)]
pub fn process_raw_packet(
    raw_packet: &RawPacket,
    sd_port: u16,
    target_vlan: Option<u16>,
    known_ports: &mut HashSet<u16>,
    session_manager: &mut SessionManager,
    tp_parser: &mut TPParser,
    tcp_flow: &mut TcpFlowController,
    messages: &mut Vec<SomeIPMessage>,
) -> (r: Result<(), SomeIPError>)
    requires
        sessions_wf(old(session_manager)@),
        requests_fit(old(session_manager)@),
        pending_wf(old(tp_parser)@),
        pending_flagged(old(tp_parser)@),
        streams_wf(old(tcp_flow)@),
    ensures
        sessions_wf(final(session_manager)@),
        requests_fit(final(session_manager)@),
        pending_wf(final(tp_parser)@),
        pending_flagged(final(tp_parser)@),
        streams_wf(final(tcp_flow)@),
        appended_fit(final(messages)@, old(messages)@.len() as int),
        old(known_ports)@.subset_of(final(known_ports)@),
        old(known_ports)@.contains(sd_port) ==> final(known_ports)@.contains(sd_port),
        final(messages)@.len() >= old(messages)@.len(),
        final(messages)@.subrange(0, old(messages)@.len() as int) == old(messages)@,
        final(session_manager).timeout_spec() == old(session_manager).timeout_spec(),
        final(session_manager).max_pairs_spec() == old(session_manager).max_pairs_spec(),
        final(tp_parser).timeout_spec() == old(tp_parser).timeout_spec(),
        final(tcp_flow).max_connections_spec() == old(tcp_flow).max_connections_spec(),
        final(tcp_flow).segment_timeout_spec() == old(tcp_flow).segment_timeout_spec(),
        final(tcp_flow).connection_timeout_spec() == old(tcp_flow).connection_timeout_spec(),
        ({
            let s = raw_packet.data@;
            let ts = raw_packet.timestamp;
            let addr = frame_addresses(s);
            let k0 = old(known_ports)@;
            let k1 = final(known_ports)@;
            let s0 = old(session_manager)@;
            let s1 = final(session_manager)@;
            let m0 = messages_view(old(messages)@);
            let m1 = messages_view(final(messages)@);
            let tp0 = old(tp_parser)@;
            let tp1 = final(tp_parser)@;
            let tcp0 = old(tcp_flow)@;
            let tcp1 = final(tcp_flow)@;
            let v0 = old(messages)@;
            let v1 = final(messages)@;
            let unchanged = k1 == k0 && s1 == s0 && tp1 == tp0 && tcp1 == tcp0 && v1 == v0;
            &&& frame_segment(s) is None ==> r == Err::<(), SomeIPError>(
                SomeIPError::InvalidPacketFormat,
            ) && unchanged
            &&& frame_segment(s) is Some && !vlan_passes(s, target_vlan) ==> r is Ok && unchanged
            &&& frame_segment(s) matches Some((p, t)) ==> (vlan_passes(s, target_vlan) ==> {
                let src = be16(t, 0) as u16;
                let dst = be16(t, 2) as u16;
                let known = k0.contains(src) || k0.contains(dst);
                let w = be16(t, 12);
                &&& !known ==> r is Ok && unchanged
                &&& known && p == 17 ==> tcp1 == tcp0 && udp_effect(
                    t.subrange(8, t.len() as int),
                    src,
                    dst,
                    addr,
                    ts,
                    sd_port,
                    old(session_manager).timeout_spec(),
                    old(session_manager).max_pairs_spec(),
                    old(tp_parser).timeout_spec(),
                    UdpState { known: k0, sessions: s0, messages: m0, tp: tp0 },
                    UdpState { known: k1, sessions: s1, messages: m1, tp: tp1 },
                    r,
                )
                &&& known && p == 6 ==> k1 == k0 && tp1 == tp0 && tcp_effect(
                    be32(t, 4) as u32,
                    be16(t, 14) as u16,
                    tcp_flags_of(w),
                    t.subrange((w / 4096) * 4, t.len() as int),
                    src,
                    dst,
                    addr,
                    ts,
                    old(tcp_flow).max_connections_spec(),
                    old(tcp_flow).segment_timeout_spec(),
                    old(tcp_flow).connection_timeout_spec(),
                    old(session_manager).timeout_spec(),
                    old(session_manager).max_pairs_spec(),
                    TcpState { sessions: s0, messages: m0, tcp: tcp0 },
                    TcpState { sessions: s1, messages: m1, tcp: tcp1 },
                    r,
                )
            })
        }),
{
    let now = raw_packet.timestamp;
    let (src_ip, dst_ip, transport) = match decode_frame(raw_packet.data.as_slice(), target_vlan) {
        Ok(Some(d)) => d,
        Ok(None) => {
            return Ok(());
        },
        Err(e) => {
            return Err(e);
        },
    };
    match transport {
        TransportLayer::UDP(udp) => {
            if !known_ports.contains(&udp.src_port) && !known_ports.contains(&udp.dst_port) {
                return Ok(());
            }
            process_udp(
                udp,
                src_ip.as_str(),
                dst_ip.as_str(),
                now,
                sd_port,
                known_ports,
                session_manager,
                tp_parser,
                messages,
            )
        },
        TransportLayer::TCP(tcp) => {
            if !known_ports.contains(&tcp.src_port) && !known_ports.contains(&tcp.dst_port) {
                return Ok(());
            }
            process_tcp(
                tcp,
                src_ip.as_str(),
                dst_ip.as_str(),
                now,
                session_manager,
                tcp_flow,
                messages,
            )
        },
    }
}

/// At the end of the capture: the requests that have expired by `now`
/// without a response go out, oldest first.
pub fn flush_expired_requests(
    session_manager: &mut SessionManager,
    now: u64,
    messages: &mut Vec<SomeIPMessage>,
)
    requires
        sessions_wf(old(session_manager)@),
        requests_fit(old(session_manager)@),
    ensures
        sessions_wf(final(session_manager)@),
        requests_fit(final(session_manager)@),
        appended_fit(final(messages)@, old(messages)@.len() as int),
        final(session_manager)@ == crate::session::live_at(old(session_manager)@, now),
        messages_view(final(messages)@) == messages_view(old(messages)@) + crate::session::expired_at(
            old(session_manager)@,
            now,
        ).map_values(|p: crate::session::PairView| p.request),
{
    let ghost m0 = messages_view(messages@);
    let ghost v0 = messages@;
    proof {
        lemma_sweep_fits(session_manager@, now);
    }
    let mut expired = session_manager.cleanup_expired_sessions(now);
    let ghost ev = expired@.map_values(|p: crate::session::RequestResponsePair| p@);
    let ghost n = ev.len();
    let ghost mut k: int = 0;
    while expired.len() > 0
        invariant
            0 <= k <= n,
            n == ev.len(),
            expired@.len() == n - k,
            forall|j: int| 0 <= j < expired@.len() ==> #[trigger] expired@[j]@ == ev[k + j],
            messages_view(messages@) == m0 + ev.subrange(0, k).map_values(
                |p: crate::session::PairView| p.request,
            ),
        decreases expired@.len(),
    {
        let ghost before = expired@;
        let ghost mb = messages_view(messages@);
        let pair = expired.remove(0);
        assert(pair@ == ev[k]) by {
            assert(before[0]@ == ev[k + 0]);
        };
        messages.push(pair.request);
        proof {
            assert forall|j: int| 0 <= j < expired@.len() implies #[trigger] expired@[j]@ == ev[k + 1
                + j] by {
                assert(expired@[j] == before[j + 1]);
            }
            assert(messages_view(messages@) =~= mb.push(ev[k].request));
            assert(ev.subrange(0, k + 1).map_values(|p: crate::session::PairView| p.request)
                =~= ev.subrange(0, k).map_values(|p: crate::session::PairView| p.request).push(
                ev[k].request,
            ));
            assert(messages_view(messages@) =~= m0 + ev.subrange(0, k + 1).map_values(
                |p: crate::session::PairView| p.request,
            ));
            k = k + 1;
        }
    }
    assert(ev.subrange(0, n as int) =~= ev);
    proof {
        let e = crate::session::expired_at(old(session_manager)@, now);
        assert forall|i: int| v0.len() <= i < messages@.len() implies payload_fits(
            (#[trigger] messages@[i])@,
        ) by {
            assert(messages_view(messages@)[i] == messages@[i]@);
            assert(messages_view(v0).len() == v0.len());
            let j = i - v0.len();
            assert(messages@[i]@ == e.map_values(|p: crate::session::PairView| p.request)[j]);
            assert(payload_fits(e[j].request));
        }
    }
}

} // verus!
