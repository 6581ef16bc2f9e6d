use std::collections::HashSet;

use someip_analyzer::analyzer::{flush_expired_requests, process_raw_packet, RawPacket};
use someip_analyzer::flow_control::TcpFlowController;
use someip_analyzer::header::{MessageType, ReturnCode};
use someip_analyzer::session::{SessionManager, SomeIPMessage};
use someip_analyzer::tp::TPParser;

struct State {
    known: HashSet<u16>,
    sessions: SessionManager,
    tp: TPParser,
    tcp: TcpFlowController,
    messages: Vec<SomeIPMessage>,
}

fn state() -> State {
    let mut known = HashSet::new();
    known.insert(30490);
    State {
        known,
        sessions: SessionManager::new(5_000_000, 10_000),
        tp: TPParser::new(30_000_000),
        tcp: TcpFlowController::new(100, 30_000_000, 60_000_000),
        messages: Vec::new(),
    }
}

fn someip(service: u16, method: u16, client: u16, session: u16, mtype: u8, rc: u8, payload: &[u8]) -> Vec<u8> {
    let length = 8 + payload.len() as u32;
    let mut v = Vec::new();
    v.extend_from_slice(&service.to_be_bytes());
    v.extend_from_slice(&method.to_be_bytes());
    v.extend_from_slice(&length.to_be_bytes());
    v.extend_from_slice(&client.to_be_bytes());
    v.extend_from_slice(&session.to_be_bytes());
    v.extend_from_slice(&[1, 1, mtype, rc]);
    v.extend_from_slice(payload);
    v
}

fn ipv4_frame(protocol: u8, transport: &[u8]) -> Vec<u8> {
    let mut v = vec![0x02, 0, 0, 0, 0, 1, 0x02, 0, 0, 0, 0, 2, 0x08, 0x00];
    let total = (20 + transport.len()) as u16;
    v.extend_from_slice(&[0x45, 0]);
    v.extend_from_slice(&total.to_be_bytes());
    v.extend_from_slice(&[0, 0, 0, 0, 64, protocol, 0, 0, 10, 0, 0, 1, 10, 0, 0, 2]);
    v.extend_from_slice(transport);
    v
}

fn udp_frame(src_port: u16, dst_port: u16, payload: &[u8]) -> Vec<u8> {
    let mut u = Vec::new();
    u.extend_from_slice(&src_port.to_be_bytes());
    u.extend_from_slice(&dst_port.to_be_bytes());
    u.extend_from_slice(&((8 + payload.len()) as u16).to_be_bytes());
    u.extend_from_slice(&[0, 0]);
    u.extend_from_slice(payload);
    ipv4_frame(17, &u)
}

fn tcp_frame(src_port: u16, dst_port: u16, seq: u32, flags: u16, payload: &[u8]) -> Vec<u8> {
    let mut t = Vec::new();
    t.extend_from_slice(&src_port.to_be_bytes());
    t.extend_from_slice(&dst_port.to_be_bytes());
    t.extend_from_slice(&seq.to_be_bytes());
    t.extend_from_slice(&0u32.to_be_bytes());
    t.extend_from_slice(&(0x5000u16 | flags).to_be_bytes());
    t.extend_from_slice(&[0xFF, 0xFF, 0, 0, 0, 0]);
    t.extend_from_slice(payload);
    ipv4_frame(6, &t)
}

fn feed(s: &mut State, timestamp: u64, data: Vec<u8>) -> Result<(), someip_analyzer::error::SomeIPError> {
    process_raw_packet(
        &RawPacket { timestamp, data },
        30490,
        None,
        &mut s.known,
        &mut s.sessions,
        &mut s.tp,
        &mut s.tcp,
        &mut s.messages,
    )
}

#[test]
fn plain_udp_request_then_response() {
    let mut s = state();
    let a = someip(0x1234, 0x0001, 0x0001, 0x0001, 0x00, 0x00, &[0xAA, 0xBB]);
    assert_eq!(a.len(), 18);
    feed(&mut s, 1_000, udp_frame(30490, 40000, &a)).unwrap();
    assert_eq!(s.messages.len(), 0);
    let b = someip(0x1234, 0x0001, 0x0001, 0x0001, 0x80, 0x00, &[0xCC, 0xDD]);
    feed(&mut s, 2_000, udp_frame(40000, 30490, &b)).unwrap();
    assert_eq!(s.messages.len(), 2);
    assert_eq!(s.messages[0].header.message_type, MessageType::Request);
    assert_eq!(s.messages[0].payload, vec![0xAA, 0xBB]);
    assert_eq!(s.messages[1].header.message_type, MessageType::Response);
    assert_eq!(s.messages[1].header.return_code, ReturnCode::Okay);
    assert_eq!(s.messages[1].payload, vec![0xCC, 0xDD]);
    assert_eq!(s.messages[0].src_ip, "10.0.0.1");
    assert_eq!(s.messages[0].timestamp, 1_000);
    assert_eq!(s.sessions.len(), 0);
}

fn sd_with_endpoint(port: u16) -> Vec<u8> {
    let mut body = vec![0xC0, 0, 0, 0];
    body.extend_from_slice(&0u32.to_be_bytes());
    body.extend_from_slice(&11u32.to_be_bytes());
    body.extend_from_slice(&[0x00, 0x07, 0x04, 0x00, 192, 168, 0, 1, 0x11]);
    body.extend_from_slice(&port.to_be_bytes());
    someip(0xFFFF, 0x8100, 0, 1, 0x02, 0x00, &body)
}

#[test]
fn sd_port_learning_opens_announced_port() {
    let mut s = state();
    feed(&mut s, 0, udp_frame(30490, 30490, &sd_with_endpoint(50001))).unwrap();
    assert!(s.known.contains(&50001));
    assert!(s.known.contains(&30490));
    let before = s.messages.len();
    let n = someip(0x4321, 0x8001, 0, 0, 0x02, 0x00, &[1, 2, 3]);
    feed(&mut s, 10, udp_frame(40000, 50001, &n)).unwrap();
    assert_eq!(s.messages.len(), before + 1);
    assert_eq!(s.messages[before].header.service_id, 0x4321);
    feed(&mut s, 20, udp_frame(40000, 50002, &n)).unwrap();
    assert_eq!(s.messages.len(), before + 1);
}

fn tp_datagram(first: bool, last: bool, offset: u32, data: &[u8], length: u32) -> Vec<u8> {
    let mut v = Vec::new();
    v.extend_from_slice(&0x1234u16.to_be_bytes());
    v.extend_from_slice(&0x0001u16.to_be_bytes());
    v.extend_from_slice(&length.to_be_bytes());
    v.extend_from_slice(&0x0001u16.to_be_bytes());
    v.extend_from_slice(&0x0002u16.to_be_bytes());
    v.extend_from_slice(&[1, 1, 0x22, 0]);
    let mut tp = offset;
    if first {
        tp |= 0x8000_0000;
    }
    if last {
        tp |= 0x4000_0000;
    }
    v.extend_from_slice(&tp.to_be_bytes());
    v.extend_from_slice(data);
    v
}

#[test]
fn tp_out_of_order_fragments_reassemble_through_frames() {
    let mut s = state();
    let a: Vec<u8> = (0..16).collect();
    let b: Vec<u8> = (16..32).collect();
    let c: Vec<u8> = (32..48).collect();
    feed(&mut s, 0, udp_frame(30490, 40000, &tp_datagram(true, false, 0, &a, 56))).unwrap();
    feed(&mut s, 1, udp_frame(30490, 40000, &tp_datagram(false, true, 32, &c, 28))).unwrap();
    assert_eq!(s.messages.len(), 0);
    feed(&mut s, 2, udp_frame(30490, 40000, &tp_datagram(false, false, 16, &b, 28))).unwrap();
    assert_eq!(s.messages.len(), 1);
    let expected: Vec<u8> = (0..48).collect();
    assert_eq!(s.messages[0].payload, expected);
    assert_eq!(s.tp.pending_count(), 0);
}

#[test]
fn tcp_stream_frames_someip_messages() {
    let mut s = state();
    let m1 = someip(0x1111, 0x8001, 0, 0, 0x02, 0x00, &[1, 2, 3, 4]);
    let m2 = someip(0x2222, 0x8002, 0, 0, 0x02, 0x00, &[5, 6]);
    let mut stream = m1.clone();
    stream.extend_from_slice(&m2);
    let (head, tail) = stream.split_at(20);
    feed(&mut s, 0, tcp_frame(40000, 30490, 5000, 0, head)).unwrap();
    assert_eq!(s.messages.len(), 1);
    feed(&mut s, 1, tcp_frame(40000, 30490, 5020, 0, tail)).unwrap();
    assert_eq!(s.messages[0].header.service_id, 0x1111);
    assert_eq!(s.messages[0].payload, vec![1, 2, 3, 4]);
    assert_eq!(s.messages.len(), 2);
    assert_eq!(s.messages[1].header.service_id, 0x2222);
}

#[test]
fn tcp_message_split_across_deliveries_is_kept() {
    let mut s = state();
    let m1 = someip(0x1111, 0x8001, 0, 0, 0x02, 0x00, &[1, 2, 3, 4]);
    let m2 = someip(0x2222, 0x8002, 0, 0, 0x02, 0x00, &[5, 6]);
    let mut stream = m1.clone();
    stream.extend_from_slice(&m2);
    let (head, tail) = stream.split_at(10);
    feed(&mut s, 0, tcp_frame(40000, 30490, 7000, 0, head)).unwrap();
    assert_eq!(s.messages.len(), 0);
    feed(&mut s, 1, tcp_frame(40000, 30490, 7010, 0, tail)).unwrap();
    assert_eq!(s.messages.len(), 2);
    assert_eq!(s.messages[0].payload, vec![1, 2, 3, 4]);
    assert_eq!(s.messages[1].payload, vec![5, 6]);
}

#[test]
fn tcp_invalid_length_does_not_block_the_stream() {
    let mut s = state();
    let mut bad = someip(0x1111, 0x8001, 0, 0, 0x02, 0x00, &[]);
    bad[7] = 3;
    feed(&mut s, 0, tcp_frame(40000, 30490, 100, 0, &bad)).unwrap();
    assert_eq!(s.messages.len(), 0);
    let good = someip(0x3333, 0x8001, 0, 0, 0x02, 0x00, &[9]);
    feed(&mut s, 1, tcp_frame(40000, 30490, 116, 0, &good)).unwrap();
    assert_eq!(s.messages.len(), 1);
    assert_eq!(s.messages[0].header.service_id, 0x3333);
}

#[test]
fn unknown_port_traffic_is_dropped() {
    let mut s = state();
    let n = someip(0x4321, 0x8001, 0, 0, 0x02, 0x00, &[1]);
    feed(&mut s, 0, udp_frame(1000, 2000, &n)).unwrap();
    assert_eq!(s.messages.len(), 0);
}

#[test]
fn vlan_filter_drops_other_vlans() {
    let mut s = state();
    let n = someip(0x4321, 0x8001, 0, 0, 0x02, 0x00, &[1]);
    let plain = udp_frame(30490, 2000, &n);
    let mut tagged = plain[..12].to_vec();
    tagged.extend_from_slice(&[0x81, 0x00, 0x00, 0x07]);
    tagged.extend_from_slice(&plain[12..]);
    let run = |s: &mut State, vlan: Option<u16>, data: Vec<u8>| {
        process_raw_packet(
            &RawPacket { timestamp: 0, data },
            30490,
            vlan,
            &mut s.known,
            &mut s.sessions,
            &mut s.tp,
            &mut s.tcp,
            &mut s.messages,
        )
    };
    run(&mut s, Some(8), tagged.clone()).unwrap();
    assert_eq!(s.messages.len(), 0);
    run(&mut s, Some(7), tagged).unwrap();
    assert_eq!(s.messages.len(), 1);
}

#[test]
fn vlan_filtered_frame_with_broken_ip_is_reported() {
    let mut s = state();
    let n = someip(0x4321, 0x8001, 0, 0, 0x02, 0x00, &[1]);
    let plain = udp_frame(30490, 2000, &n);
    let mut tagged = plain[..12].to_vec();
    tagged.extend_from_slice(&[0x81, 0x00, 0x00, 0x07]);
    tagged.extend_from_slice(&plain[12..]);
    tagged[18] = 0x44;
    let r = process_raw_packet(
        &RawPacket { timestamp: 0, data: tagged },
        30490,
        Some(8),
        &mut s.known,
        &mut s.sessions,
        &mut s.tp,
        &mut s.tcp,
        &mut s.messages,
    );
    assert_eq!(r, Err(someip_analyzer::error::SomeIPError::InvalidPacketFormat));
    assert_eq!(s.messages.len(), 0);
}

#[test]
fn malformed_frame_is_reported() {
    let mut s = state();
    assert_eq!(feed(&mut s, 0, vec![1, 2, 3]), Err(someip_analyzer::error::SomeIPError::InvalidPacketFormat));
    let mut short = someip(0x1234, 1, 1, 1, 0x02, 0, &[1, 2]);
    short[7] = 40;
    assert_eq!(
        feed(&mut s, 0, udp_frame(30490, 1, &short)),
        Err(someip_analyzer::error::SomeIPError::InvalidPacketFormat)
    );
}

#[test]
fn expired_requests_are_flushed_at_end() {
    let mut s = state();
    let a = someip(0x1234, 0x0001, 0x0001, 0x0009, 0x00, 0x00, &[7]);
    feed(&mut s, 0, udp_frame(30490, 40000, &a)).unwrap();
    flush_expired_requests(&mut s.sessions, 4_000_000, &mut s.messages);
    assert_eq!(s.messages.len(), 0);
    flush_expired_requests(&mut s.sessions, 6_000_000, &mut s.messages);
    assert_eq!(s.messages.len(), 1);
    assert_eq!(s.messages[0].header.session_id, 0x0009);
}
