use someip_analyzer::error::SomeIPError;
use someip_analyzer::flow_control::TcpFlowController;
use someip_analyzer::header::{MessageType, ReturnCode, SomeIPHeader};
use someip_analyzer::session::{SessionManager, SomeIPMessage};
use someip_analyzer::tp::{parse_tp_segment, TPParser, TPSegment};
use someip_analyzer::transport_layer::{TCPFlags, TCPPacketInfo};

fn header(service: u16, client: u16, session: u16, length: u32, mt: MessageType) -> SomeIPHeader {
    SomeIPHeader {
        service_id: service,
        method_id: 0x0001,
        length,
        client_id: client,
        session_id: session,
        protocol_version: 1,
        interface_version: 1,
        message_type: mt,
        return_code: ReturnCode::Okay,
    }
}

fn segment(first: bool, last: bool, offset: u32, data: Vec<u8>) -> TPSegment {
    TPSegment {
        header: header(0x1234, 0x0001, 0x0002, 56, MessageType::Unknown(0x20)),
        is_first: first,
        is_last: last,
        offset,
        payload: data,
    }
}

#[test]
fn tp_three_fragments_out_of_order() {
    let mut tp = TPParser::new(30_000_000);
    let a: Vec<u8> = (0..16).collect();
    let b: Vec<u8> = (16..32).collect();
    let c: Vec<u8> = (32..48).collect();
    assert_eq!(tp.process_segment(segment(true, false, 0, a), 0), Ok(None));
    assert_eq!(tp.process_segment(segment(false, true, 32, c), 1), Ok(None));
    assert_eq!(tp.pending_count(), 1);
    let out = tp.process_segment(segment(false, false, 16, b), 2).unwrap().unwrap();
    assert_eq!(out.payload.len(), 48);
    assert_eq!(out.payload, (0..48).collect::<Vec<u8>>());
    assert_eq!(out.header.session_id, 0x0002);
    assert_eq!(tp.pending_count(), 0);
}

#[test]
fn tp_single_fragment_emits_once() {
    let mut tp = TPParser::new(30_000_000);
    let out = tp.process_segment(segment(true, true, 0, vec![9, 8, 7]), 0).unwrap();
    assert_eq!(out.unwrap().payload, vec![9, 8, 7]);
    assert_eq!(tp.pending_count(), 0);
    assert_eq!(tp.process_segment(segment(false, true, 3, vec![1]), 1), Ok(None));
}

#[test]
fn tp_gap_closes_once() {
    let mut tp = TPParser::new(30_000_000);
    assert_eq!(tp.process_segment(segment(true, false, 0, vec![1; 16]), 0), Ok(None));
    assert_eq!(tp.process_segment(segment(false, false, 32, vec![3; 16]), 0), Ok(None));
    let out = tp.process_segment(segment(false, false, 16, vec![2; 16]), 0).unwrap().unwrap();
    let mut expected = vec![1u8; 16];
    expected.extend_from_slice(&[2; 16]);
    expected.extend_from_slice(&[3; 16]);
    assert_eq!(out.payload, expected);
    assert_eq!(tp.process_segment(segment(false, false, 16, vec![2; 16]), 0), Ok(None));
}

#[test]
fn tp_fragment_without_start_is_dropped() {
    let mut tp = TPParser::new(30_000_000);
    assert_eq!(tp.process_segment(segment(false, true, 16, vec![1; 16]), 0), Ok(None));
    assert_eq!(tp.pending_count(), 0);
}

#[test]
fn tp_pending_message_expires() {
    let mut tp = TPParser::new(30_000_000);
    assert_eq!(tp.process_segment(segment(true, false, 0, vec![1; 16]), 0), Ok(None));
    assert_eq!(tp.process_segment(segment(false, true, 32, vec![1; 16]), 40_000_000), Ok(None));
    assert_eq!(tp.pending_count(), 0);
}

#[test]
fn tp_first_fragment_with_short_length_is_an_error() {
    let mut tp = TPParser::new(30_000_000);
    let mut s = segment(true, false, 0, vec![1; 4]);
    s.header.length = 4;
    assert_eq!(tp.process_segment(s, 0), Err(SomeIPError::TPSegmentError));
}

#[test]
fn tp_segment_decoding() {
    let h = header(0x1234, 1, 2, 56, MessageType::Unknown(0x20));
    let seg = parse_tp_segment(&[0x80, 0, 0, 0, 0xAA, 0xBB], h).unwrap();
    assert!(seg.is_first);
    assert!(!seg.is_last);
    assert_eq!(seg.offset, 0);
    assert_eq!(seg.payload, vec![0xAA, 0xBB]);
    let seg = parse_tp_segment(&[0x40, 0, 0, 0x20, 0xCC], h).unwrap();
    assert!(!seg.is_first);
    assert!(seg.is_last);
    assert_eq!(seg.offset, 32);
    assert_eq!(parse_tp_segment(&[0x80, 0, 0], h), Err(SomeIPError::TPSegmentError));
}

fn tcp(seq: u32, syn: bool, fin: bool, rst: bool) -> TCPPacketInfo {
    TCPPacketInfo {
        src_port: 40000,
        dst_port: 30490,
        seq_num: seq,
        ack_num: 0,
        data_offset: 5,
        reserved: 0,
        flags: TCPFlags { ns: false, cwr: false, ece: false, urg: false, ack: true, psh: false, rst, syn, fin },
        window_size: 1024,
        checksum: 0,
        urgent_ptr: 0,
        options: Vec::new(),
        payload: Vec::new(),
    }
}

#[test]
fn tcp_reordering_delivers_in_sequence() {
    let mut flow = TcpFlowController::new(100, 30_000_000, 60_000_000);
    let a = vec![1u8; 40];
    let b = vec![2u8; 40];
    let c = vec![3u8; 40];
    let first = flow.process_tcp_packet("10.0.0.1", "10.0.0.2", &tcp(1000, false, false, false), a.clone(), 0).unwrap();
    assert_eq!(first, Some(a.clone()));
    assert_eq!(flow.process_tcp_packet("10.0.0.1", "10.0.0.2", &tcp(1080, false, false, false), c.clone(), 1).unwrap(), None);
    let rest = flow.process_tcp_packet("10.0.0.1", "10.0.0.2", &tcp(1040, false, false, false), b.clone(), 2).unwrap().unwrap();
    let mut stream = first.unwrap();
    stream.extend_from_slice(&rest);
    let mut expected = a;
    expected.extend_from_slice(&b);
    expected.extend_from_slice(&c);
    assert_eq!(stream.len(), 120);
    assert_eq!(stream, expected);
}

#[test]
fn tcp_duplicates_never_reappear() {
    let mut flow = TcpFlowController::new(100, 30_000_000, 60_000_000);
    assert!(flow.process_tcp_packet("a", "b", &tcp(1000, false, false, false), vec![1; 40], 0).unwrap().is_some());
    assert_eq!(flow.process_tcp_packet("a", "b", &tcp(1000, false, false, false), vec![1; 40], 1).unwrap(), None);
    assert_eq!(flow.process_tcp_packet("a", "b", &tcp(1020, false, false, false), vec![1; 20], 2).unwrap(), None);
    assert_eq!(flow.process_tcp_packet("a", "b", &tcp(1040, false, false, false), vec![5; 4], 3).unwrap(), Some(vec![5; 4]));
}

#[test]
fn tcp_stream_keeps_partial_message() {
    let mut flow = TcpFlowController::new(100, 30_000_000, 60_000_000);
    let msg = vec![0x12, 0x34, 0x80, 0x01, 0, 0, 0, 10, 0, 0, 0, 0, 1, 1, 2, 0, 0xAA, 0xBB];
    let first = flow.process_tcp_packet("a", "b", &tcp(1, false, false, false), msg[..7].to_vec(), 0).unwrap().unwrap();
    assert_eq!(flow.take_messages("a", 40000, "b", 30490, first).len(), 0);
    let rest = flow.process_tcp_packet("a", "b", &tcp(8, false, false, false), msg[7..].to_vec(), 1).unwrap().unwrap();
    let messages = flow.take_messages("a", 40000, "b", 30490, rest);
    assert_eq!(messages.len(), 1);
    assert_eq!(messages[0].payload, vec![0xAA, 0xBB]);
    assert_eq!(flow.take_messages("x", 1, "y", 2, msg.clone()).len(), 1);
}

#[test]
fn tcp_syn_with_rst_closes_and_drops_held_data() {
    let mut flow = TcpFlowController::new(100, 30_000_000, 60_000_000);
    assert_eq!(flow.process_tcp_packet("a", "b", &tcp(100, false, false, false), vec![1], 0).unwrap(), Some(vec![1]));
    assert_eq!(flow.process_tcp_packet("a", "b", &tcp(105, false, false, false), vec![2], 1).unwrap(), None);
    assert_eq!(flow.process_tcp_packet("a", "b", &tcp(100, true, false, true), Vec::new(), 2).unwrap(), None);
    // The held segment at 105 is gone: filling the gap brings out only the filler.
    assert_eq!(flow.process_tcp_packet("a", "b", &tcp(101, false, false, false), vec![3; 4], 3).unwrap(), Some(vec![3; 4]));
    // The stream is closed, so it is swept once the connection timeout has passed.
    flow.process_tcp_packet("c", "d", &tcp(1, false, false, false), vec![1], 70_000_000).unwrap();
    assert_eq!(flow.get_connections_count(), 1);
}

#[test]
fn tcp_syn_with_fin_closes_the_stream() {
    let mut flow = TcpFlowController::new(100, 30_000_000, 60_000_000);
    assert_eq!(flow.process_tcp_packet("a", "b", &tcp(100, true, true, false), Vec::new(), 0).unwrap(), None);
    flow.process_tcp_packet("c", "d", &tcp(1, false, false, false), vec![1], 70_000_000).unwrap();
    assert_eq!(flow.get_connections_count(), 1);
}

#[test]
fn tcp_syn_sets_baseline() {
    let mut flow = TcpFlowController::new(100, 30_000_000, 60_000_000);
    assert_eq!(flow.process_tcp_packet("a", "b", &tcp(500, true, false, false), Vec::new(), 0).unwrap(), None);
    assert_eq!(flow.process_tcp_packet("a", "b", &tcp(501, false, false, false), vec![7; 3], 1).unwrap(), Some(vec![7; 3]));
    assert_eq!(flow.get_connections_count(), 1);
}

#[test]
fn tcp_directions_are_separate_streams_and_bounded() {
    let mut flow = TcpFlowController::new(2, 30_000_000, 60_000_000);
    flow.process_tcp_packet("a", "b", &tcp(1, false, false, false), vec![1], 0).unwrap();
    flow.process_tcp_packet("b", "a", &tcp(9, false, false, false), vec![1], 1).unwrap();
    assert_eq!(flow.get_connections_count(), 2);
    flow.process_tcp_packet("c", "d", &tcp(9, false, false, false), vec![1], 2).unwrap();
    assert_eq!(flow.get_connections_count(), 2);
    assert_eq!(flow.process_tcp_packet("a", "b", &tcp(2, false, false, false), vec![4], 3).unwrap(), Some(vec![4]));
}

#[test]
fn tcp_closed_stream_is_swept_after_timeout() {
    let mut flow = TcpFlowController::new(100, 30_000_000, 60_000_000);
    flow.process_tcp_packet("a", "b", &tcp(1, false, false, true), Vec::new(), 0).unwrap();
    assert_eq!(flow.get_connections_count(), 1);
    flow.process_tcp_packet("c", "d", &tcp(1, false, false, false), vec![1], 61_000_000).unwrap();
    assert_eq!(flow.get_connections_count(), 1);
}

fn message(service: u16, client: u16, session: u16, mt: MessageType, t: u64) -> SomeIPMessage {
    SomeIPMessage {
        timestamp: t,
        header: header(service, client, session, 8, mt),
        payload: Vec::new(),
        src_ip: "10.0.0.1".to_string(),
        dst_ip: "10.0.0.2".to_string(),
        src_port: 30490,
        dst_port: 40000,
    }
}

#[test]
fn session_expiry_emits_orphan() {
    let mut sm = SessionManager::new(5_000_000, 100);
    sm.add_request(message(0x1234, 1, 1, MessageType::Request, 0)).unwrap();
    assert_eq!(sm.cleanup_expired_sessions(4_000_000).len(), 0);
    assert_eq!(sm.get_pending_requests(4_000_000).len(), 1);
    let expired = sm.cleanup_expired_sessions(6_000_000);
    assert_eq!(expired.len(), 1);
    assert_eq!(expired[0].request.header.service_id, 0x1234);
    assert!(expired[0].response.is_none());
    assert_eq!(sm.len(), 0);
}

#[test]
fn session_capacity_evicts_oldest() {
    let mut sm = SessionManager::new(5_000_000, 2);
    sm.add_request(message(0x1234, 1, 1, MessageType::Request, 0)).unwrap();
    sm.add_request(message(0x1234, 1, 2, MessageType::Request, 1)).unwrap();
    sm.add_request(message(0x1234, 1, 3, MessageType::Request, 2)).unwrap();
    assert_eq!(sm.len(), 2);
    assert_eq!(sm.add_response(message(0x1234, 1, 1, MessageType::Response, 3)).unwrap().map(|p| p.request.header.session_id), None);
    let pair = sm.add_response(message(0x1234, 1, 3, MessageType::Response, 4)).unwrap().unwrap();
    assert_eq!(pair.request.header.session_id, 3);
    assert_eq!(pair.response.unwrap().header.session_id, 3);
}

#[test]
fn session_response_pairs_by_key_and_rejects_other_types() {
    let mut sm = SessionManager::new(5_000_000, 10);
    sm.add_request(message(0x1234, 1, 1, MessageType::Request, 0)).unwrap();
    assert_eq!(
        sm.add_response(message(0x1234, 1, 1, MessageType::Notification, 1)).map(|p| p.is_some()),
        Err(SomeIPError::InvalidPacketFormat)
    );
    let pair = sm.add_response(message(0x1234, 1, 1, MessageType::Error, 2)).unwrap().unwrap();
    assert_eq!(pair.request.header.client_id, pair.response.as_ref().unwrap().header.client_id);
    assert_eq!(pair.timeout, 5_000_000);
    assert_eq!(sm.len(), 0);
}
