use someip_analyzer::config::{log_level, Config, LogLevel};
use someip_analyzer::error::SomeIPError;
use someip_analyzer::header::{
    encode_someip_header, parse_message_type, parse_return_code, parse_someip_header,
    parse_someip_header_wrapper, MessageType, ReturnCode, SomeIPHeader,
};
use someip_analyzer::link_layer::{parse_link_layer, LinkLayer};
use someip_analyzer::msi::{parse_msi_packet, split_someip_stream};
use someip_analyzer::network_layer::{parse_network_layer, NetworkLayer};
use someip_analyzer::sd::{parse_sd_packet, SDEntry, SDOption, TransportProtocol};
use someip_analyzer::transport_layer::{parse_transport_layer, TransportLayer};

fn sd_header() -> SomeIPHeader {
    parse_someip_header(&[0xFF, 0xFF, 0x81, 0x00, 0, 0, 0, 8, 0, 0, 0, 1, 1, 1, 2, 0]).unwrap()
}

#[test]
fn header_round_trips_for_every_code() {
    let codes = [0x00u8, 0x01, 0x02, 0x40, 0x41, 0x42, 0x80, 0x81, 0xC0, 0xC1, 0x20, 0x22, 0xFF];
    for &mt in codes.iter() {
        for rc in 0u8..=12 {
            let bytes = [0x12, 0x34, 0x00, 0x01, 0, 0, 0, 10, 0, 1, 0, 2, 1, 3, mt, rc];
            let h = parse_someip_header(&bytes).unwrap();
            assert_eq!(encode_someip_header(&h), bytes.to_vec());
            assert_eq!(parse_someip_header(&encode_someip_header(&h)).unwrap(), h);
        }
    }
    assert_eq!(parse_message_type(0x20), MessageType::Unknown(0x20));
    assert_eq!(parse_message_type(0x81), MessageType::Error);
    assert_eq!(parse_return_code(0x0A), ReturnCode::WrongMessageType);
    assert_eq!(parse_return_code(0x0B), ReturnCode::Unknown(0x0B));
    assert_eq!(MessageType::ErrorACK.as_u8(), 0xC1);
}

#[test]
fn header_fields_are_big_endian() {
    let h = parse_someip_header(&[0x12, 0x34, 0x00, 0x01, 0, 0, 0, 10, 0, 1, 0, 2, 1, 3, 0, 0]).unwrap();
    assert_eq!(h.service_id, 0x1234);
    assert_eq!(h.method_id, 0x0001);
    assert_eq!(h.length, 10);
    assert_eq!(h.client_id, 1);
    assert_eq!(h.session_id, 2);
    assert_eq!(h.interface_version, 3);
    assert_eq!(h.message_type, MessageType::Request);
    assert_eq!(h.return_code, ReturnCode::Okay);
    assert_eq!(parse_someip_header(&[0; 15]), Err(SomeIPError::InvalidPacketFormat));
    assert_eq!(parse_someip_header_wrapper(&[0; 20]).unwrap().1, 16);
}

#[test]
fn ethernet_vlan_and_cooked_frames() {
    let mut eth = vec![1, 2, 3, 4, 5, 6, 7, 8, 9, 10, 11, 12, 0x81, 0x00, 0x20, 0x05, 0x08, 0x00, 0xAB];
    match parse_link_layer(&eth).unwrap() {
        LinkLayer::Ethernet(e) => {
            assert_eq!(e.dst_mac, [1, 2, 3, 4, 5, 6]);
            assert_eq!(e.ethertype, 0x0800);
            assert_eq!(e.vlan.unwrap().tci & 0x0FFF, 5);
            assert_eq!(e.payload, vec![0xAB]);
        },
        _ => panic!("expected ethernet"),
    }
    eth.truncate(16);
    assert_eq!(parse_link_layer(&eth), Err(SomeIPError::InvalidPacketFormat));
    let sll = vec![0, 0, 0, 1, 0, 6, 1, 2, 3, 4, 5, 6, 0, 0, 0x86, 0xDD, 0xEE];
    match parse_link_layer(&sll).unwrap() {
        LinkLayer::SLL(h) => {
            assert_eq!(h.link_layer_addr, vec![1, 2, 3, 4, 5, 6]);
            assert_eq!(h.protocol, 0x86DD);
            assert_eq!(h.payload, vec![0xEE]);
        },
        _ => panic!("expected cooked capture"),
    }
}

#[test]
fn ipv4_bounds_the_transport_segment() {
    let mut ip = vec![0x45, 0, 0, 22, 0, 0, 0x40, 0, 64, 17, 0, 0, 10, 0, 0, 1, 10, 0, 0, 2, 0xAA, 0xBB, 0xCC];
    match parse_network_layer(&ip, 0x0800).unwrap() {
        NetworkLayer::IPv4(p) => {
            assert_eq!(p.payload, vec![0xAA, 0xBB]);
            assert_eq!(p.flags, 2);
            assert_eq!(p.protocol, 17);
            assert_eq!(p.src_ip, [10, 0, 0, 1]);
        },
        _ => panic!("expected IPv4"),
    }
    ip[0] = 0x44;
    assert_eq!(parse_network_layer(&ip, 0x0800), Err(SomeIPError::InvalidPacketFormat));
    assert_eq!(parse_network_layer(&ip, 0x0806), Err(SomeIPError::InvalidPacketFormat));
}

#[test]
fn ipv6_header_and_payload() {
    let mut ip = vec![0x60, 0, 0, 0, 0, 2, 6, 64];
    ip.extend_from_slice(&[0x20, 0x01, 0x0d, 0xb8, 0, 0, 0, 0, 0, 0, 0, 0, 0, 0, 0, 1]);
    ip.extend_from_slice(&[0xfe, 0x80, 0, 0, 0, 0, 0, 0, 0, 0, 0, 0, 0, 0, 0, 2]);
    ip.extend_from_slice(&[7, 8, 9]);
    match parse_network_layer(&ip, 0x86DD).unwrap() {
        NetworkLayer::IPv6(p) => {
            assert_eq!(p.version, 6);
            assert_eq!(p.next_header, 6);
            assert_eq!(p.payload, vec![7, 8]);
        },
        _ => panic!("expected IPv6"),
    }
    assert_eq!(someip_analyzer::text::format_ipv6(&[0x20, 0x01, 0x0d, 0xb8, 0, 0, 0, 0, 0, 0, 0, 0, 0, 0, 0, 1]), "2001:db8:0:0:0:0:0:1");
    assert_eq!(someip_analyzer::text::format_ipv4(&[192, 168, 0, 10]), "192.168.0.10");
}

#[test]
fn tcp_flags_use_their_own_bits() {
    let seg = [0x9C, 0x40, 0x77, 0x1A, 0, 0, 0, 1, 0, 0, 0, 0, 0x50, 0x12, 0xFF, 0xFF, 0, 0, 0, 0, 0xDE];
    match parse_transport_layer(&seg, 6).unwrap() {
        TransportLayer::TCP(t) => {
            assert!(t.flags.syn);
            assert!(t.flags.ack);
            assert!(!t.flags.fin);
            assert!(!t.flags.rst);
            assert_eq!(t.data_offset, 5);
            assert_eq!(t.seq_num, 1);
            assert_eq!(t.payload, vec![0xDE]);
        },
        _ => panic!("expected TCP"),
    }
    let mut bad = seg.to_vec();
    bad[12] = 0x40;
    assert_eq!(parse_transport_layer(&bad, 6), Err(SomeIPError::InvalidPacketFormat));
    assert_eq!(parse_transport_layer(&seg, 1), Err(SomeIPError::InvalidPacketFormat));
    match parse_transport_layer(&seg[..10], 17).unwrap() {
        TransportLayer::UDP(u) => {
            assert_eq!(u.src_port, 0x9C40);
            assert_eq!(u.payload, vec![0, 0]);
        },
        _ => panic!("expected UDP"),
    }
}

#[test]
fn sd_entries_and_options() {
    let mut body = vec![0x80, 0, 0, 0];
    body.extend_from_slice(&16u32.to_be_bytes());
    body.extend_from_slice(&[0x01, 0, 0, 0x10, 0x12, 0x34, 0x00, 0x01, 0x02, 0x00, 0x00, 0x03]);
    body.extend_from_slice(&5u32.to_be_bytes());
    let config: Vec<u8> = vec![0, 3, b'a', b'=', b'b', 0, 1, 0xFF];
    let endpoint6: Vec<u8> = {
        let mut v = vec![0u8; 16];
        v[15] = 1;
        v.push(0x06);
        v.extend_from_slice(&30501u16.to_be_bytes());
        v
    };
    let mut options = Vec::new();
    options.extend_from_slice(&(config.len() as u16).to_be_bytes());
    options.extend_from_slice(&[0x01, 0]);
    options.extend_from_slice(&config);
    options.extend_from_slice(&(endpoint6.len() as u16).to_be_bytes());
    options.extend_from_slice(&[0x26, 0]);
    options.extend_from_slice(&endpoint6);
    body.extend_from_slice(&(options.len() as u32).to_be_bytes());
    body.extend_from_slice(&options);
    let p = parse_sd_packet(&body, header_for_sd()).unwrap();
    assert!(p.flags.reboot);
    assert!(!p.flags.unicast);
    assert_eq!(p.entries.len(), 1);
    match &p.entries[0] {
        SDEntry::OfferService(o) => {
            assert_eq!(o.service_id, 0x1234);
            assert_eq!(o.major_version, 2);
            assert_eq!(o.ttl, 3);
            assert_eq!(o.number_of_first_options, 1);
            assert_eq!(o.number_of_second_options, 0);
        },
        other => panic!("unexpected entry {:?}", other),
    }
    assert_eq!(p.options.len(), 2);
    match &p.options[0] {
        SDOption::Configuration(c) => {
            assert_eq!(c.items, vec!["a=b".to_string(), "\u{FFFD}".to_string()]);
        },
        other => panic!("unexpected option {:?}", other),
    }
    match &p.options[1] {
        SDOption::Ipv6SDEndpoint(e) => {
            assert_eq!(e.port, 30501);
            assert_eq!(e.transport_protocol, TransportProtocol::TCP);
        },
        other => panic!("unexpected option {:?}", other),
    }
}

fn header_for_sd() -> SomeIPHeader {
    sd_header()
}

#[test]
fn sd_short_option_body_is_an_error() {
    let mut body = vec![0, 0, 0, 0];
    body.extend_from_slice(&0u32.to_be_bytes());
    body.extend_from_slice(&7u32.to_be_bytes());
    body.extend_from_slice(&[0, 3, 0x04, 0, 1, 2, 3]);
    assert_eq!(parse_sd_packet(&body, sd_header()), Err(SomeIPError::InvalidPacketFormat));
    assert_eq!(parse_sd_packet(&[0, 0, 0], sd_header()), Err(SomeIPError::InvalidPacketFormat));
}

#[test]
fn msi_container_splits_embedded_messages() {
    let mut payload = vec![0x11, 0x11, 0x80, 0x01, 0, 0, 0, 10, 0, 0, 0, 0, 1, 1, 2, 0, 0xA1, 0xA2];
    payload.extend_from_slice(&[0x22, 0x22, 0x80, 0x02, 0, 0, 0, 8, 0, 0, 0, 0, 1, 1, 2, 0]);
    payload.extend_from_slice(&[0xEE, 0xEE]);
    let p = parse_msi_packet(&payload).unwrap();
    assert_eq!(p.messages.len(), 2);
    assert_eq!(p.messages[0].payload, vec![0xA1, 0xA2]);
    assert_eq!(p.messages[1].header.service_id, 0x2222);
    assert!(p.messages[1].payload.is_empty());
    let mut bad = payload.clone();
    bad[7] = 100;
    assert_eq!(parse_msi_packet(&bad), Err(SomeIPError::InvalidPacketFormat));
    assert_eq!(split_someip_stream(&bad).len(), 0);
    assert_eq!(split_someip_stream(&payload).len(), 2);
}

#[test]
fn config_validation() {
    let mut c = Config {
        pcap_file: "capture.pcap".to_string(),
        matrix_file: None,
        sd_port: 30490,
        vlan: None,
        output_format: "json".to_string(),
        output_file: None,
        verbose: 0,
        request_timeout: 5,
        tp_timeout: 30,
        tcp_timeout: 60,
    };
    assert_eq!(c.validate(true, false), Ok(()));
    assert_eq!(c.validate(false, false), Err(SomeIPError::ConfigError));
    c.matrix_file = Some("m.json".to_string());
    assert_eq!(c.validate(true, false), Err(SomeIPError::ConfigError));
    c.output_format = "xml".to_string();
    assert_eq!(c.validate(true, true), Err(SomeIPError::ConfigError));
    assert_eq!(log_level(0), LogLevel::Warn);
    assert_eq!(log_level(2), LogLevel::Debug);
    assert_eq!(log_level(9), LogLevel::Trace);
}
