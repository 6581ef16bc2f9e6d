use someip_analyzer::header::{MessageType, ReturnCode, SomeIPHeader};
use someip_analyzer::matrix::{parse_hex_u16, ArPackage, Element, Field, Matrix, MatrixFile, Method, ServiceInterface};
use someip_analyzer::output::{
    convert_to_formatted, message_type_name, parse_output_format, return_code_name, Formatter,
    JsonFormatter, OutputFormat, TextFormatter,
};
use someip_analyzer::session::SomeIPMessage;
use someip_analyzer::timestamp::{format_duration_ms, format_timestamp, render_timestamp};

fn message(payload: Vec<u8>) -> SomeIPMessage {
    SomeIPMessage {
        timestamp: 1_700_000_000_123_456,
        header: SomeIPHeader {
            service_id: 0x1234,
            method_id: 0x0001,
            length: 8 + payload.len() as u32,
            client_id: 1,
            session_id: 1,
            protocol_version: 1,
            interface_version: 1,
            message_type: MessageType::Request,
            return_code: ReturnCode::Okay,
        },
        payload,
        src_ip: "10.0.0.1".to_string(),
        dst_ip: "10.0.0.2".to_string(),
        src_port: 30490,
        dst_port: 40000,
    }
}

#[test]
fn timestamps_render_in_utc_with_milliseconds() {
    assert_eq!(format_timestamp(0), "1970-01-01 00:00:00.000");
    assert_eq!(format_timestamp(1_700_000_000_123_456), "2023-11-14 22:13:20.123");
    assert_eq!(render_timestamp(None, 12_345_678), "12.345");
    assert_eq!(render_timestamp(Some("X".to_string()), 7_000), "X.007");
}

#[test]
fn durations_render_in_milliseconds() {
    assert_eq!(format_duration_ms(1_234_567), "1.235ms");
    assert_eq!(format_duration_ms(1_234_499), "1.234ms");
    assert_eq!(format_duration_ms(0), "0.000ms");
    assert_eq!(format_duration_ms(5_000_000_000), "5000.000ms");
}

#[test]
fn names_of_types_and_codes() {
    assert_eq!(message_type_name(MessageType::RequestNoReturn), "RequestNoReturn");
    assert_eq!(message_type_name(MessageType::Unknown(32)), "Unknown(32)");
    assert_eq!(return_code_name(ReturnCode::Okay), "Ok");
    assert_eq!(return_code_name(ReturnCode::Unknown(200)), "Unknown(200)");
    assert_eq!(parse_output_format("yaml"), Some(OutputFormat::Yaml));
    assert_eq!(parse_output_format("text"), Some(OutputFormat::Text));
    assert_eq!(parse_output_format("xml"), None);
    assert!(JsonFormatter::new(true).is_pretty());
}

#[test]
fn unnamed_ids_and_hex_payload() {
    let m = Matrix::new();
    let f = convert_to_formatted(&message(vec![0xAA, 0x0B]), &m);
    assert_eq!(f.service, "0x1234");
    assert_eq!(f.method, "0x0001");
    assert_eq!(f.sender, "10.0.0.1");
    assert_eq!(f.message_type, "Request");
    assert_eq!(f.return_code, "Ok");
    assert_eq!(f.payload, "aa0b");
}

#[test]
fn text_record_layout() {
    let m = Matrix::new();
    let f = convert_to_formatted(&message(vec![0xCC]), &m);
    let text = TextFormatter::new().format(&[f]).unwrap();
    assert_eq!(
        text,
        "[2023-11-14 22:13:20.123] 10.0.0.1 -> 10.0.0.2 | 0x1234:0x0001 | Request | Ok\nPayload: cc\n\n"
    );
}

#[test]
fn hex_ids_read_like_radix_parsing() {
    assert_eq!(parse_hex_u16("1234"), Some(0x1234));
    assert_eq!(parse_hex_u16("+ff"), Some(255));
    assert_eq!(parse_hex_u16("FFFF"), Some(0xFFFF));
    assert_eq!(parse_hex_u16("10000"), None);
    assert_eq!(parse_hex_u16(""), None);
    assert_eq!(parse_hex_u16("+"), None);
    assert_eq!(parse_hex_u16("0x12"), None);
}

#[test]
fn matrix_names_services_methods_fields_and_addresses() {
    let iface = ServiceInterface {
        short_name: "Climate".to_string(),
        service_id: Some("1234".to_string()),
        events: Vec::new(),
        methods: vec![Method { short_name: "SetTemp".to_string(), method_id: "0001".to_string(), method_type: "REQUEST".to_string() }],
        fields: vec![Field { short_name: "Fan".to_string(), field_id: "0010".to_string() }],
    };
    let file = MatrixFile {
        ar_packages: vec![ArPackage {
            short_name: "Root".to_string(),
            elements: Vec::new(),
            sub_packages: vec![ArPackage {
                short_name: "Inner".to_string(),
                elements: vec![Element { short_name: "E".to_string(), service_instance: None, service_interface: Some(iface) }],
                sub_packages: Vec::new(),
            }],
        }],
    };
    let mut m = Matrix::new();
    m.parse_xml_matrix(&file);
    m.add_ip_mapping("10.0.0.1", "ECU-A");
    assert_eq!(m.get_service_name(0x1234), Some("Climate"));
    assert_eq!(m.get_method_name(0x1234, 0x0001), Some("SetTemp"));
    assert_eq!(m.get_method_name(0x1234, 0x0010), Some("Fan_GET"));
    assert_eq!(m.get_method_name(0x1234, 0x8010), Some("Fan_SET"));
    assert_eq!(m.get_method_name(0x1234, 0x4010), Some("Fan_NOTIFIER"));
    assert_eq!(m.get_method_name(0x1234, 0x0002), None);
    assert_eq!(m.get_ip_name("10.0.0.1"), Some("ECU-A"));
    assert_eq!(m.get_ip_name("10.0.0.2"), None);
    let f = convert_to_formatted(&message(Vec::new()), &m);
    assert_eq!(f.service, "Climate");
    assert_eq!(f.method, "SetTemp");
    assert_eq!(f.sender, "ECU-A");
    assert_eq!(f.receiver, "10.0.0.2");
}
