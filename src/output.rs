//! Output records and their text rendering.
use vstd::prelude::*;
use crate::error::SomeIPError;
use crate::header::{MessageType, ReturnCode};
use crate::matrix::{method_key, Matrix};
use crate::session::SomeIPMessage;
use crate::text::{decimal, digit, push_in_base, push_str, push_upper_hex_fixed, upper_hex_fixed};
use crate::timestamp::{format_timestamp, timestamp_text, utc_date_text, LAST_DATED_SECOND};

verus! {

/// One output record. `timestamp` is the capture time in microseconds; the
/// other fields are already text.
#[derive(Debug, Clone)]
pub struct FormattedMessage {
    pub timestamp: u64,
    pub sender: String,
    pub receiver: String,
    pub service: String,
    pub method: String,
    pub message_type: String,
    pub return_code: String,
    pub payload: String,
}

/// Renders a list of records as one document.
pub trait Formatter {
    fn format(&self, messages: &[FormattedMessage]) -> Result<String, SomeIPError>;
}

/// The JSON rendering (done where serialization is available); `pretty`
/// selects indented output.
pub struct JsonFormatter {
    pretty: bool,
}

impl JsonFormatter {
    pub closed spec fn pretty_spec(&self) -> bool {
        self.pretty
    }

    pub fn new(pretty: bool) -> (r: Self)
        ensures
            r.pretty_spec() == pretty,
    {
        Self { pretty }
    }

    pub fn is_pretty(&self) -> (r: bool)
        ensures
            r == self.pretty_spec(),
    {
        self.pretty
    }
}

/// The YAML rendering (done where serialization is available).
pub struct YamlFormatter;

impl YamlFormatter {
    pub fn new() -> Self {
        Self
    }
}

pub struct TextFormatter;

/// The output formats.
#[derive(Debug, Clone, Copy, PartialEq, Eq, Structural)]
pub enum OutputFormat {
    Text,
    Json,
    Yaml,
}

/// Where and how the records are written.
pub struct Exporter {
    format: OutputFormat,
    output_path: Option<String>,
}

impl Exporter {
    pub closed spec fn format_spec(&self) -> OutputFormat {
        self.format
    }

    pub closed spec fn path_spec(&self) -> Option<Seq<char>> {
        match self.output_path {
            Some(p) => Some(p@),
            None => None,
        }
    }

    /// An exporter in `format` to the file at `output_path`, or to standard
    /// output where there is none.
    pub fn new(format: OutputFormat, output_path: Option<String>) -> (r: Self)
        ensures
            r.format_spec() == format,
            r.path_spec() == match output_path {
                Some(p) => Some(p@),
                None => None::<Seq<char>>,
            },
    {
        Self { format, output_path }
    }

    pub fn format(&self) -> (r: OutputFormat)
        ensures
            r == self.format_spec(),
    {
        self.format
    }

    pub fn output_path(&self) -> (r: Option<&str>)
        ensures
            r matches Some(p) ==> self.path_spec() == Some(p@),
            r is None ==> self.path_spec() is None,
    {
        match &self.output_path {
            Some(p) => Some(p.as_str()),
            None => None,
        }
    }
}

/// Two strings hold the same characters.
pub fn str_equals(a: &str, b: &str) -> (r: bool)
    ensures
        r == (a@ == b@),
{
    let n = a.unicode_len();
    if n != b.unicode_len() {
        return false;
    }
    let mut i: usize = 0;
    while i < n
        invariant
            i <= n,
            n == a@.len(),
            n == b@.len(),
            forall|j: int| 0 <= j < i ==> a@[j] == b@[j],
        decreases n - i,
    {
        if a.get_char(i) != b.get_char(i) {
            return false;
        }
        i = i + 1;
    }
    assert(a@ =~= b@);
    true
}

/// The format that a name selects: `text`, `json` or `yaml`.
pub fn parse_output_format(name: &str) -> (r: Option<OutputFormat>)
    ensures
        r == (if name@ == "text"@ {
            Some(OutputFormat::Text)
        } else if name@ == "json"@ {
            Some(OutputFormat::Json)
        } else if name@ == "yaml"@ {
            Some(OutputFormat::Yaml)
        } else {
            None
        }),
{
    if str_equals(name, "text") {
        Some(OutputFormat::Text)
    } else if str_equals(name, "json") {
        Some(OutputFormat::Json)
    } else if str_equals(name, "yaml") {
        Some(OutputFormat::Yaml)
    } else {
        None
    }
}

// ---------------------------------------------------------------- names

/// The name of a message type as the output shows it.
pub open spec fn message_type_text(m: MessageType) -> Seq<char> {
    match m {
        MessageType::Request => "Request"@,
        MessageType::RequestNoReturn => "RequestNoReturn"@,
        MessageType::Notification => "Notification"@,
        MessageType::RequestACK => "RequestACK"@,
        MessageType::RequestNoReturnACK => "RequestNoReturnACK"@,
        MessageType::NotificationACK => "NotificationACK"@,
        MessageType::Response => "Response"@,
        MessageType::Error => "Error"@,
        MessageType::ResponseACK => "ResponseACK"@,
        MessageType::ErrorACK => "ErrorACK"@,
        MessageType::Unknown(v) => "Unknown("@ + decimal(v as nat) + ")"@,
    }
}

/// The name of a return code as the output shows it.
pub open spec fn return_code_text(r: ReturnCode) -> Seq<char> {
    match r {
        ReturnCode::Okay => "Ok"@,
        ReturnCode::NotOk => "NotOk"@,
        ReturnCode::UnknownService => "UnknownService"@,
        ReturnCode::UnknownMethod => "UnknownMethod"@,
        ReturnCode::NotReady => "NotReady"@,
        ReturnCode::NotReachable => "NotReachable"@,
        ReturnCode::Timeout => "Timeout"@,
        ReturnCode::WrongProtocolVersion => "WrongProtocolVersion"@,
        ReturnCode::WrongInterfaceVersion => "WrongInterfaceVersion"@,
        ReturnCode::MalformedMessage => "MalformedMessage"@,
        ReturnCode::WrongMessageType => "WrongMessageType"@,
        ReturnCode::Unknown(v) => "Unknown("@ + decimal(v as nat) + ")"@,
    }
}

fn unknown_text(v: u8) -> (r: String)
    ensures
        r@ == "Unknown("@ + decimal(v as nat) + ")"@,
{
    let mut s = String::new();
    push_str(&mut s, "Unknown(");
    push_in_base(&mut s, v as u64, 10);
    push_str(&mut s, ")");
    s
}

pub fn message_type_name(m: MessageType) -> (r: String)
    ensures
        r@ == message_type_text(m),
{
    let name = match m {
        MessageType::Request => "Request",
        MessageType::RequestNoReturn => "RequestNoReturn",
        MessageType::Notification => "Notification",
        MessageType::RequestACK => "RequestACK",
        MessageType::RequestNoReturnACK => "RequestNoReturnACK",
        MessageType::NotificationACK => "NotificationACK",
        MessageType::Response => "Response",
        MessageType::Error => "Error",
        MessageType::ResponseACK => "ResponseACK",
        MessageType::ErrorACK => "ErrorACK",
        MessageType::Unknown(v) => {
            return unknown_text(v);
        },
    };
    name.to_owned()
}

pub fn return_code_name(rc: ReturnCode) -> (r: String)
    ensures
        r@ == return_code_text(rc),
{
    let name = match rc {
        ReturnCode::Okay => "Ok",
        ReturnCode::NotOk => "NotOk",
        ReturnCode::UnknownService => "UnknownService",
        ReturnCode::UnknownMethod => "UnknownMethod",
        ReturnCode::NotReady => "NotReady",
        ReturnCode::NotReachable => "NotReachable",
        ReturnCode::Timeout => "Timeout",
        ReturnCode::WrongProtocolVersion => "WrongProtocolVersion",
        ReturnCode::WrongInterfaceVersion => "WrongInterfaceVersion",
        ReturnCode::MalformedMessage => "MalformedMessage",
        ReturnCode::WrongMessageType => "WrongMessageType",
        ReturnCode::Unknown(v) => {
            return unknown_text(v);
        },
    };
    name.to_owned()
}

// ---------------------------------------------------------------- hex

/// Bytes as lowercase hex, two digits per byte, high nibble first.
pub open spec fn hex_text(b: Seq<u8>) -> Seq<char> {
    Seq::new(
        2 * b.len(),
        |i: int|
            if i % 2 == 0 {
                digit((b[i / 2] / 16) as int)
            } else {
                digit((b[i / 2] % 16) as int)
            },
    )
}

/// Relies on `hex::encode`: two lowercase digits per byte, high nibble
/// first.
#[verifier::external_body]
fn hex_encode(b: &[u8]) -> (r: String)
    ensures
        r@ == hex_text(b@),
{
    hex::encode(b)
}

/// `0x` and the id as four uppercase hex digits.
pub open spec fn id_text(id: u16) -> Seq<char> {
    "0x"@ + upper_hex_fixed(id as nat, 4)
}

fn id_string(id: u16) -> (r: String)
    ensures
        r@ == id_text(id),
{
    let mut s = String::new();
    push_str(&mut s, "0x");
    push_upper_hex_fixed(&mut s, id as u64, 4);
    s
}

/// `name` is how an address shows: the latest name the matrix gives it, or
/// the address itself where it has none.
pub open spec fn address_text(
    ips: Seq<(Seq<char>, Seq<char>)>,
    ip: Seq<char>,
    name: Seq<char>,
) -> bool {
    (exists|i: int|
        0 <= i < ips.len() && ips[i] == (ip, name) && forall|j: int|
            i < j < ips.len() ==> (#[trigger] ips[j]).0 != ip) || (forall|j: int|
        0 <= j < ips.len() ==> (#[trigger] ips[j]).0 != ip) && name == ip
}

/// The output record of a message: addresses and ids by their names in the
/// matrix where it has them, ids as `0x` and four hex digits otherwise, the
/// variant names of type and return code, and the payload in hex.
pub fn convert_to_formatted(message: &SomeIPMessage, matrix: &Matrix) -> (r: FormattedMessage)
    ensures
        r.timestamp == message.timestamp,
        address_text(matrix.ips(), message.src_ip@, r.sender@),
        address_text(matrix.ips(), message.dst_ip@, r.receiver@),
        r.service@ == if matrix.services().contains_key(message.header.service_id) {
            matrix.services()[message.header.service_id]
        } else {
            id_text(message.header.service_id)
        },
        r.method@ == if matrix.methods().contains_key(
            method_key(message.header.service_id, message.header.method_id),
        ) {
            matrix.methods()[method_key(message.header.service_id, message.header.method_id)]
        } else {
            id_text(message.header.method_id)
        },
        r.message_type@ == message_type_text(message.header.message_type),
        r.return_code@ == return_code_text(message.header.return_code),
        r.payload@ == hex_text(message.payload@),
{
    let service_id = message.header.service_id;
    let method_id = message.header.method_id;
    let sender = match matrix.get_ip_name(message.src_ip.as_str()) {
        Some(n) => n.to_owned(),
        None => message.src_ip.clone(),
    };
    let receiver = match matrix.get_ip_name(message.dst_ip.as_str()) {
        Some(n) => n.to_owned(),
        None => message.dst_ip.clone(),
    };
    let service = match matrix.get_service_name(service_id) {
        Some(n) => n.to_owned(),
        None => id_string(service_id),
    };
    let method = match matrix.get_method_name(service_id, method_id) {
        Some(n) => n.to_owned(),
        None => id_string(method_id),
    };
    FormattedMessage {
        timestamp: message.timestamp,
        sender,
        receiver,
        service,
        method,
        message_type: message_type_name(message.header.message_type),
        return_code: return_code_name(message.header.return_code),
        payload: hex_encode(message.payload.as_slice()),
    }
}

// ---------------------------------------------------------------- text

/// One record as text, given the text of its time:
/// `[time] sender -> receiver | service:method | type | return_code`, then
/// `Payload: hex` and a blank line.
pub open spec fn record_text(m: FormattedMessage, time: Seq<char>) -> Seq<char> {
    "["@ + time + "] "@ + m.sender@ + " -> "@ + m.receiver@ + " | "@ + m.service@ + ":"@
        + m.method@ + " | "@ + m.message_type@ + " | "@ + m.return_code@ + "\nPayload: "@
        + m.payload@ + "\n\n"@
}

/// Renders one record, given the text of its time.
pub fn render_record(out: &mut String, m: &FormattedMessage, time: &str)
    ensures
        final(out)@ == old(out)@ + record_text(*m, time@),
{
    let ghost o = out@;
    push_str(out, "[");
    push_str(out, time);
    push_str(out, "] ");
    push_str(out, m.sender.as_str());
    push_str(out, " -> ");
    push_str(out, m.receiver.as_str());
    push_str(out, " | ");
    push_str(out, m.service.as_str());
    push_str(out, ":");
    push_str(out, m.method.as_str());
    push_str(out, " | ");
    push_str(out, m.message_type.as_str());
    push_str(out, " | ");
    push_str(out, m.return_code.as_str());
    push_str(out, "\nPayload: ");
    push_str(out, m.payload.as_str());
    push_str(out, "\n\n");
    assert(out@ =~= o + record_text(*m, time@));
}

/// The records in order, each with the text of its time from `times`.
pub open spec fn records_text(ms: Seq<FormattedMessage>, times: Seq<Seq<char>>) -> Seq<char>
    decreases ms.len(),
{
    if ms.len() == 0 || times.len() < ms.len() {
        Seq::empty()
    } else {
        records_text(ms.drop_last(), times.drop_last()) + record_text(ms.last(), times.last())
    }
}

/// `t` renders the capture time `timestamp`: as a UTC date, or in seconds
/// where no date can be given (never before the year 10000).
pub open spec fn time_text_of(t: Seq<char>, timestamp: u64) -> bool {
    &&& t == timestamp_text(Some(utc_date_text(timestamp / 1_000_000)), timestamp) || t
        == timestamp_text(None, timestamp)
    &&& timestamp / 1_000_000 <= LAST_DATED_SECOND ==> t == timestamp_text(
        Some(utc_date_text(timestamp / 1_000_000)),
        timestamp,
    )
}

impl TextFormatter {
    pub fn new() -> Self {
        Self
    }

    /// The records in order, each with its capture time in UTC (or in
    /// seconds where no date can be given).
    pub fn render(&self, messages: &[FormattedMessage]) -> (r: String)
        ensures
            exists|times: Seq<Seq<char>>|
                {
                    &&& times.len() == messages@.len()
                    &&& r@ == records_text(messages@, times)
                    &&& forall|i: int|
                        0 <= i < times.len() ==> time_text_of(
                            #[trigger] times[i],
                            messages@[i].timestamp,
                        )
                },
    {
        let mut out = String::new();
        let ghost mut times: Seq<Seq<char>> = Seq::empty();
        let mut i: usize = 0;
        while i < messages.len()
            invariant
                i <= messages@.len(),
                times.len() == i,
                out@ == records_text(messages@.subrange(0, i as int), times),
                forall|j: int| 0 <= j < i ==> time_text_of(#[trigger] times[j], messages@[j].timestamp),
            decreases messages@.len() - i,
        {
            let t = format_timestamp(messages[i].timestamp);
            render_record(&mut out, &messages[i], t.as_str());
            proof {
                let ms = messages@.subrange(0, i + 1);
                assert(ms.drop_last() =~= messages@.subrange(0, i as int));
                assert(times.push(t@).drop_last() =~= times);
                times = times.push(t@);
            }
            i = i + 1;
        }
        assert(messages@.subrange(0, messages@.len() as int) =~= messages@);
        out
    }
}

impl Formatter for TextFormatter {
    fn format(&self, messages: &[FormattedMessage]) -> Result<String, SomeIPError> {
        Ok(self.render(messages))
    }
}

} // verus!
