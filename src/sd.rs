//! SomeIP service discovery: entries, options, and the ports they announce.
use vstd::prelude::*;
use crate::error::SomeIPError;
use crate::header::{return_code_of, parse_return_code, ReturnCode, SomeIPHeader};
use crate::wire::{be16, be24, be32, copy_range, read_array16, read_array4, read_u16, read_u24, read_u32};

verus! {

#[derive(Debug, Clone, PartialEq, Eq)]
pub struct SDPacket {
    pub header: SomeIPHeader,
    pub flags: SDFlags,
    pub entries: Vec<SDEntry>,
    pub options: Vec<SDOption>,
}

#[derive(Debug, Clone, Copy, PartialEq, Eq, Structural)]
pub struct SDFlags {
    pub reboot: bool,
    pub unicast: bool,
    pub explicit_initial_data_control: bool,
}

#[derive(Debug, Clone, PartialEq, Eq)]
pub enum SDEntry {
    FindService(FindServiceEntry),
    OfferService(OfferServiceEntry),
    SubscribeEventgroup(SubscribeEventgroupEntry),
    SubscribeEventgroupAck(SubscribeEventgroupAckEntry),
    Unknown { entry_type: u8, data: Vec<u8> },
}

#[derive(Debug, Clone, Copy, PartialEq, Eq, Structural)]
pub struct FindServiceEntry {
    pub service_id: u16,
    pub instance_id: u16,
    pub major_version: u8,
    pub ttl: u32,
    pub minor_version: u32,
    pub first_options_index: u8,
    pub number_of_first_options: u8,
    pub second_options_index: u8,
    pub number_of_second_options: u8,
}

#[derive(Debug, Clone, Copy, PartialEq, Eq, Structural)]
pub struct OfferServiceEntry {
    pub service_id: u16,
    pub instance_id: u16,
    pub major_version: u8,
    pub ttl: u32,
    pub minor_version: u32,
    pub first_options_index: u8,
    pub number_of_first_options: u8,
    pub second_options_index: u8,
    pub number_of_second_options: u8,
}

#[derive(Debug, Clone, Copy, PartialEq, Eq, Structural)]
pub struct SubscribeEventgroupEntry {
    pub service_id: u16,
    pub instance_id: u16,
    pub major_version: u8,
    pub ttl: u32,
    pub eventgroup_id: u16,
    pub reserved: u16,
    pub first_options_index: u8,
    pub number_of_first_options: u8,
    pub second_options_index: u8,
    pub number_of_second_options: u8,
}

#[derive(Debug, Clone, Copy, PartialEq, Eq, Structural)]
pub struct SubscribeEventgroupAckEntry {
    pub service_id: u16,
    pub instance_id: u16,
    pub major_version: u8,
    pub ttl: u32,
    pub eventgroup_id: u16,
    pub reserved: u16,
    pub first_options_index: u8,
    pub number_of_first_options: u8,
    pub second_options_index: u8,
    pub number_of_second_options: u8,
    pub return_code: ReturnCode,
}

#[derive(Debug, Clone, PartialEq, Eq)]
pub enum SDOption {
    Configuration(ConfigurationOption),
    LoadBalancing(LoadBalancingOption),
    Ipv4Endpoint(Ipv4EndpointOption),
    Ipv6Endpoint(Ipv6EndpointOption),
    Ipv4Multicast(Ipv4MulticastOption),
    Ipv6Multicast(Ipv6MulticastOption),
    Ipv4SDEndpoint(Ipv4SDEndpointOption),
    Ipv6SDEndpoint(Ipv6SDEndpointOption),
    Unknown { option_type: u8, data: Vec<u8> },
}

#[derive(Debug, Clone, PartialEq, Eq)]
pub struct ConfigurationOption {
    pub items: Vec<String>,
}

#[derive(Debug, Clone, Copy, PartialEq, Eq, Structural)]
pub struct LoadBalancingOption {
    pub strategy: u8,
    pub priority: u16,
    pub weight: u16,
}

#[derive(Debug, Clone, Copy, PartialEq, Eq)]
pub struct Ipv4EndpointOption {
    pub ip_address: [u8; 4],
    pub transport_protocol: TransportProtocol,
    pub port: u16,
}

#[derive(Debug, Clone, Copy, PartialEq, Eq)]
pub struct Ipv6EndpointOption {
    pub ip_address: [u8; 16],
    pub transport_protocol: TransportProtocol,
    pub port: u16,
}

#[derive(Debug, Clone, Copy, PartialEq, Eq)]
pub struct Ipv4MulticastOption {
    pub ip_address: [u8; 4],
    pub transport_protocol: TransportProtocol,
    pub port: u16,
}

#[derive(Debug, Clone, Copy, PartialEq, Eq)]
pub struct Ipv6MulticastOption {
    pub ip_address: [u8; 16],
    pub transport_protocol: TransportProtocol,
    pub port: u16,
}

#[derive(Debug, Clone, Copy, PartialEq, Eq)]
pub struct Ipv4SDEndpointOption {
    pub ip_address: [u8; 4],
    pub transport_protocol: TransportProtocol,
    pub port: u16,
}

#[derive(Debug, Clone, Copy, PartialEq, Eq)]
pub struct Ipv6SDEndpointOption {
    pub ip_address: [u8; 16],
    pub transport_protocol: TransportProtocol,
    pub port: u16,
}

#[derive(Debug, Clone, Copy, PartialEq, Eq, Structural)]
pub enum TransportProtocol {
    TCP,
    UDP,
    Unknown(u8),
}

// ---------------------------------------------------------------- entries

/// How many bytes an entry of type `t` takes: twelve common bytes, then four
/// for find/offer and subscribe entries, five for subscribe-acks (which end
/// in a return code) and eight for entries of any other type.
pub open spec fn entry_size(t: u8) -> int {
    if t == 0x00 || t == 0x01 || t == 0x06 {
        16
    } else if t == 0x07 {
        17
    } else {
        20
    }
}

/// The positions at which `n` consecutive entries starting at `start` begin,
/// followed by the position just past the last of them.
pub open spec fn entry_starts(s: Seq<u8>, start: int, n: nat) -> Seq<int>
    decreases n,
{
    if n == 0 {
        seq![start]
    } else {
        let prev = entry_starts(s, start, (n - 1) as nat);
        prev.push(prev.last() + entry_size(s[prev.last()]))
    }
}

pub open spec fn entry_fits(s: Seq<u8>, p: int) -> bool {
    0 <= p < s.len() && p + entry_size(s[p]) <= s.len()
}

pub open spec fn entries_fit(s: Seq<u8>, start: int, n: nat) -> bool {
    forall|i: int| 0 <= i < n ==> entry_fits(s, #[trigger] entry_starts(s, start, n)[i])
}

/// The entry at `p` is `e`.
pub open spec fn entry_matches(s: Seq<u8>, p: int, e: SDEntry) -> bool {
    let t = s[p];
    let first_index = s[p + 1];
    let second_index = s[p + 2];
    let first_count = s[p + 3] / 16;
    let second_count = s[p + 3] % 16;
    let service = be16(s, p + 4);
    let instance = be16(s, p + 6);
    let major = s[p + 8];
    let ttl = be24(s, p + 9);
    match e {
        SDEntry::FindService(f) => t == 0x00 && f == FindServiceEntry {
            service_id: service as u16,
            instance_id: instance as u16,
            major_version: major,
            ttl: ttl as u32,
            minor_version: be32(s, p + 12) as u32,
            first_options_index: first_index,
            number_of_first_options: first_count as u8,
            second_options_index: second_index,
            number_of_second_options: second_count as u8,
        },
        SDEntry::OfferService(f) => t == 0x01 && f == OfferServiceEntry {
            service_id: service as u16,
            instance_id: instance as u16,
            major_version: major,
            ttl: ttl as u32,
            minor_version: be32(s, p + 12) as u32,
            first_options_index: first_index,
            number_of_first_options: first_count as u8,
            second_options_index: second_index,
            number_of_second_options: second_count as u8,
        },
        SDEntry::SubscribeEventgroup(f) => t == 0x06 && f == SubscribeEventgroupEntry {
            service_id: service as u16,
            instance_id: instance as u16,
            major_version: major,
            ttl: ttl as u32,
            eventgroup_id: be16(s, p + 14) as u16,
            reserved: be16(s, p + 12) as u16,
            first_options_index: first_index,
            number_of_first_options: first_count as u8,
            second_options_index: second_index,
            number_of_second_options: second_count as u8,
        },
        SDEntry::SubscribeEventgroupAck(f) => t == 0x07 && f == SubscribeEventgroupAckEntry {
            service_id: service as u16,
            instance_id: instance as u16,
            major_version: major,
            ttl: ttl as u32,
            eventgroup_id: be16(s, p + 14) as u16,
            reserved: be16(s, p + 12) as u16,
            first_options_index: first_index,
            number_of_first_options: first_count as u8,
            second_options_index: second_index,
            number_of_second_options: second_count as u8,
            return_code: return_code_of(s[p + 16]),
        },
        SDEntry::Unknown { entry_type, data } => {
            &&& t != 0x00 && t != 0x01 && t != 0x06 && t != 0x07
            &&& entry_type == t
            &&& data@ == s.subrange(p + 12, p + 20)
        },
    }
}

/// Decodes the entry at `pos`. The option counts share one byte: the first
/// count in the high nibble, the second in the low nibble.
fn parse_sd_entry(input: &[u8], pos: usize) -> (e: SDEntry)
    requires
        entry_fits(input@, pos as int),
    ensures
        entry_matches(input@, pos as int, e),
{
    let entry_type = input[pos];
    let first_options_index = input[pos + 1];
    let second_options_index = input[pos + 2];
    let counts = input[pos + 3];
    let number_of_first_options = counts / 16;
    let number_of_second_options = counts % 16;
    let service_id = read_u16(input, pos + 4);
    let instance_id = read_u16(input, pos + 6);
    let major_version = input[pos + 8];
    let ttl = read_u24(input, pos + 9);
    match entry_type {
        0x00 => SDEntry::FindService(
            FindServiceEntry {
                service_id,
                instance_id,
                major_version,
                ttl,
                minor_version: read_u32(input, pos + 12),
                first_options_index,
                number_of_first_options,
                second_options_index,
                number_of_second_options,
            },
        ),
        0x01 => SDEntry::OfferService(
            OfferServiceEntry {
                service_id,
                instance_id,
                major_version,
                ttl,
                minor_version: read_u32(input, pos + 12),
                first_options_index,
                number_of_first_options,
                second_options_index,
                number_of_second_options,
            },
        ),
        0x06 => SDEntry::SubscribeEventgroup(
            SubscribeEventgroupEntry {
                service_id,
                instance_id,
                major_version,
                ttl,
                eventgroup_id: read_u16(input, pos + 14),
                reserved: read_u16(input, pos + 12),
                first_options_index,
                number_of_first_options,
                second_options_index,
                number_of_second_options,
            },
        ),
        0x07 => SDEntry::SubscribeEventgroupAck(
            SubscribeEventgroupAckEntry {
                service_id,
                instance_id,
                major_version,
                ttl,
                eventgroup_id: read_u16(input, pos + 14),
                reserved: read_u16(input, pos + 12),
                first_options_index,
                number_of_first_options,
                second_options_index,
                number_of_second_options,
                return_code: parse_return_code(input[pos + 16]),
            },
        ),
        _ => SDEntry::Unknown { entry_type, data: copy_range(input, pos + 12, pos + 20) },
    }
}

/// Position bookkeeping for entries: one more entry moves the end by its size.
proof fn lemma_entry_starts(s: Seq<u8>, start: int, m: nat, n: nat)
    requires
        m <= n,
    ensures
        entry_starts(s, start, n).len() == n + 1,
        entry_starts(s, start, n).subrange(0, m as int + 1) == entry_starts(s, start, m),
    decreases n,
{
    if n > 0 {
        if m < n {
            lemma_entry_starts(s, start, m, (n - 1) as nat);
            assert(entry_starts(s, start, n).subrange(0, m as int + 1) =~= entry_starts(
                s,
                start,
                (n - 1) as nat,
            ).subrange(0, m as int + 1));
        } else {
            lemma_entry_starts(s, start, (n - 1) as nat, (n - 1) as nat);
            assert(entry_starts(s, start, n).subrange(0, m as int + 1) =~= entry_starts(s, start, n));
        }
    }
}

// ---------------------------------------------------------------- options

/// The name for what std's lossy UTF-8 decoding makes of some bytes.
pub uninterp spec fn lossy_utf8(b: Seq<u8>) -> Seq<char>;

/// Relies on `String::from_utf8_lossy`: the text it returns depends on the
/// bytes alone.
#[verifier::external_body]
fn utf8_lossy(b: &[u8]) -> (r: String)
    ensures
        r@ == lossy_utf8(b@),
{
    String::from_utf8_lossy(b).into_owned()
}

/// The options in `s[p..end]`: each is a 16-bit body length, a type byte, a
/// reserved byte, then the body. The walk stops at the first option whose
/// body would run past `end`. Each item is (type, body start, body length).
pub open spec fn option_frames(s: Seq<u8>, p: int, end: int) -> Seq<(u8, int, int)>
    decreases end - p,
{
    if p + 4 <= end && p + 4 + be16(s, p) <= end {
        seq![(s[p + 2], p + 4, be16(s, p))] + option_frames(s, p + 4 + be16(s, p), end)
    } else {
        Seq::empty()
    }
}

/// The length-prefixed items of a configuration body, from `p` on; the walk
/// stops at the first item that does not fit.
pub open spec fn config_items(b: Seq<u8>, p: int) -> Seq<Seq<u8>>
    decreases b.len() - p,
{
    if 0 <= p && p + 2 <= b.len() && p + 2 + be16(b, p) <= b.len() {
        seq![b.subrange(p + 2, p + 2 + be16(b, p))] + config_items(b, p + 2 + be16(b, p))
    } else {
        Seq::empty()
    }
}

/// The smallest body that an option of type `t` can have.
pub open spec fn option_min_len(t: u8) -> int {
    if t == 0x02 {
        5
    } else if t == 0x04 || t == 0x14 || t == 0x24 {
        7
    } else if t == 0x06 || t == 0x16 || t == 0x26 {
        19
    } else {
        0
    }
}

pub open spec fn transport_protocol_of(b: u8) -> TransportProtocol {
    if b == 0x06 {
        TransportProtocol::TCP
    } else if b == 0x11 {
        TransportProtocol::UDP
    } else {
        TransportProtocol::Unknown(b)
    }
}

/// The option whose type is `t` and whose body is `s[b..b+l]` is `o`.
pub open spec fn option_matches(s: Seq<u8>, t: u8, b: int, l: int, o: SDOption) -> bool {
    match o {
        SDOption::Configuration(c) => {
            let items = config_items(s.subrange(b, b + l), 0);
            &&& t == 0x01
            &&& c.items@.len() == items.len()
            &&& forall|i: int| 0 <= i < items.len() ==> #[trigger] c.items@[i]@ == lossy_utf8(items[i])
        },
        SDOption::LoadBalancing(x) => t == 0x02 && x == LoadBalancingOption {
            strategy: s[b],
            priority: be16(s, b + 1) as u16,
            weight: be16(s, b + 3) as u16,
        },
        SDOption::Ipv4Endpoint(x) => t == 0x04 && x.ip_address@ == s.subrange(b, b + 4)
            && x.transport_protocol == transport_protocol_of(s[b + 4]) && x.port == be16(s, b + 5),
        SDOption::Ipv4Multicast(x) => t == 0x14 && x.ip_address@ == s.subrange(b, b + 4)
            && x.transport_protocol == transport_protocol_of(s[b + 4]) && x.port == be16(s, b + 5),
        SDOption::Ipv4SDEndpoint(x) => t == 0x24 && x.ip_address@ == s.subrange(b, b + 4)
            && x.transport_protocol == transport_protocol_of(s[b + 4]) && x.port == be16(s, b + 5),
        SDOption::Ipv6Endpoint(x) => t == 0x06 && x.ip_address@ == s.subrange(b, b + 16)
            && x.transport_protocol == transport_protocol_of(s[b + 16]) && x.port == be16(
            s,
            b + 17,
        ),
        SDOption::Ipv6Multicast(x) => t == 0x16 && x.ip_address@ == s.subrange(b, b + 16)
            && x.transport_protocol == transport_protocol_of(s[b + 16]) && x.port == be16(
            s,
            b + 17,
        ),
        SDOption::Ipv6SDEndpoint(x) => t == 0x26 && x.ip_address@ == s.subrange(b, b + 16)
            && x.transport_protocol == transport_protocol_of(s[b + 16]) && x.port == be16(
            s,
            b + 17,
        ),
        SDOption::Unknown { option_type, data } => {
            &&& t != 0x01 && t != 0x02 && t != 0x04 && t != 0x14 && t != 0x24
            &&& t != 0x06 && t != 0x16 && t != 0x26
            &&& option_type == t
            &&& data@ == s.subrange(b, b + l)
        },
    }
}

/// The options in `s[p..end]` all have bodies long enough for their type.
pub open spec fn options_decode(s: Seq<u8>, p: int, end: int) -> bool {
    forall|i: int|
        0 <= i < option_frames(s, p, end).len() ==> (#[trigger] option_frames(s, p, end)[i]).2
            >= option_min_len(option_frames(s, p, end)[i].0)
}

/// `opts` are the options in `s[p..end]`, one for one.
pub open spec fn options_match(s: Seq<u8>, p: int, end: int, opts: Seq<SDOption>) -> bool {
    let f = option_frames(s, p, end);
    &&& opts.len() == f.len()
    &&& forall|i: int|
        0 <= i < f.len() ==> option_matches(s, (#[trigger] f[i]).0, f[i].1, f[i].2, opts[i])
}

fn parse_transport_protocol(b: u8) -> (r: TransportProtocol)
    ensures
        r == transport_protocol_of(b),
{
    match b {
        0x06 => TransportProtocol::TCP,
        0x11 => TransportProtocol::UDP,
        _ => TransportProtocol::Unknown(b),
    }
}

fn parse_configuration_item(body: &[u8], pos: usize) -> (r: Option<(String, usize)>)
    requires
        pos <= body@.len(),
    ensures
        match r {
            Some((item, next)) => {
                &&& config_items(body@, pos as int) == seq![
                    body@.subrange(pos + 2, next as int),
                ] + config_items(body@, next as int)
                &&& item@ == lossy_utf8(body@.subrange(pos + 2, next as int))
                &&& pos < next <= body@.len()
            },
            None => config_items(body@, pos as int) == Seq::<Seq<u8>>::empty(),
        },
{
    if body.len() - pos < 2 {
        return None;
    }
    let length = read_u16(body, pos) as usize;
    if length > body.len() - pos - 2 {
        return None;
    }
    let bytes = copy_range(body, pos + 2, pos + 2 + length);
    let item = utf8_lossy(bytes.as_slice());
    Some((item, pos + 2 + length))
}

fn parse_configuration_option(body: &[u8]) -> (r: SDOption)
    ensures
        option_matches(body@, 0x01, 0, body@.len() as int, r),
{
    let mut items: Vec<String> = Vec::new();
    let mut pos: usize = 0;
    let ghost all = config_items(body@, 0);
    let ghost mut done: Seq<Seq<u8>> = Seq::empty();
    loop
        invariant
            pos <= body@.len(),
            done + config_items(body@, pos as int) == all,
            items@.len() == done.len(),
            forall|i: int| 0 <= i < done.len() ==> #[trigger] items@[i]@ == lossy_utf8(done[i]),
        ensures
            done == all,
            items@.len() == done.len(),
            forall|i: int| 0 <= i < done.len() ==> #[trigger] items@[i]@ == lossy_utf8(done[i]),
        decreases body@.len() - pos,
    {
        match parse_configuration_item(body, pos) {
            Some((item, next)) => {
                proof {
                    let b = body@.subrange(pos + 2, next as int);
                    assert(done.push(b) + config_items(body@, next as int) =~= done + (seq![b]
                        + config_items(body@, next as int)));
                    done = done.push(b);
                }
                items.push(item);
                pos = next;
            },
            None => {
                assert(done =~= all);
                break ;
            },
        }
    }
    assert(body@.subrange(0, body@.len() as int) =~= body@);
    SDOption::Configuration(ConfigurationOption { items })
}

/// Decodes one option body; `None` when it is too short for its type.
fn parse_option_body(input: &[u8], t: u8, b: usize, l: usize) -> (r: Option<SDOption>)
    requires
        b + l <= input@.len(),
    ensures
        r is Some <==> l >= option_min_len(t),
        r matches Some(o) ==> option_matches(input@, t, b as int, l as int, o),
{
    let n = input.len();
    if t == 0x01 {
        let body = copy_range(input, b, b + l);
        let o = parse_configuration_option(body.as_slice());
        assert(body@.subrange(0, body@.len() as int) =~= input@.subrange(b as int, (b + l) as int));
        Some(o)
    } else if t == 0x02 {
        if l < 5 {
            return None;
        }
        Some(
            SDOption::LoadBalancing(
                LoadBalancingOption {
                    strategy: input[b],
                    priority: read_u16(input, b + 1),
                    weight: read_u16(input, b + 3),
                },
            ),
        )
    } else if t == 0x04 || t == 0x14 || t == 0x24 {
        if l < 7 {
            return None;
        }
        let ip_address = read_array4(input, b);
        let transport_protocol = parse_transport_protocol(input[b + 4]);
        let port = read_u16(input, b + 5);
        if t == 0x04 {
            Some(SDOption::Ipv4Endpoint(Ipv4EndpointOption { ip_address, transport_protocol, port }))
        } else if t == 0x14 {
            Some(
                SDOption::Ipv4Multicast(Ipv4MulticastOption { ip_address, transport_protocol, port }),
            )
        } else {
            Some(
                SDOption::Ipv4SDEndpoint(
                    Ipv4SDEndpointOption { ip_address, transport_protocol, port },
                ),
            )
        }
    } else if t == 0x06 || t == 0x16 || t == 0x26 {
        if l < 19 {
            return None;
        }
        let ip_address = read_array16(input, b);
        let transport_protocol = parse_transport_protocol(input[b + 16]);
        let port = read_u16(input, b + 17);
        if t == 0x06 {
            Some(SDOption::Ipv6Endpoint(Ipv6EndpointOption { ip_address, transport_protocol, port }))
        } else if t == 0x16 {
            Some(
                SDOption::Ipv6Multicast(Ipv6MulticastOption { ip_address, transport_protocol, port }),
            )
        } else {
            Some(
                SDOption::Ipv6SDEndpoint(
                    Ipv6SDEndpointOption { ip_address, transport_protocol, port },
                ),
            )
        }
    } else {
        Some(SDOption::Unknown { option_type: t, data: copy_range(input, b, b + l) })
    }
}

/// Decodes the options in `input[start..end]`. Fails when one of them has a
/// body too short for its type.
fn parse_sd_options(input: &[u8], start: usize, end: usize) -> (r: Result<
    Vec<SDOption>,
    SomeIPError,
>)
    requires
        start <= end <= input@.len(),
    ensures
        r is Ok <==> options_decode(input@, start as int, end as int),
        r matches Ok(v) ==> options_match(input@, start as int, end as int, v@),
        r matches Err(e) ==> e == SomeIPError::InvalidPacketFormat,
{
    let ghost s = input@;
    let ghost all = option_frames(s, start as int, end as int);
    let ghost mut done: Seq<(u8, int, int)> = Seq::empty();
    let mut options: Vec<SDOption> = Vec::new();
    let mut pos: usize = start;
    loop
        invariant
            start <= pos <= end <= s.len(),
            s == input@,
            all == option_frames(s, start as int, end as int),
            done + option_frames(s, pos as int, end as int) == all,
            options@.len() == done.len(),
            forall|i: int|
                0 <= i < done.len() ==> option_matches(
                    s,
                    (#[trigger] done[i]).0,
                    done[i].1,
                    done[i].2,
                    options@[i],
                ),
            forall|i: int| 0 <= i < done.len() ==> (#[trigger] done[i]).2 >= option_min_len(done[i].0),
        ensures
            done == all,
            options@.len() == done.len(),
            forall|i: int|
                0 <= i < done.len() ==> option_matches(
                    s,
                    (#[trigger] done[i]).0,
                    done[i].1,
                    done[i].2,
                    options@[i],
                ),
            forall|i: int| 0 <= i < done.len() ==> (#[trigger] done[i]).2 >= option_min_len(done[i].0),
        decreases end - pos,
    {
        if end - pos < 4 {
            assert(done =~= all);
            break ;
        }
        let length = read_u16(input, pos) as usize;
        if length > end - pos - 4 {
            assert(done =~= all);
            break ;
        }
        let option_type = input[pos + 2];
        let ghost f = (option_type, pos + 4, length as int);
        assert(option_frames(s, pos as int, end as int) == seq![f] + option_frames(
            s,
            pos + 4 + length,
            end as int,
        ));
        match parse_option_body(input, option_type, pos + 4, length) {
            Some(o) => {
                options.push(o);
                proof {
                    assert(done.push(f) + option_frames(s, pos + 4 + length, end as int) =~= done + (
                    seq![f] + option_frames(s, pos + 4 + length, end as int)));
                    done = done.push(f);
                }
                pos = pos + 4 + length;
            },
            None => {
                assert(all[done.len() as int] == f);
                return Err(SomeIPError::InvalidPacketFormat);
            },
        }
    }
    Ok(options)
}

// ---------------------------------------------------------------- packet

/// Whether the SD body `s` (the bytes after the SomeIP header) decodes: the
/// flags byte, three reserved bytes, the entries length, `length / 16`
/// entries, the options length, and options that fill it.
pub open spec fn sd_decodes(s: Seq<u8>) -> bool {
    s.len() >= 8 && {
        let n = (be32(s, 4) / 16) as nat;
        let q = entry_starts(s, 8, n).last();
        &&& entries_fit(s, 8, n)
        &&& q + 4 <= s.len()
        &&& q + 4 + be32(s, q) <= s.len()
        &&& options_decode(s, q + 4, q + 4 + be32(s, q))
    }
}

pub open spec fn sd_flags_of(b: u8) -> SDFlags {
    SDFlags {
        reboot: b / 128 == 1,
        unicast: (b / 64) % 2 == 1,
        explicit_initial_data_control: (b / 32) % 2 == 1,
    }
}

/// `p` is the SD packet that the body `s` under `header` describes.
pub open spec fn sd_matches(s: Seq<u8>, header: SomeIPHeader, p: SDPacket) -> bool {
    let n = (be32(s, 4) / 16) as nat;
    let st = entry_starts(s, 8, n);
    let q = st.last();
    &&& p.header == header
    &&& p.flags == sd_flags_of(s[0])
    &&& p.entries@.len() == n
    &&& forall|i: int| 0 <= i < n ==> entry_matches(s, #[trigger] st[i], p.entries@[i])
    &&& options_match(s, q + 4, q + 4 + be32(s, q), p.options@)
}

/// Decodes an SD body: the bytes that follow the 16-byte SomeIP header.
pub fn parse_sd_packet(input: &[u8], header: SomeIPHeader) -> (r: Result<SDPacket, SomeIPError>)
    ensures
        r is Ok <==> sd_decodes(input@),
        r matches Ok(p) ==> sd_matches(input@, header, p),
        r matches Err(e) ==> e == SomeIPError::InvalidPacketFormat,
{
    let len = input.len();
    if len < 8 {
        return Err(SomeIPError::InvalidPacketFormat);
    }
    let flags_byte = input[0];
    let flags = SDFlags {
        reboot: flags_byte / 128 == 1,
        unicast: (flags_byte / 64) % 2 == 1,
        explicit_initial_data_control: (flags_byte / 32) % 2 == 1,
    };
    let count = read_u32(input, 4) / 16;
    let ghost s = input@;
    let ghost n = count as nat;
    let mut entries: Vec<SDEntry> = Vec::new();
    let mut pos: usize = 8;
    let mut i: u32 = 0;
    while i < count
        invariant
            s == input@,
            len == s.len(),
            n == count as nat,
            count as int == be32(s, 4) / 16,
            i <= count,
            8 <= pos <= len,
            pos == entry_starts(s, 8, i as nat).last(),
            entries@.len() == i,
            forall|j: int|
                0 <= j < i ==> entry_fits(s, #[trigger] entry_starts(s, 8, i as nat)[j])
                    && entry_matches(s, entry_starts(s, 8, i as nat)[j], entries@[j]),
        decreases count - i,
    {
        proof {
            lemma_entry_starts(s, 8, i as nat, (i + 1) as nat);
            lemma_entry_starts(s, 8, i as nat, i as nat);
        }
        proof {
            let full = entry_starts(s, 8, n);
            lemma_entry_starts(s, 8, (i + 1) as nat, n);
            assert(full.subrange(0, i as int + 2)[i as int] == full[i as int]);
            assert(entry_starts(s, 8, (i + 1) as nat)[i as int] == pos);
            assert(full[i as int] == pos);
        }
        if pos >= len {
            assert(!entry_fits(s, entry_starts(s, 8, n)[i as int]));
            assert(!sd_decodes(s));
            return Err(SomeIPError::InvalidPacketFormat);
        }
        let t = input[pos];
        let size: usize = if t == 0x00 || t == 0x01 || t == 0x06 {
            16
        } else if t == 0x07 {
            17
        } else {
            20
        };
        if len - pos < size {
            assert(!entry_fits(s, entry_starts(s, 8, n)[i as int]));
            assert(!sd_decodes(s));
            return Err(SomeIPError::InvalidPacketFormat);
        }
        let e = parse_sd_entry(input, pos);
        entries.push(e);
        proof {
            let prev = entry_starts(s, 8, i as nat);
            let next = entry_starts(s, 8, (i + 1) as nat);
            assert forall|j: int| 0 <= j < i + 1 implies entry_fits(s, #[trigger] next[j])
                && entry_matches(s, next[j], entries@[j]) by {
                if j < i {
                    assert(next.subrange(0, i as int + 1)[j] == prev[j]);
                }
            }
        }
        pos = pos + size;
        i = i + 1;
    }
    proof {
        lemma_entry_starts(s, 8, n, n);
    }
    if len - pos < 4 {
        return Err(SomeIPError::InvalidPacketFormat);
    }
    let options_length = read_u32(input, pos);
    if options_length as usize > len - pos - 4 {
        return Err(SomeIPError::InvalidPacketFormat);
    }
    let start = pos + 4;
    let end = start + options_length as usize;
    match parse_sd_options(input, start, end) {
        Ok(options) => Ok(SDPacket { header, flags, entries, options }),
        Err(e) => Err(e),
    }
}

// ---------------------------------------------------------------- ports

/// The port that an endpoint, multicast or SD-endpoint option announces.
pub open spec fn option_port(o: SDOption) -> Option<u16> {
    match o {
        SDOption::Ipv4Endpoint(x) => Some(x.port),
        SDOption::Ipv6Endpoint(x) => Some(x.port),
        SDOption::Ipv4Multicast(x) => Some(x.port),
        SDOption::Ipv6Multicast(x) => Some(x.port),
        SDOption::Ipv4SDEndpoint(x) => Some(x.port),
        SDOption::Ipv6SDEndpoint(x) => Some(x.port),
        _ => None,
    }
}

/// Every port that some option of `opts` announces.
pub open spec fn announced_ports(opts: Seq<SDOption>) -> Set<u16> {
    Set::new(|p: u16| exists|i: int| 0 <= i < opts.len() && option_port(opts[i]) == Some(p))
}

/// The port that an option announces, if it announces one.
pub fn sd_option_port(o: &SDOption) -> (r: Option<u16>)
    ensures
        r == option_port(*o),
{
    match o {
        SDOption::Ipv4Endpoint(x) => Some(x.port),
        SDOption::Ipv6Endpoint(x) => Some(x.port),
        SDOption::Ipv4Multicast(x) => Some(x.port),
        SDOption::Ipv6Multicast(x) => Some(x.port),
        SDOption::Ipv4SDEndpoint(x) => Some(x.port),
        SDOption::Ipv6SDEndpoint(x) => Some(x.port),
        _ => None,
    }
}

} // verus!
