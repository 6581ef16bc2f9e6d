//! The name matrix: service, method and address names for the output.
use vstd::prelude::*;
use std::collections::HashMap;
use crate::text::push_str;

verus! {

broadcast use vstd::std_specs::hash::group_hash_axioms;

/// A matrix document: packages of elements, nested in sub-packages.
#[derive(Debug)]
pub struct MatrixFile {
    pub ar_packages: Vec<ArPackage>,
}

#[derive(Debug)]
pub struct ArPackage {
    pub short_name: String,
    pub elements: Vec<Element>,
    pub sub_packages: Vec<ArPackage>,
}

#[derive(Debug, Clone)]
pub struct Element {
    pub short_name: String,
    pub service_instance: Option<ServiceInstance>,
    pub service_interface: Option<ServiceInterface>,
}

#[derive(Debug, Clone)]
pub struct ServiceInstance {
    pub service_ref: String,
}

/// A service interface; its ids are hexadecimal text.
#[derive(Debug, Clone)]
pub struct ServiceInterface {
    pub short_name: String,
    pub service_id: Option<String>,
    pub events: Vec<Event>,
    pub methods: Vec<Method>,
    pub fields: Vec<Field>,
}

#[derive(Debug, Clone)]
pub struct Event {
    pub short_name: String,
    pub event_id: String,
}

#[derive(Debug, Clone)]
pub struct Method {
    pub short_name: String,
    pub method_id: String,
    pub method_type: String,
}

#[derive(Debug, Clone)]
pub struct Field {
    pub short_name: String,
    pub field_id: String,
}

pub struct Matrix {
    service_id_to_name: HashMap<u16, String>,
    method_id_to_name: HashMap<u32, String>,
    ip_to_name: Vec<(String, String)>,
}

// ---------------------------------------------------------------- hex ids

/// The value of a hexadecimal digit, or -1.
pub open spec fn hex_digit_value(c: char) -> int {
    if '0' <= c && c <= '9' {
        c as int - '0' as int
    } else if 'a' <= c && c <= 'f' {
        c as int - 'a' as int + 10
    } else if 'A' <= c && c <= 'F' {
        c as int - 'A' as int + 10
    } else {
        -1
    }
}

pub open spec fn hex_digits_value(s: Seq<char>) -> int
    decreases s.len(),
{
    if s.len() == 0 {
        0
    } else {
        hex_digits_value(s.drop_last()) * 16 + hex_digit_value(s.last())
    }
}

/// The digits of an id: the text after an optional leading `+`.
pub open spec fn hex_body(s: Seq<char>) -> Seq<char> {
    if s.len() > 0 && s[0] == '+' {
        s.drop_first()
    } else {
        s
    }
}

pub open spec fn all_hex(d: Seq<char>) -> bool {
    forall|i: int| 0 <= i < d.len() ==> hex_digit_value(#[trigger] d[i]) >= 0
}

/// The 16-bit value that a hexadecimal id denotes: an optional `+`, then
/// one or more hex digits, at most 0xFFFF in value.
pub open spec fn hex_u16_of(s: Seq<char>) -> Option<u16> {
    let d = hex_body(s);
    if d.len() > 0 && all_hex(d) && hex_digits_value(d) <= 0xFFFF {
        Some(hex_digits_value(d) as u16)
    } else {
        None
    }
}

proof fn lemma_hex_nonneg(s: Seq<char>)
    requires
        forall|i: int| 0 <= i < s.len() ==> hex_digit_value(#[trigger] s[i]) >= 0,
    ensures
        hex_digits_value(s) >= 0,
    decreases s.len(),
{
    if s.len() > 0 {
        assert forall|i: int| 0 <= i < s.drop_last().len() implies hex_digit_value(
            #[trigger] s.drop_last()[i],
        ) >= 0 by {
            assert(s.drop_last()[i] == s[i]);
        }
        lemma_hex_nonneg(s.drop_last());
        assert(hex_digit_value(s[s.len() - 1]) >= 0);
    }
}

fn hex_digit(c: char) -> (r: Option<u64>)
    ensures
        hex_digit_value(c) >= 0 ==> r == Some(hex_digit_value(c) as u64),
        hex_digit_value(c) < 0 ==> r is None,
{
    if '0' <= c && c <= '9' {
        Some((c as u64) - ('0' as u64))
    } else if 'a' <= c && c <= 'f' {
        Some((c as u64) - ('a' as u64) + 10)
    } else if 'A' <= c && c <= 'F' {
        Some((c as u64) - ('A' as u64) + 10)
    } else {
        None
    }
}

/// Reads a hexadecimal id as `u16::from_str_radix(s, 16)` does.
pub fn parse_hex_u16(s: &str) -> (r: Option<u16>)
    ensures
        r == hex_u16_of(s@),
{
    let n = s.unicode_len();
    let mut i: usize = 0;
    if n > 0 && s.get_char(0) == '+' {
        i = 1;
    }
    let start = i;
    let ghost d = hex_body(s@);
    assert(d =~= s@.subrange(start as int, n as int));
    if start == n {
        return None;
    }
    let mut acc: u64 = 0;
    while i < n
        invariant
            start <= i <= n,
            n == s@.len(),
            d == s@.subrange(start as int, n as int),
            d == hex_body(s@),
            forall|j: int| 0 <= j < i - start ==> hex_digit_value(#[trigger] d[j]) >= 0,
            acc == if hex_digits_value(d.subrange(0, i - start)) > 0x10000 {
                0x10000
            } else {
                hex_digits_value(d.subrange(0, i - start))
            },
        decreases n - i,
    {
        let c = s.get_char(i);
        match hex_digit(c) {
            None => {
                assert(d[i - start] == c);
                assert(hex_digit_value(d[i - start]) < 0);
                assert(!all_hex(d));
                assert(hex_u16_of(s@) is None);
                return None;
            },
            Some(v) => {
                proof {
                    let p = d.subrange(0, i - start);
                    let q = d.subrange(0, i - start + 1);
                    assert(q.drop_last() =~= p);
                    assert(q.last() == c);
                    assert forall|j: int| 0 <= j < p.len() implies hex_digit_value(#[trigger] p[j]) >= 0 by {
                        assert(p[j] == d[j]);
                    }
                    lemma_hex_nonneg(p);
                    let hv = hex_digits_value(p);
                    assert(hex_digits_value(q) == hv * 16 + v);
                    if hv > 0x10000 {
                        assert(hv * 16 + v > 0x10000) by (nonlinear_arith)
                            requires
                                hv > 0x10000,
                                v >= 0,
                        ;
                    }
                }
                let next = acc * 16 + v;
                acc = if next > 0x10000 {
                    0x10000
                } else {
                    next
                };
                proof {
                    let p = d.subrange(0, i - start);
                    let hv = hex_digits_value(p);
                    if hv == 0x10000 {
                        assert(hv * 16 + v > 0x10000) by (nonlinear_arith)
                            requires
                                hv == 0x10000,
                                v >= 0,
                        ;
                    }
                }
            },
        }
        i = i + 1;
    }
    assert(d.subrange(0, n - start) =~= d);
    if acc <= 0xFFFF {
        Some(acc as u16)
    } else {
        None
    }
}

// ---------------------------------------------------------------- matrix

/// The key under which a method (or event, or field accessor) of a service
/// is named.
pub open spec fn method_key(service_id: u16, method_id: u16) -> u32 {
    (service_id as int * 65536 + method_id as int) as u32
}

pub open spec fn names_view<K>(m: Map<K, String>) -> Map<K, Seq<char>> {
    m.map_values(|s: String| s@)
}

/// `m` after naming each method whose id reads as hex.
pub open spec fn with_methods(m: Map<u32, Seq<char>>, sid: u16, ms: Seq<Method>) -> Map<
    u32,
    Seq<char>,
>
    decreases ms.len(),
{
    if ms.len() == 0 {
        m
    } else {
        let r = with_methods(m, sid, ms.drop_last());
        match hex_u16_of(ms.last().method_id@) {
            Some(id) => r.insert(method_key(sid, id), ms.last().short_name@),
            None => r,
        }
    }
}

/// `m` after naming each event whose id reads as hex.
pub open spec fn with_events(m: Map<u32, Seq<char>>, sid: u16, es: Seq<Event>) -> Map<
    u32,
    Seq<char>,
>
    decreases es.len(),
{
    if es.len() == 0 {
        m
    } else {
        let r = with_events(m, sid, es.drop_last());
        match hex_u16_of(es.last().event_id@) {
            Some(id) => r.insert(method_key(sid, id), es.last().short_name@),
            None => r,
        }
    }
}

/// `m` after naming the getter (at the id), setter (id | 0x8000) and
/// notifier (id | 0x4000) of each field whose id reads as hex.
pub open spec fn with_fields(m: Map<u32, Seq<char>>, sid: u16, fs: Seq<Field>) -> Map<
    u32,
    Seq<char>,
>
    decreases fs.len(),
{
    if fs.len() == 0 {
        m
    } else {
        let r = with_fields(m, sid, fs.drop_last());
        let name = fs.last().short_name@;
        match hex_u16_of(fs.last().field_id@) {
            Some(id) => r.insert(method_key(sid, id), name + "_GET"@).insert(
                method_key(sid, id | 0x8000),
                name + "_SET"@,
            ).insert(method_key(sid, id | 0x4000), name + "_NOTIFIER"@),
            None => r,
        }
    }
}

/// Service names and method names, as maps.
pub type Names = (Map<u16, Seq<char>>, Map<u32, Seq<char>>);

/// The names after registering a service interface whose service id reads as
/// hex: the service, then its methods, events and fields.
pub open spec fn register(m: Names, iface: ServiceInterface) -> Names {
    match iface.service_id {
        Some(t) => match hex_u16_of(t@) {
            Some(sid) => (
                m.0.insert(sid, iface.short_name@),
                with_fields(
                    with_events(with_methods(m.1, sid, iface.methods@), sid, iface.events@),
                    sid,
                    iface.fields@,
                ),
            ),
            None => m,
        },
        None => m,
    }
}

/// The names after registering the interfaces of `es`, in order.
pub open spec fn with_elements(m: Names, es: Seq<Element>) -> Names
    decreases es.len(),
{
    if es.len() == 0 {
        m
    } else {
        let r = with_elements(m, es.drop_last());
        match es.last().service_interface {
            Some(i) => register(r, i),
            None => r,
        }
    }
}

/// The names after registering a package: its own interfaces, then each of
/// its sub-packages in order, depth first.
pub open spec fn with_package(m: Names, p: ArPackage) -> Names
    decreases p, 0nat,
{
    with_packages(with_elements(m, p.elements@), p.sub_packages@, p.sub_packages@.len())
}

/// The names after registering the first `n` packages of `ps`.
pub open spec fn with_packages(m: Names, ps: Seq<ArPackage>, n: nat) -> Names
    decreases ps, n,
{
    if n == 0 || n > ps.len() {
        m
    } else {
        with_package(with_packages(m, ps, (n - 1) as nat), ps[n - 1])
    }
}

fn key_of(service_id: u16, method_id: u16) -> (r: u32)
    ensures
        r == method_key(service_id, method_id),
{
    service_id as u32 * 65536 + method_id as u32
}

fn suffixed(name: &String, suffix: &str) -> (r: String)
    ensures
        r@ == name@ + suffix@,
{
    let mut s = name.clone();
    push_str(&mut s, suffix);
    s
}

impl Matrix {
    /// The service names, by service id.
    pub closed spec fn services(&self) -> Map<u16, Seq<char>> {
        names_view(self.service_id_to_name@)
    }

    /// The method, event and field names, by `method_key`.
    pub closed spec fn methods(&self) -> Map<u32, Seq<char>> {
        names_view(self.method_id_to_name@)
    }

    /// The address names, in the order they were added.
    pub closed spec fn ips(&self) -> Seq<(Seq<char>, Seq<char>)> {
        self.ip_to_name@.map_values(|p: (String, String)| (p.0@, p.1@))
    }

    pub fn new() -> (r: Self)
        ensures
            r.services() == Map::<u16, Seq<char>>::empty(),
            r.methods() == Map::<u32, Seq<char>>::empty(),
            r.ips() == Seq::<(Seq<char>, Seq<char>)>::empty(),
    {
        let r = Matrix {
            service_id_to_name: HashMap::new(),
            method_id_to_name: HashMap::new(),
            ip_to_name: Vec::new(),
        };
        assert(r.services() =~= Map::<u16, Seq<char>>::empty());
        assert(r.methods() =~= Map::<u32, Seq<char>>::empty());
        assert(r.ips() =~= Seq::<(Seq<char>, Seq<char>)>::empty());
        r
    }

    fn name_method(&mut self, key: u32, name: String)
        ensures
            final(self).methods() == old(self).methods().insert(key, name@),
            final(self).services() == old(self).services(),
            final(self).ips() == old(self).ips(),
    {
        self.method_id_to_name.insert(key, name);
        assert(self.methods() =~= old(self).methods().insert(key, name@));
    }

    /// Registers the names that a service interface gives, when its service
    /// id reads as hex: the service, then its methods, events and fields in
    /// order (a later name under the same key wins).
    pub fn register_interface(&mut self, iface: &ServiceInterface)
        ensures
            final(self).ips() == old(self).ips(),
            (final(self).services(), final(self).methods()) == register(
                (old(self).services(), old(self).methods()),
                *iface,
            ),
    {
        let sid = match &iface.service_id {
            Some(t) => match parse_hex_u16(t.as_str()) {
                Some(v) => v,
                None => {
                    return ;
                },
            },
            None => {
                return ;
            },
        };
        self.service_id_to_name.insert(sid, iface.short_name.clone());
        assert(self.services() =~= old(self).services().insert(sid, iface.short_name@));
        let ghost m0 = self.methods();
        let ghost s1 = self.services();
        let ghost ips0 = self.ips();
        let mut i: usize = 0;
        while i < iface.methods.len()
            invariant
                i <= iface.methods@.len(),
                self.services() == s1,
                self.ips() == ips0,
                self.methods() == with_methods(m0, sid, iface.methods@.subrange(0, i as int)),
            decreases iface.methods@.len() - i,
        {
            let m = &iface.methods[i];
            proof {
                assert(iface.methods@.subrange(0, i + 1).drop_last() =~= iface.methods@.subrange(
                    0,
                    i as int,
                ));
            }
            if let Some(mid) = parse_hex_u16(m.method_id.as_str()) {
                self.name_method(key_of(sid, mid), m.short_name.clone());
            }
            i = i + 1;
        }
        assert(iface.methods@.subrange(0, iface.methods@.len() as int) =~= iface.methods@);
        let ghost m1 = self.methods();
        let mut i: usize = 0;
        while i < iface.events.len()
            invariant
                i <= iface.events@.len(),
                self.services() == s1,
                self.ips() == ips0,
                self.methods() == with_events(m1, sid, iface.events@.subrange(0, i as int)),
            decreases iface.events@.len() - i,
        {
            let e = &iface.events[i];
            proof {
                assert(iface.events@.subrange(0, i + 1).drop_last() =~= iface.events@.subrange(
                    0,
                    i as int,
                ));
            }
            if let Some(eid) = parse_hex_u16(e.event_id.as_str()) {
                self.name_method(key_of(sid, eid), e.short_name.clone());
            }
            i = i + 1;
        }
        assert(iface.events@.subrange(0, iface.events@.len() as int) =~= iface.events@);
        let ghost m2 = self.methods();
        let mut i: usize = 0;
        while i < iface.fields.len()
            invariant
                i <= iface.fields@.len(),
                self.services() == s1,
                self.ips() == ips0,
                self.methods() == with_fields(m2, sid, iface.fields@.subrange(0, i as int)),
            decreases iface.fields@.len() - i,
        {
            let f = &iface.fields[i];
            proof {
                assert(iface.fields@.subrange(0, i + 1).drop_last() =~= iface.fields@.subrange(
                    0,
                    i as int,
                ));
            }
            if let Some(fid) = parse_hex_u16(f.field_id.as_str()) {
                proof {
                    reveal_strlit("_GET");
                    reveal_strlit("_SET");
                    reveal_strlit("_NOTIFIER");
                }
                self.name_method(key_of(sid, fid), suffixed(&f.short_name, "_GET"));
                self.name_method(key_of(sid, fid | 0x8000), suffixed(&f.short_name, "_SET"));
                self.name_method(key_of(sid, fid | 0x4000), suffixed(&f.short_name, "_NOTIFIER"));
            }
            i = i + 1;
        }
        assert(iface.fields@.subrange(0, iface.fields@.len() as int) =~= iface.fields@);
    }

    /// Registers every service interface of a package and, after them, of
    /// its sub-packages, depth first.
    pub fn parse_package(&mut self, package: &ArPackage)
        ensures
            final(self).ips() == old(self).ips(),
            (final(self).services(), final(self).methods()) == with_package(
                (old(self).services(), old(self).methods()),
                *package,
            ),
        decreases package,
    {
        let ghost ips0 = self.ips();
        let ghost m0: Names = (self.services(), self.methods());
        let mut i: usize = 0;
        while i < package.elements.len()
            invariant
                i <= package.elements@.len(),
                self.ips() == ips0,
                (self.services(), self.methods()) == with_elements(
                    m0,
                    package.elements@.subrange(0, i as int),
                ),
            decreases package.elements@.len() - i,
        {
            proof {
                assert(package.elements@.subrange(0, i + 1).drop_last() =~= package.elements@.subrange(
                    0,
                    i as int,
                ));
            }
            if let Some(iface) = &package.elements[i].service_interface {
                self.register_interface(iface);
            }
            i = i + 1;
        }
        assert(package.elements@.subrange(0, package.elements@.len() as int) =~= package.elements@);
        let ghost m1: Names = (self.services(), self.methods());
        let mut j: usize = 0;
        while j < package.sub_packages.len()
            invariant
                j <= package.sub_packages@.len(),
                self.ips() == ips0,
                (self.services(), self.methods()) == with_packages(
                    m1,
                    package.sub_packages@,
                    j as nat,
                ),
            decreases package.sub_packages@.len() - j,
        {
            proof {
                assert(decreases_to!(package => package.sub_packages));
            }
            self.parse_package(&package.sub_packages[j]);
            j = j + 1;
        }
    }
}

impl Matrix {
    /// Registers the names of every package of a matrix document, in order.
    pub fn parse_xml_matrix(&mut self, matrix: &MatrixFile)
        ensures
            final(self).ips() == old(self).ips(),
            (final(self).services(), final(self).methods()) == with_packages(
                (old(self).services(), old(self).methods()),
                matrix.ar_packages@,
                matrix.ar_packages@.len(),
            ),
    {
        let ghost ips0 = self.ips();
        let ghost m0: Names = (self.services(), self.methods());
        let mut i: usize = 0;
        while i < matrix.ar_packages.len()
            invariant
                i <= matrix.ar_packages@.len(),
                self.ips() == ips0,
                (self.services(), self.methods()) == with_packages(
                    m0,
                    matrix.ar_packages@,
                    i as nat,
                ),
            decreases matrix.ar_packages@.len() - i,
        {
            self.parse_package(&matrix.ar_packages[i]);
            i = i + 1;
        }
    }

    /// Names an address (given as text); a later name for the same address
    /// wins.
    pub fn add_ip_mapping(&mut self, ip: &str, name: &str)
        ensures
            final(self).ips() == old(self).ips().push((ip@, name@)),
            final(self).services() == old(self).services(),
            final(self).methods() == old(self).methods(),
    {
        self.ip_to_name.push((ip.to_owned(), name.to_owned()));
        assert(self.ips() =~= old(self).ips().push((ip@, name@)));
    }

    pub fn get_service_name(&self, service_id: u16) -> (r: Option<&str>)
        ensures
            match r {
                Some(n) => self.services().contains_key(service_id) && n@ == self.services()[service_id],
                None => !self.services().contains_key(service_id),
            },
    {
        match self.service_id_to_name.get(&service_id) {
            Some(n) => Some(n.as_str()),
            None => None,
        }
    }

    pub fn get_method_name(&self, service_id: u16, method_id: u16) -> (r: Option<&str>)
        ensures
            ({
                let k = method_key(service_id, method_id);
                match r {
                    Some(n) => self.methods().contains_key(k) && n@ == self.methods()[k],
                    None => !self.methods().contains_key(k),
                }
            }),
    {
        let k = key_of(service_id, method_id);
        match self.method_id_to_name.get(&k) {
            Some(n) => Some(n.as_str()),
            None => None,
        }
    }

    /// The latest name given to an address.
    pub fn get_ip_name(&self, ip: &str) -> (r: Option<&str>)
        ensures
            match r {
                Some(n) => exists|i: int|
                    0 <= i < self.ips().len() && self.ips()[i] == (ip@, n@) && forall|j: int|
                        i < j < self.ips().len() ==> (#[trigger] self.ips()[j]).0 != ip@,
                None => forall|j: int| 0 <= j < self.ips().len() ==> (#[trigger] self.ips()[j]).0 != ip@,
            },
    {
        let ghost v = self.ips();
        let mut i: usize = self.ip_to_name.len();
        let target = ip.to_owned();
        while i > 0
            invariant
                i <= v.len(),
                v == self.ips(),
                target@ == ip@,
                forall|j: int| i <= j < v.len() ==> (#[trigger] v[j]).0 != ip@,
            decreases i,
        {
            i = i - 1;
            let entry = &self.ip_to_name[i];
            if entry.0.eq(&target) {
                assert(v[i as int] == (entry.0@, entry.1@));
                return Some(entry.1.as_str());
            }
        }
        None
    }
}

} // verus!
