//! TCP stream reassembly: per-direction byte streams ordered by sequence
//! number, with a bound on the number of streams and timeouts.
use vstd::prelude::*;
use crate::error::SomeIPError;
use crate::transport_layer::{TCPFlags, TCPPacketInfo};
use crate::msi::{frames_match, split_stream_prefix, stream_frames, stream_stop, stream_stuck, MSIMessage};
use crate::wire::{append_bytes, copy_range};

verus! {

/// A held segment: its sequence number, its data and when it arrived.
struct TcpSegment {
    seq_num: u32,
    data: Vec<u8>,
    timestamp: u64,
}

/// One direction of a connection. `segments` holds data that arrived ahead
/// of `expected_seq`, sorted by sequence number.
struct TcpStream {
    src_ip: String,
    src_port: u16,
    dst_ip: String,
    dst_port: u16,
    segments: Vec<TcpSegment>,
    expected_seq: u32,
    window_size: u16,
    last_activity: u64,
    closed: bool,
    fin_seq: Option<u32>,
    undelivered: Vec<u8>,
}

pub struct TcpFlowController {
    connections: Vec<TcpStream>,
    max_connections: usize,
    segment_timeout: u64,
    connection_timeout: u64,
}

/// A held segment as values: sequence number, data, arrival time.
pub type SegView = (u32, Seq<u8>, u64);

pub struct StreamView {
    pub src_ip: Seq<char>,
    pub src_port: u16,
    pub dst_ip: Seq<char>,
    pub dst_port: u16,
    pub segments: Seq<SegView>,
    pub expected_seq: u32,
    pub window_size: u16,
    pub last_activity: u64,
    pub closed: bool,
    pub fin_seq: Option<u32>,
    pub undelivered: Seq<u8>,
}

spec fn seg_view(s: TcpSegment) -> SegView {
    (s.seq_num, s.data@, s.timestamp)
}

spec fn segs_view(v: Seq<TcpSegment>) -> Seq<SegView> {
    v.map_values(|s: TcpSegment| seg_view(s))
}

spec fn stream_view(s: TcpStream) -> StreamView {
    StreamView {
        src_ip: s.src_ip@,
        src_port: s.src_port,
        dst_ip: s.dst_ip@,
        dst_port: s.dst_port,
        segments: segs_view(s.segments@),
        expected_seq: s.expected_seq,
        window_size: s.window_size,
        last_activity: s.last_activity,
        closed: s.closed,
        fin_seq: s.fin_seq,
        undelivered: s.undelivered@,
    }
}

impl View for TcpFlowController {
    type V = Seq<StreamView>;

    closed spec fn view(&self) -> Seq<StreamView> {
        self.connections@.map_values(|s: TcpStream| stream_view(s))
    }
}

impl TcpFlowController {
    pub closed spec fn max_connections_spec(&self) -> usize {
        self.max_connections
    }

    pub closed spec fn segment_timeout_spec(&self) -> u64 {
        self.segment_timeout
    }

    pub closed spec fn connection_timeout_spec(&self) -> u64 {
        self.connection_timeout
    }
}

// ---------------------------------------------------------------- model

/// Sequence-number arithmetic: `a + n` modulo 2^32.
pub open spec fn seq_add(a: u32, n: int) -> u32 {
    ((a + n) % 0x1_0000_0000) as u32
}

pub open spec fn segs_sorted(s: Seq<SegView>) -> bool {
    forall|i: int, j: int| 0 <= i < j < s.len() ==> s[i].0 <= s[j].0
}

pub open spec fn segs_small(s: Seq<SegView>) -> bool {
    forall|i: int| 0 <= i < s.len() ==> (#[trigger] s[i]).1.len() <= u32::MAX
}

pub open spec fn stream_key_of(s: StreamView) -> (Seq<char>, u16, Seq<char>, u16) {
    (s.src_ip, s.src_port, s.dst_ip, s.dst_port)
}

/// One stream per key, each holding its segments sorted.
pub open spec fn streams_wf(s: Seq<StreamView>) -> bool {
    &&& forall|i: int, j: int|
        0 <= i < j < s.len() ==> stream_key_of(#[trigger] s[i]) != stream_key_of(#[trigger] s[j])
    &&& forall|i: int|
        0 <= i < s.len() ==> segs_sorted((#[trigger] s[i]).segments) && segs_small(s[i].segments)
}

/// Takes held segments off the front while they continue the stream:
/// one at `exp` is appended and moves `exp` on by its length, one before
/// `exp` is a duplicate and is dropped. Gives the bytes taken, the segments
/// left and the new expected sequence number.
pub open spec fn drain(segs: Seq<SegView>, exp: u32) -> (Seq<u8>, Seq<SegView>, u32)
    decreases segs.len(),
{
    if segs.len() == 0 {
        (Seq::empty(), segs, exp)
    } else if segs[0].0 == exp {
        let r = drain(segs.drop_first(), seq_add(exp, segs[0].1.len() as int));
        (segs[0].1 + r.0, r.1, r.2)
    } else if segs[0].0 < exp {
        drain(segs.drop_first(), exp)
    } else {
        (Seq::empty(), segs, exp)
    }
}

/// The segments that arrived no more than `timeout` before `now`.
pub open spec fn fresh_segs(s: Seq<SegView>, now: u64, timeout: u64) -> Seq<SegView>
    decreases s.len(),
{
    if s.len() == 0 {
        s
    } else if now <= s.last().2 + timeout {
        fresh_segs(s.drop_last(), now, timeout).push(s.last())
    } else {
        fresh_segs(s.drop_last(), now, timeout)
    }
}

/// The position before which every held segment has a sequence number at
/// most `seq`, from `i` on.
pub open spec fn seg_insert_pos(s: Seq<SegView>, seq: u32, i: int) -> int
    decreases s.len() - i,
{
    if i >= s.len() || i < 0 {
        s.len() as int
    } else if s[i].0 > seq {
        i
    } else {
        seg_insert_pos(s, seq, i + 1)
    }
}

/// The streams that survive the sweep at `now`: open ones, and closed ones
/// active within the connection timeout.
pub open spec fn live_streams(s: Seq<StreamView>, now: u64, timeout: u64) -> Seq<StreamView>
    decreases s.len(),
{
    if s.len() == 0 {
        s
    } else if !s.last().closed || now <= s.last().last_activity + timeout {
        live_streams(s.drop_last(), now, timeout).push(s.last())
    } else {
        live_streams(s.drop_last(), now, timeout)
    }
}

/// The index of the least recently active stream (the first of them), scanning
/// from `i` with `best` the best so far.
pub open spec fn oldest_from(s: Seq<StreamView>, i: int, best: int) -> int
    decreases s.len() - i,
{
    if i >= s.len() || i < 0 {
        best
    } else if s[i].last_activity < s[best].last_activity {
        oldest_from(s, i + 1, i)
    } else {
        oldest_from(s, i + 1, best)
    }
}

/// The index of the stream with key `k`, from `i` on, or -1.
pub open spec fn find_stream(s: Seq<StreamView>, k: (Seq<char>, u16, Seq<char>, u16), i: int) -> int
    decreases s.len() - i,
{
    if i >= s.len() || i < 0 {
        -1
    } else if stream_key_of(s[i]) == k {
        i
    } else {
        find_stream(s, k, i + 1)
    }
}

/// What one segment does to its stream, already marked active at `now`:
/// the new stream and the bytes that come out in order, if any.
pub open spec fn stream_step(
    st: StreamView,
    seq: u32,
    flags: TCPFlags,
    payload: Seq<u8>,
    now: u64,
    segment_timeout: u64,
) -> (StreamView, Option<Seq<u8>>) {
    let st1 = if flags.syn {
        StreamView { expected_seq: seq_add(seq, 1), ..st }
    } else {
        st
    };
    let st2 = if flags.fin {
        StreamView { fin_seq: Some(seq_add(seq, payload.len() as int)), closed: true, ..st1 }
    } else {
        st1
    };
    if flags.rst {
        (StreamView { closed: true, segments: Seq::empty(), undelivered: Seq::empty(), ..st2 }, None)
    } else if payload.len() == 0 {
        (st2, None)
    } else if seq == st2.expected_seq {
        let d = drain(st2.segments, seq_add(seq, payload.len() as int));
        (
            StreamView {
                expected_seq: d.2,
                segments: fresh_segs(d.1, now, segment_timeout),
                ..st2
            },
            Some(payload + d.0),
        )
    } else if seq > st2.expected_seq {
        let p = seg_insert_pos(st2.segments, seq, 0);
        (StreamView { segments: st2.segments.insert(p, (seq, payload, now)), ..st2 }, None)
    } else {
        (st2, None)
    }
}

/// A stream seen for the first time: the segment's sequence number is the
/// baseline.
pub open spec fn new_stream(
    k: (Seq<char>, u16, Seq<char>, u16),
    seq: u32,
    window: u16,
    now: u64,
) -> StreamView {
    StreamView {
        src_ip: k.0,
        src_port: k.1,
        dst_ip: k.2,
        dst_port: k.3,
        segments: Seq::empty(),
        expected_seq: seq,
        window_size: window,
        last_activity: now,
        closed: false,
        fin_seq: None,
        undelivered: Seq::empty(),
    }
}

/// Admitting a segment of stream `k` into the (already swept) streams `c`:
/// the stream is found, or created (evicting the least recently active stream
/// when the bound is reached), marked active, stepped, and becomes the last
/// stream. Gives the new streams and the bytes that come out in order.
pub open spec fn tcp_admit(
    c: Seq<StreamView>,
    k: (Seq<char>, u16, Seq<char>, u16),
    seq: u32,
    window: u16,
    flags: TCPFlags,
    payload: Seq<u8>,
    now: u64,
    max_connections: usize,
    segment_timeout: u64,
) -> (Seq<StreamView>, Option<Seq<u8>>) {
    let i = find_stream(c, k, 0);
    let base = if i >= 0 {
        c.remove(i)
    } else if c.len() >= max_connections && c.len() > 0 {
        c.remove(oldest_from(c, 1, 0))
    } else {
        c
    };
    let st0 = if i >= 0 {
        c[i]
    } else {
        new_stream(k, seq, window, now)
    };
    let st = StreamView { last_activity: now, window_size: window, ..st0 };
    let (st2, out) = stream_step(st, seq, flags, payload, now, segment_timeout);
    (base.push(st2), out)
}

/// What a stream keeps after its whole messages are taken from `buf`: the
/// bytes after them, unless they start with a header whose length field no
/// later bytes can make valid.
pub open spec fn leftover(buf: Seq<u8>) -> Seq<u8> {
    if stream_stuck(buf) {
        Seq::empty()
    } else {
        buf.subrange(stream_stop(buf, 0), buf.len() as int)
    }
}

pub open spec fn opt_bytes(r: Option<Vec<u8>>) -> Option<Seq<u8>> {
    match r {
        Some(v) => Some(v@),
        None => None,
    }
}

// ---------------------------------------------------------------- lemmas

pub proof fn lemma_seq_add_add(a: u32, b: int, c: int)
    requires
        b >= 0,
        c >= 0,
    ensures
        seq_add(seq_add(a, b), c) == seq_add(a, b + c),
{
    let m: int = 0x1_0000_0000;
    assert(((a + b) % m + c) % m == (a + b + c) % m) by {
        vstd::arithmetic::div_mod::lemma_add_mod_noop(a + b, c, m);
        vstd::arithmetic::div_mod::lemma_mod_twice(a + b, m);
        vstd::arithmetic::div_mod::lemma_add_mod_noop((a + b) % m, c, m);
        vstd::arithmetic::div_mod::lemma_small_mod(c as nat % m as nat, m as nat);
    }
}

/// Draining moves the expected sequence number on by exactly the number of
/// bytes it hands out.
pub proof fn lemma_drain_advances(segs: Seq<SegView>, exp: u32)
    ensures
        drain(segs, exp).2 == seq_add(exp, drain(segs, exp).0.len() as int),
    decreases segs.len(),
{
    if segs.len() == 0 {
        assert(seq_add(exp, 0) == exp);
    } else if segs[0].0 == exp {
        let e1 = seq_add(exp, segs[0].1.len() as int);
        lemma_drain_advances(segs.drop_first(), e1);
        let r = drain(segs.drop_first(), e1);
        lemma_seq_add_add(exp, segs[0].1.len() as int, r.0.len() as int);
    } else if segs[0].0 < exp {
        lemma_drain_advances(segs.drop_first(), exp);
    } else {
        assert(seq_add(exp, 0) == exp);
    }
}

proof fn lemma_seg_insert_pos(s: Seq<SegView>, seq: u32, i: int)
    requires
        0 <= i <= s.len(),
        segs_sorted(s),
        forall|j: int| 0 <= j < i ==> s[j].0 <= seq,
    ensures
        i <= seg_insert_pos(s, seq, i) <= s.len(),
        forall|j: int| 0 <= j < seg_insert_pos(s, seq, i) ==> s[j].0 <= seq,
        forall|j: int| seg_insert_pos(s, seq, i) <= j < s.len() ==> s[j].0 > seq,
    decreases s.len() - i,
{
    if i < s.len() && s[i].0 <= seq {
        lemma_seg_insert_pos(s, seq, i + 1);
    } else if i < s.len() {
        assert forall|j: int| i <= j < s.len() implies s[j].0 > seq by {
            if j > i {
                assert(s[i].0 <= s[j].0);
            }
        }
    }
}

proof fn lemma_find_stream(s: Seq<StreamView>, k: (Seq<char>, u16, Seq<char>, u16), i: int)
    requires
        0 <= i <= s.len(),
    ensures
        find_stream(s, k, i) == -1 ==> forall|j: int| i <= j < s.len() ==> stream_key_of(s[j]) != k,
        find_stream(s, k, i) != -1 ==> i <= find_stream(s, k, i) < s.len() && stream_key_of(
            s[find_stream(s, k, i)],
        ) == k,
    decreases s.len() - i,
{
    if i < s.len() && stream_key_of(s[i]) != k {
        lemma_find_stream(s, k, i + 1);
    }
}

proof fn lemma_oldest(s: Seq<StreamView>, i: int, best: int)
    requires
        0 <= best < s.len(),
        best < i,
    ensures
        0 <= oldest_from(s, i, best) < s.len(),
    decreases s.len() - i,
{
    if i < s.len() {
        if s[i].last_activity < s[best].last_activity {
            lemma_oldest(s, i + 1, i);
        } else {
            lemma_oldest(s, i + 1, best);
        }
    }
}

proof fn lemma_streams_remove(s: Seq<StreamView>, i: int)
    requires
        streams_wf(s),
        0 <= i < s.len(),
    ensures
        streams_wf(s.remove(i)),
        forall|j: int| 0 <= j < s.remove(i).len() ==> stream_key_of(#[trigger] s.remove(i)[j]) != stream_key_of(s[i]),
{
    let r = s.remove(i);
    assert forall|a: int, b: int| 0 <= a < b < r.len() implies stream_key_of(#[trigger] r[a])
        != stream_key_of(#[trigger] r[b]) by {
        let a2 = if a < i { a } else { a + 1 };
        let b2 = if b < i { b } else { b + 1 };
        assert(r[a] == s[a2] && r[b] == s[b2]);
    }
    assert forall|a: int| 0 <= a < r.len() implies segs_sorted((#[trigger] r[a]).segments) && segs_small(r[a].segments) by {
        let a2 = if a < i { a } else { a + 1 };
        assert(r[a] == s[a2]);
    }
    assert forall|j: int| 0 <= j < r.len() implies stream_key_of(#[trigger] r[j]) != stream_key_of(s[i]) by {
        let j2 = if j < i { j } else { j + 1 };
        assert(r[j] == s[j2]);
    }
}

proof fn lemma_live_subset(s: Seq<StreamView>, now: u64, t: u64, x: StreamView)
    requires
        live_streams(s, now, t).contains(x),
    ensures
        s.contains(x),
    decreases s.len(),
{
    if s.len() > 0 {
        let r = live_streams(s.drop_last(), now, t);
        if r.contains(x) {
            lemma_live_subset(s.drop_last(), now, t, x);
            let j = choose|j: int| 0 <= j < s.drop_last().len() && s.drop_last()[j] == x;
            assert(s[j] == x);
        } else {
            assert(s[s.len() - 1] == x);
        }
    }
}

proof fn lemma_live_wf(s: Seq<StreamView>, now: u64, t: u64)
    requires
        streams_wf(s),
    ensures
        streams_wf(live_streams(s, now, t)),
    decreases s.len(),
{
    if s.len() > 0 {
        let d = s.drop_last();
        assert(streams_wf(d)) by {
            assert forall|i: int, j: int| 0 <= i < j < d.len() implies stream_key_of(#[trigger] d[i])
                != stream_key_of(#[trigger] d[j]) by {
                assert(d[i] == s[i] && d[j] == s[j]);
            }
            assert forall|i: int| 0 <= i < d.len() implies segs_sorted((#[trigger] d[i]).segments) && segs_small(d[i].segments) by {
                assert(d[i] == s[i]);
            }
        }
        lemma_live_wf(d, now, t);
        let r = live_streams(d, now, t);
        if !s.last().closed || now <= s.last().last_activity + t {
            let u = r.push(s.last());
            assert forall|i: int, j: int| 0 <= i < j < u.len() implies stream_key_of(#[trigger] u[i])
                != stream_key_of(#[trigger] u[j]) by {
                if j == u.len() - 1 {
                    assert(r.contains(u[i]));
                    lemma_live_subset(d, now, t, u[i]);
                    let a = choose|a: int| 0 <= a < d.len() && d[a] == u[i];
                    assert(s[a] == u[i]);
                    assert(s[s.len() - 1] == u[j]);
                } else {
                    assert(u[i] == r[i] && u[j] == r[j]);
                }
            }
            assert forall|i: int| 0 <= i < u.len() implies segs_sorted((#[trigger] u[i]).segments) && segs_small(u[i].segments) by {
                if i < r.len() {
                    assert(u[i] == r[i]);
                } else {
                    assert(s[s.len() - 1] == u[i]);
                }
            }
        }
    }
}

proof fn lemma_fresh_segs_ok(s: Seq<SegView>, now: u64, t: u64)
    requires
        segs_sorted(s),
        segs_small(s),
    ensures
        segs_sorted(fresh_segs(s, now, t)),
        segs_small(fresh_segs(s, now, t)),
        forall|x: SegView| fresh_segs(s, now, t).contains(x) ==> s.contains(x),
    decreases s.len(),
{
    if s.len() > 0 {
        let d = s.drop_last();
        assert forall|i: int, j: int| 0 <= i < j < d.len() implies d[i].0 <= d[j].0 by {
            assert(d[i] == s[i] && d[j] == s[j]);
        }
        assert forall|i: int| 0 <= i < d.len() implies (#[trigger] d[i]).1.len() <= u32::MAX by {
            assert(d[i] == s[i]);
        }
        lemma_fresh_segs_ok(d, now, t);
        let r = fresh_segs(d, now, t);
        assert forall|x: SegView| r.contains(x) implies s.contains(x) by {
            assert(d.contains(x));
            let j = choose|j: int| 0 <= j < d.len() && d[j] == x;
            assert(s[j] == x);
        }
        if now <= s.last().2 + t {
            let u = r.push(s.last());
            assert forall|i: int, j: int| 0 <= i < j < u.len() implies u[i].0 <= u[j].0 by {
                if j == u.len() - 1 {
                    assert(r.contains(u[i]));
                    let a = choose|a: int| 0 <= a < s.len() && s[a] == u[i];
                    if a == s.len() - 1 {
                    } else {
                        assert(s[a].0 <= s[s.len() - 1].0);
                    }
                } else {
                    assert(u[i] == r[i] && u[j] == r[j]);
                }
            }
            assert forall|i: int| 0 <= i < u.len() implies (#[trigger] u[i]).1.len() <= u32::MAX by {
                if i < r.len() {
                    assert(u[i] == r[i]);
                    assert(r.contains(r[i]));
                } else {
                    assert(s[s.len() - 1] == u[i]);
                }
            }
            assert forall|x: SegView| u.contains(x) implies s.contains(x) by {
                if x == s.last() {
                    assert(s[s.len() - 1] == x);
                } else {
                    let j = choose|j: int| 0 <= j < u.len() && u[j] == x;
                    assert(r[j] == x);
                    assert(r.contains(x));
                }
            }
        }
    }
}

proof fn lemma_drain_ok(segs: Seq<SegView>, exp: u32)
    requires
        segs_sorted(segs),
        segs_small(segs),
    ensures
        segs_sorted(drain(segs, exp).1),
        segs_small(drain(segs, exp).1),
    decreases segs.len(),
{
    if segs.len() > 0 && segs[0].0 <= exp {
        let d = segs.drop_first();
        assert forall|i: int, j: int| 0 <= i < j < d.len() implies d[i].0 <= d[j].0 by {
            assert(d[i] == segs[i + 1] && d[j] == segs[j + 1]);
        }
        assert forall|i: int| 0 <= i < d.len() implies (#[trigger] d[i]).1.len() <= u32::MAX by {
            assert(d[i] == segs[i + 1]);
        }
        if segs[0].0 == exp {
            lemma_drain_ok(d, seq_add(exp, segs[0].1.len() as int));
        } else {
            lemma_drain_ok(d, exp);
        }
    }
}

// ---------------------------------------------------------------- exec

fn seq_plus(a: u32, n: usize) -> (r: u32)
    requires
        n <= u32::MAX,
    ensures
        r == seq_add(a, n as int),
{
    ((a as u64 + n as u64) % 0x1_0000_0000) as u32
}

/// Takes the held segments that continue the stream at `exp` and appends
/// their data to `out`; returns the new expected sequence number.
fn drain_segments(segments: &mut Vec<TcpSegment>, exp: u32, out: &mut Vec<u8>) -> (r: u32)
    requires
        segs_small(segs_view(old(segments)@)),
    ensures
        ({
            let d = drain(segs_view(old(segments)@), exp);
            &&& final(out)@ == old(out)@ + d.0
            &&& segs_view(final(segments)@) == d.1
            &&& r == d.2
        }),
{
    let ghost orig = drain(segs_view(segments@), exp);
    let ghost out0 = out@;
    let mut e = exp;
    while segments.len() > 0
        invariant
            segs_small(segs_view(segments@)),
            orig == ({
                let d = drain(segs_view(segments@), e);
                (out@.subrange(out0.len() as int, out@.len() as int) + d.0, d.1, d.2)
            }),
            out@.subrange(0, out0.len() as int) == out0,
            out@.len() >= out0.len(),
        ensures
            orig == ({
                let d = drain(segs_view(segments@), e);
                (out@.subrange(out0.len() as int, out@.len() as int) + d.0, d.1, d.2)
            }),
            out@.subrange(0, out0.len() as int) == out0,
            out@.len() >= out0.len(),
            drain(segs_view(segments@), e).0 == Seq::<u8>::empty(),
            drain(segs_view(segments@), e).1 == segs_view(segments@),
            drain(segs_view(segments@), e).2 == e,
        decreases segments@.len(),
    {
        let ghost before = segs_view(segments@);
        let ghost prev_out = out@;
        let front_seq = segments[0].seq_num;
        if front_seq == e {
            let s = segments.remove(0);
            assert(segs_view(segments@) =~= before.drop_first());
            assert(before[0] == seg_view(s));
            assert(s.data@.len() <= u32::MAX);
            append_bytes(out, s.data.as_slice());
            e = seq_plus(e, s.data.len());
            assert(out@.subrange(out0.len() as int, out@.len() as int) =~= prev_out.subrange(
                out0.len() as int,
                prev_out.len() as int,
            ) + s.data@);
            assert(out@.subrange(0, out0.len() as int) =~= prev_out.subrange(0, out0.len() as int));
        } else if front_seq < e {
            segments.remove(0);
            assert(segs_view(segments@) =~= before.drop_first());
        } else {
            break ;
        }
    }
    assert(out@ =~= out0 + out@.subrange(out0.len() as int, out@.len() as int));
    e
}

/// Drops the held segments that arrived more than `timeout` before `now`.
fn drop_stale_segments(segments: &mut Vec<TcpSegment>, now: u64, timeout: u64)
    ensures
        segs_view(final(segments)@) == fresh_segs(segs_view(old(segments)@), now, timeout),
{
    let ghost orig = segs_view(segments@);
    let ghost n = orig.len();
    let mut rest: Vec<TcpSegment> = Vec::new();
    std::mem::swap(segments, &mut rest);
    let ghost mut c: int = 0;
    assert(segs_view(rest@) =~= orig.subrange(0, n as int));
    assert(segs_view(segments@) =~= fresh_segs(orig.subrange(0, 0), now, timeout));
    while rest.len() > 0
        invariant
            0 <= c <= n,
            n == orig.len(),
            rest@.len() == n - c,
            segs_view(rest@) == orig.subrange(c, n as int),
            segs_view(segments@) == fresh_segs(orig.subrange(0, c), now, timeout),
        decreases rest@.len(),
    {
        let ghost before = rest@;
        let s = rest.remove(0);
        proof {
            assert(segs_view(before)[0] == orig.subrange(c, n as int)[0]);
            assert(orig.subrange(0, c + 1).drop_last() =~= orig.subrange(0, c));
            assert(orig.subrange(0, c + 1).last() == orig[c]);
        }
        if now <= s.timestamp || now - s.timestamp <= timeout {
            segments.push(s);
        }
        proof {
            assert(segs_view(segments@) =~= fresh_segs(orig.subrange(0, c + 1), now, timeout));
            assert forall|j: int| 0 <= j < rest@.len() implies #[trigger] seg_view(rest@[j]) == orig[c
                + 1 + j] by {
                assert(rest@[j] == before[j + 1]);
                assert(segs_view(before)[j + 1] == orig.subrange(c, n as int)[j + 1]);
            }
            assert(segs_view(rest@) =~= orig.subrange(c + 1, n as int));
            c = c + 1;
        }
    }
    assert(orig.subrange(0, n as int) =~= orig);
}

/// Holds a segment that arrived ahead of the stream, after any held segment
/// with the same or a lower sequence number.
fn hold_segment(segments: &mut Vec<TcpSegment>, seg: TcpSegment)
    requires
        segs_sorted(segs_view(old(segments)@)),
    ensures
        segs_view(final(segments)@) == segs_view(old(segments)@).insert(
            seg_insert_pos(segs_view(old(segments)@), seg.seq_num, 0),
            seg_view(seg),
        ),
        segs_sorted(segs_view(final(segments)@)),
{
    let ghost v = segs_view(segments@);
    let mut i: usize = 0;
    while i < segments.len() && segments[i].seq_num <= seg.seq_num
        invariant
            v == segs_view(segments@),
            segs_sorted(v),
            i <= v.len(),
            forall|j: int| 0 <= j < i ==> v[j].0 <= seg.seq_num,
            seg_insert_pos(v, seg.seq_num, 0) == seg_insert_pos(v, seg.seq_num, i as int),
        decreases v.len() - i,
    {
        i = i + 1;
    }
    proof {
        lemma_seg_insert_pos(v, seg.seq_num, i as int);
    }
    let ghost sv = seg_view(seg);
    segments.insert(i, seg);
    assert(segs_view(segments@) =~= v.insert(i as int, sv));
    proof {
        let w = segs_view(segments@);
        assert forall|a: int, b: int| 0 <= a < b < w.len() implies w[a].0 <= w[b].0 by {
            if a < i && b > i {
                assert(v[a].0 <= sv.0);
            }
        }
    }
}

impl TcpFlowController {
    /// A controller that keeps at most `max_connections` streams, drops held
    /// segments after `segment_timeout` and closed streams after
    /// `connection_timeout` of inactivity (both in microseconds).
    pub fn new(max_connections: usize, segment_timeout: u64, connection_timeout: u64) -> (r: Self)
        ensures
            r@ == Seq::<StreamView>::empty(),
            r.max_connections_spec() == max_connections,
            r.segment_timeout_spec() == segment_timeout,
            r.connection_timeout_spec() == connection_timeout,
    {
        let r = TcpFlowController {
            connections: Vec::new(),
            max_connections,
            segment_timeout,
            connection_timeout,
        };
        assert(r@ =~= Seq::<StreamView>::empty());
        r
    }

    pub fn get_connections_count(&self) -> (r: usize)
        ensures
            r == self@.len(),
    {
        self.connections.len()
    }

    /// Removes the closed streams that have been inactive for longer than the
    /// connection timeout.
    fn cleanup_expired_connections(&mut self, now: u64)
        requires
            streams_wf(old(self)@),
        ensures
            final(self)@ == live_streams(old(self)@, now, old(self).connection_timeout),
            streams_wf(final(self)@),
            final(self).max_connections == old(self).max_connections,
            final(self).segment_timeout == old(self).segment_timeout,
            final(self).connection_timeout == old(self).connection_timeout,
    {
        let ghost orig = self@;
        let ghost n = orig.len();
        let mut rest: Vec<TcpStream> = Vec::new();
        std::mem::swap(&mut self.connections, &mut rest);
        let t = self.connection_timeout;
        let ghost mut c: int = 0;
        assert(rest@.map_values(|s: TcpStream| stream_view(s)) =~= orig.subrange(0, n as int));
        assert(self@ =~= live_streams(orig.subrange(0, 0), now, t));
        while rest.len() > 0
            invariant
                0 <= c <= n,
                n == orig.len(),
                t == self.connection_timeout,
                self.max_connections == old(self).max_connections,
                self.segment_timeout == old(self).segment_timeout,
                self.connection_timeout == old(self).connection_timeout,
                rest@.len() == n - c,
                rest@.map_values(|s: TcpStream| stream_view(s)) == orig.subrange(c, n as int),
                self@ == live_streams(orig.subrange(0, c), now, t),
            decreases rest@.len(),
        {
            let ghost before = rest@;
            let s = rest.remove(0);
            proof {
                assert(before.map_values(|s: TcpStream| stream_view(s))[0] == orig.subrange(
                    c,
                    n as int,
                )[0]);
                assert(orig.subrange(0, c + 1).drop_last() =~= orig.subrange(0, c));
                assert(orig.subrange(0, c + 1).last() == orig[c]);
            }
            if !s.closed || now <= s.last_activity || now - s.last_activity <= t {
                self.connections.push(s);
            }
            proof {
                assert(self@ =~= live_streams(orig.subrange(0, c + 1), now, t));
                assert forall|j: int| 0 <= j < rest@.len() implies #[trigger] stream_view(rest@[j])
                    == orig[c + 1 + j] by {
                    assert(rest@[j] == before[j + 1]);
                    assert(before.map_values(|s: TcpStream| stream_view(s))[j + 1] == orig.subrange(
                        c,
                        n as int,
                    )[j + 1]);
                }
                assert(rest@.map_values(|s: TcpStream| stream_view(s)) =~= orig.subrange(
                    c + 1,
                    n as int,
                ));
                c = c + 1;
            }
        }
        assert(orig.subrange(0, n as int) =~= orig);
        proof {
            lemma_live_wf(orig, now, t);
        }
    }

    fn find(&self, src_ip: &String, src_port: u16, dst_ip: &String, dst_port: u16) -> (r: Option<
        usize,
    >)
        ensures
            r matches Some(i) ==> i == find_stream(
                self@,
                (src_ip@, src_port, dst_ip@, dst_port),
                0,
            ),
            r is None ==> find_stream(self@, (src_ip@, src_port, dst_ip@, dst_port), 0) == -1,
    {
        let ghost k = (src_ip@, src_port, dst_ip@, dst_port);
        let mut i: usize = 0;
        while i < self.connections.len()
            invariant
                i <= self@.len(),
                k == (src_ip@, src_port, dst_ip@, dst_port),
                find_stream(self@, k, 0) == find_stream(self@, k, i as int),
            decreases self@.len() - i,
        {
            let c = &self.connections[i];
            if c.src_port == src_port && c.dst_port == dst_port && c.src_ip.eq(src_ip) && c.dst_ip.eq(
                dst_ip,
            ) {
                assert(stream_key_of(self@[i as int]) == k);
                return Some(i);
            }
            i = i + 1;
        }
        None
    }

    fn oldest(&self) -> (r: usize)
        requires
            self@.len() > 0,
        ensures
            r == oldest_from(self@, 1, 0),
    {
        let mut best: usize = 0;
        let mut i: usize = 1;
        while i < self.connections.len()
            invariant
                1 <= i <= self@.len(),
                best < i,
                oldest_from(self@, 1, 0) == oldest_from(self@, i as int, best as int),
            decreases self@.len() - i,
        {
            if self.connections[i].last_activity < self.connections[best].last_activity {
                best = i;
            }
            i = i + 1;
        }
        best
    }
}

/// What one segment does to its stream (see `stream_step`).
fn step_stream(
    st: &mut TcpStream,
    seq: u32,
    flags: TCPFlags,
    payload: Vec<u8>,
    now: u64,
    segment_timeout: u64,
) -> (r: Option<Vec<u8>>)
    requires
        payload@.len() <= u32::MAX,
        segs_sorted(segs_view(old(st).segments@)),
        segs_small(segs_view(old(st).segments@)),
    ensures
        (stream_view(*final(st)), opt_bytes(r)) == stream_step(
            stream_view(*old(st)),
            seq,
            flags,
            payload@,
            now,
            segment_timeout,
        ),
        segs_sorted(segs_view(final(st).segments@)),
        segs_small(segs_view(final(st).segments@)),
        r matches Some(d) ==> d@.len() >= payload@.len() && d@.subrange(0, payload@.len() as int)
            == payload@ && final(st).expected_seq == seq_add(seq, d@.len() as int),
{
    if flags.syn {
        st.expected_seq = seq_plus(seq, 1);
    }
    if flags.fin {
        st.fin_seq = Some(seq_plus(seq, payload.len()));
        st.closed = true;
    }
    if flags.rst {
        st.closed = true;
        st.segments = Vec::new();
        st.undelivered = Vec::new();
        assert(segs_view(st.segments@) =~= Seq::<SegView>::empty());
        return None;
    }
    if payload.len() == 0 {
        return None;
    }
    if seq == st.expected_seq {
        let start = seq_plus(seq, payload.len());
        let mut out = payload;
        let ghost head = out@;
        proof {
            lemma_drain_ok(segs_view(st.segments@), start);
            lemma_drain_advances(segs_view(st.segments@), start);
            let d = drain(segs_view(st.segments@), start);
            lemma_seq_add_add(seq, head.len() as int, d.0.len() as int);
            assert((head + d.0).subrange(0, head.len() as int) =~= head);
        }
        let e = drain_segments(&mut st.segments, start, &mut out);
        st.expected_seq = e;
        proof {
            lemma_fresh_segs_ok(segs_view(st.segments@), now, segment_timeout);
        }
        drop_stale_segments(&mut st.segments, now, segment_timeout);
        Some(out)
    } else if seq > st.expected_seq {
        let ghost before = segs_view(st.segments@);
        hold_segment(&mut st.segments, TcpSegment { seq_num: seq, data: payload, timestamp: now });
        proof {
            let w = segs_view(st.segments@);
            let p = seg_insert_pos(before, seq, 0);
            lemma_seg_insert_pos(before, seq, 0);
            assert forall|i: int| 0 <= i < w.len() implies (#[trigger] w[i]).1.len() <= u32::MAX by {
                if i < p {
                    assert(w[i] == before[i]);
                } else if i > p {
                    assert(w[i] == before[i - 1]);
                }
            }
        }
        None
    } else {
        None
    }
}

impl TcpFlowController {
    /// Admits one TCP segment of the stream (src_ip, src_port) ->
    /// (dst_ip, dst_port) at time `now` and returns the bytes it makes
    /// available in order, if any. Closed streams that have been inactive too
    /// long are swept first. A segment larger than 4 GiB is refused.
    #[verifier::rlimit(50)]
    pub fn process_tcp_packet(
        &mut self,
        src_ip: &str,
        dst_ip: &str,
        tcp_packet: &TCPPacketInfo,
        payload: Vec<u8>,
        now: u64,
    ) -> (r: Result<Option<Vec<u8>>, SomeIPError>)
        requires
            streams_wf(old(self)@),
        ensures
            streams_wf(final(self)@),
            final(self).max_connections_spec() == old(self).max_connections_spec(),
            final(self).segment_timeout_spec() == old(self).segment_timeout_spec(),
            final(self).connection_timeout_spec() == old(self).connection_timeout_spec(),
            payload@.len() > u32::MAX ==> r == Err::<Option<Vec<u8>>, SomeIPError>(
                SomeIPError::TCPStreamError,
            ) && final(self)@ == old(self)@,
            payload@.len() <= u32::MAX ==> ({
                let (next, out) = tcp_admit(
                    live_streams(old(self)@, now, old(self).connection_timeout_spec()),
                    (src_ip@, tcp_packet.src_port, dst_ip@, tcp_packet.dst_port),
                    tcp_packet.seq_num,
                    tcp_packet.window_size,
                    tcp_packet.flags,
                    payload@,
                    now,
                    old(self).max_connections_spec(),
                    old(self).segment_timeout_spec(),
                );
                &&& final(self)@ == next
                &&& r matches Ok(x) && opt_bytes(x) == out
            }),
            r matches Ok(Some(d)) ==> d@.len() >= payload@.len() && d@.subrange(
                0,
                payload@.len() as int,
            ) == payload@ && final(self)@.last().expected_seq == seq_add(
                tcp_packet.seq_num,
                d@.len() as int,
            ),
    {
        if payload.len() > 0xFFFF_FFFF {
            return Err(SomeIPError::TCPStreamError);
        }
        self.cleanup_expired_connections(now);
        let ghost c = self@;
        let src = src_ip.to_owned();
        let dst = dst_ip.to_owned();
        let ghost k = (src_ip@, tcp_packet.src_port, dst_ip@, tcp_packet.dst_port);
        let found = self.find(&src, tcp_packet.src_port, &dst, tcp_packet.dst_port);
        proof {
            lemma_find_stream(c, k, 0);
        }
        let mut st = match found {
            Some(i) => {
                let st = self.connections.remove(i);
                proof {
                    assert(self@ =~= c.remove(i as int));
                    lemma_streams_remove(c, i as int);
                }
                st
            },
            None => {
                if self.connections.len() >= self.max_connections && self.connections.len() > 0 {
                    let o = self.oldest();
                    proof {
                        lemma_oldest(c, 1, 0);
                    }
                    self.connections.remove(o);
                    proof {
                        assert(self@ =~= c.remove(o as int));
                        lemma_streams_remove(c, o as int);
                    }
                }
                let st = TcpStream {
                    src_ip: src,
                    src_port: tcp_packet.src_port,
                    dst_ip: dst,
                    dst_port: tcp_packet.dst_port,
                    segments: Vec::new(),
                    expected_seq: tcp_packet.seq_num,
                    window_size: tcp_packet.window_size,
                    last_activity: now,
                    closed: false,
                    fin_seq: None,
                    undelivered: Vec::new(),
                };
                assert(stream_view(st) == new_stream(k, tcp_packet.seq_num, tcp_packet.window_size, now)) by {
                    assert(segs_view(st.segments@) =~= Seq::<SegView>::empty());
                }
                st
            },
        };
        let ghost base = self@;
        proof {
            assert forall|j: int| 0 <= j < base.len() implies stream_key_of(#[trigger] base[j]) != k by {
                if found is None && c.len() >= self.max_connections && c.len() > 0 {
                    let o = oldest_from(c, 1, 0);
                    let j2 = if j < o { j } else { j + 1 };
                    assert(base[j] == c[j2]);
                }
            }
        }
        st.last_activity = now;
        st.window_size = tcp_packet.window_size;
        let out = step_stream(
            &mut st,
            tcp_packet.seq_num,
            tcp_packet.flags,
            payload,
            now,
            self.segment_timeout,
        );
        let ghost sv = stream_view(st);
        self.connections.push(st);
        proof {
            assert(self@ =~= base.push(sv));
            let s3 = self@;
            assert forall|a: int, b: int| 0 <= a < b < s3.len() implies stream_key_of(#[trigger] s3[a])
                != stream_key_of(#[trigger] s3[b]) by {
                if b == s3.len() - 1 {
                    assert(s3[a] == base[a]);
                } else {
                    assert(s3[a] == base[a] && s3[b] == base[b]);
                }
            }
            assert forall|a: int| 0 <= a < s3.len() implies segs_sorted((#[trigger] s3[a]).segments)
                && segs_small(s3[a].segments) by {
                if a < base.len() {
                    assert(s3[a] == base[a]);
                }
            }
            assert(s3.last() == sv);
        }
        Ok(out)
    }
}

impl TcpFlowController {
    /// Takes the whole SomeIP messages that a stream's in-order bytes now
    /// hold: the bytes it kept from before, then `data`. The bytes after
    /// the last whole message are kept for the next delivery. A stream that
    /// is not followed frames `data` alone.
    pub fn take_messages(
        &mut self,
        src_ip: &str,
        src_port: u16,
        dst_ip: &str,
        dst_port: u16,
        data: Vec<u8>,
    ) -> (r: Vec<MSIMessage>)
        requires
            streams_wf(old(self)@),
        ensures
            streams_wf(final(self)@),
            final(self).max_connections_spec() == old(self).max_connections_spec(),
            final(self).segment_timeout_spec() == old(self).segment_timeout_spec(),
            final(self).connection_timeout_spec() == old(self).connection_timeout_spec(),
            ({
                let i = find_stream(old(self)@, (src_ip@, src_port, dst_ip@, dst_port), 0);
                let buf = if i >= 0 {
                    old(self)@[i].undelivered + data@
                } else {
                    data@
                };
                &&& frames_match(buf, stream_frames(buf, 0), r@)
                &&& i >= 0 ==> final(self)@ == old(self)@.update(
                    i,
                    StreamView { undelivered: leftover(buf), ..old(self)@[i] },
                )
                &&& i < 0 ==> final(self)@ == old(self)@
            }),
            forall|j: int|
                0 <= j < r@.len() ==> (#[trigger] r@[j]).payload@.len() == r@[j].header.length - 8,
    {
        let ghost c = self@;
        let src = src_ip.to_owned();
        let dst = dst_ip.to_owned();
        proof {
            lemma_find_stream(c, (src_ip@, src_port, dst_ip@, dst_port), 0);
        }
        match self.find(&src, src_port, &dst, dst_port) {
            None => split_stream_prefix(data.as_slice()).0,
            Some(i) => {
                let mut st = self.connections.remove(i);
                let mut buf = Vec::new();
                std::mem::swap(&mut buf, &mut st.undelivered);
                append_bytes(&mut buf, data.as_slice());
                let (messages, stop) = split_stream_prefix(buf.as_slice());
                let stuck = buf.len() - stop >= 16 && {
                    let len = crate::wire::read_u32(buf.as_slice(), stop + 4);
                    len < 8
                };
                st.undelivered = if stuck {
                    Vec::new()
                } else {
                    copy_range(buf.as_slice(), stop, buf.len())
                };
                assert(st.undelivered@ =~= leftover(buf@));
                self.connections.insert(i, st);
                proof {
                    assert(self@ =~= c.update(i as int, StreamView { undelivered: leftover(buf@), ..c[i as int] }));
                    let s3 = self@;
                    assert forall|a: int, b: int| 0 <= a < b < s3.len() implies stream_key_of(
                        #[trigger] s3[a],
                    ) != stream_key_of(#[trigger] s3[b]) by {
                        assert(stream_key_of(s3[a]) == stream_key_of(c[a]));
                        assert(stream_key_of(s3[b]) == stream_key_of(c[b]));
                    }
                    assert forall|a: int| 0 <= a < s3.len() implies segs_sorted(
                        (#[trigger] s3[a]).segments,
                    ) && segs_small(s3[a].segments) by {
                        assert(s3[a].segments == c[a].segments);
                    }
                }
                messages
            },
        }
    }
}

} // verus!
