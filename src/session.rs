//! Request/response pairing with a deadline per request and a bound on the
//! number of open requests.
use vstd::prelude::*;
use crate::error::SomeIPError;
use crate::header::{tp_flagged, MessageType, SomeIPHeader};
use crate::wire::copy_range;

verus! {

/// A SomeIP message with where and when it was seen. `timestamp` is the
/// capture time in microseconds since the Unix epoch.
#[derive(Debug)]
pub struct SomeIPMessage {
    pub timestamp: u64,
    pub header: SomeIPHeader,
    pub payload: Vec<u8>,
    pub src_ip: String,
    pub dst_ip: String,
    pub src_port: u16,
    pub dst_port: u16,
}

/// A request, its response once there is one, and the time (in
/// microseconds) at which the request expires.
#[derive(Debug)]
pub struct RequestResponsePair {
    pub request: SomeIPMessage,
    pub response: Option<SomeIPMessage>,
    pub timeout: u64,
}

pub struct SessionManager {
    sessions: Vec<RequestResponsePair>,
    timeout: u64,
    max_pairs: usize,
}

pub struct MessageView {
    pub timestamp: u64,
    pub header: SomeIPHeader,
    pub payload: Seq<u8>,
    pub src_ip: Seq<char>,
    pub dst_ip: Seq<char>,
    pub src_port: u16,
    pub dst_port: u16,
}

pub struct PairView {
    pub request: MessageView,
    pub response: Option<MessageView>,
    pub timeout: u64,
}

impl View for SomeIPMessage {
    type V = MessageView;

    open spec fn view(&self) -> MessageView {
        MessageView {
            timestamp: self.timestamp,
            header: self.header,
            payload: self.payload@,
            src_ip: self.src_ip@,
            dst_ip: self.dst_ip@,
            src_port: self.src_port,
            dst_port: self.dst_port,
        }
    }
}

pub open spec fn opt_message_view(m: Option<SomeIPMessage>) -> Option<MessageView> {
    match m {
        Some(x) => Some(x@),
        None => None,
    }
}

impl View for RequestResponsePair {
    type V = PairView;

    open spec fn view(&self) -> PairView {
        PairView {
            request: self.request@,
            response: opt_message_view(self.response),
            timeout: self.timeout,
        }
    }
}

impl View for SessionManager {
    type V = Seq<PairView>;

    /// The open requests, oldest first.
    closed spec fn view(&self) -> Seq<PairView> {
        self.sessions@.map_values(|p: RequestResponsePair| p@)
    }
}

impl SessionManager {
    pub closed spec fn timeout_spec(&self) -> u64 {
        self.timeout
    }

    pub closed spec fn max_pairs_spec(&self) -> usize {
        self.max_pairs
    }
}

// ---------------------------------------------------------------- model

pub open spec fn pair_key(p: PairView) -> (u16, u16, u16) {
    p.request.header.key()
}

/// One open request per key, none answered yet.
pub open spec fn sessions_wf(s: Seq<PairView>) -> bool {
    &&& forall|i: int, j: int|
        0 <= i < j < s.len() ==> pair_key(#[trigger] s[i]) != pair_key(#[trigger] s[j])
    &&& forall|i: int| 0 <= i < s.len() ==> (#[trigger] s[i]).response is None
}

/// The index of the open request for `k`, from `i` on, or -1.
pub open spec fn find_session(s: Seq<PairView>, k: (u16, u16, u16), i: int) -> int
    decreases s.len() - i,
{
    if i >= s.len() || i < 0 {
        -1
    } else if pair_key(s[i]) == k {
        i
    } else {
        find_session(s, k, i + 1)
    }
}

/// `s` without the open request for `k`.
pub open spec fn without_key(s: Seq<PairView>, k: (u16, u16, u16)) -> Seq<PairView> {
    let i = find_session(s, k, 0);
    if i >= 0 {
        s.remove(i)
    } else {
        s
    }
}

/// The deadline of a request seen at `t`: `t + timeout`, or the largest time
/// where that does not fit.
pub open spec fn deadline(t: u64, timeout: u64) -> u64 {
    if t + timeout > u64::MAX {
        u64::MAX
    } else {
        (t + timeout) as u64
    }
}

/// The open requests after a request `m` arrives: the oldest one is evicted
/// when the bound is reached, then `m` replaces any open request under its
/// key and becomes the newest.
pub open spec fn after_request(s: Seq<PairView>, m: MessageView, timeout: u64, max_pairs: usize) -> Seq<
    PairView,
> {
    let evicted = if s.len() >= max_pairs && s.len() > 0 {
        s.remove(0)
    } else {
        s
    };
    without_key(evicted, m.header.key()).push(
        PairView { request: m, response: None, timeout: deadline(m.timestamp, timeout) },
    )
}

pub open spec fn is_response_type(t: MessageType) -> bool {
    t == MessageType::Response || t == MessageType::Error
}

/// The requests of `s` that have expired by `now`, in order.
pub open spec fn expired_at(s: Seq<PairView>, now: u64) -> Seq<PairView>
    decreases s.len(),
{
    if s.len() == 0 {
        s
    } else if s.last().timeout <= now && s.last().response is None {
        expired_at(s.drop_last(), now).push(s.last())
    } else {
        expired_at(s.drop_last(), now)
    }
}

/// The requests of `s` that are still open at `now`, in order.
pub open spec fn live_at(s: Seq<PairView>, now: u64) -> Seq<PairView>
    decreases s.len(),
{
    if s.len() == 0 {
        s
    } else if s.last().timeout <= now && s.last().response is None {
        live_at(s.drop_last(), now)
    } else {
        live_at(s.drop_last(), now).push(s.last())
    }
}

proof fn lemma_find_session(s: Seq<PairView>, k: (u16, u16, u16), i: int)
    requires
        0 <= i <= s.len(),
    ensures
        find_session(s, k, i) == -1 ==> forall|j: int| i <= j < s.len() ==> pair_key(s[j]) != k,
        find_session(s, k, i) != -1 ==> i <= find_session(s, k, i) < s.len() && pair_key(
            s[find_session(s, k, i)],
        ) == k,
    decreases s.len() - i,
{
    if i < s.len() && pair_key(s[i]) != k {
        lemma_find_session(s, k, i + 1);
    }
}

proof fn lemma_remove_wf(s: Seq<PairView>, i: int)
    requires
        sessions_wf(s),
        0 <= i < s.len(),
    ensures
        sessions_wf(s.remove(i)),
        forall|j: int| 0 <= j < s.remove(i).len() ==> s.contains(#[trigger] s.remove(i)[j]),
{
    let r = s.remove(i);
    assert forall|a: int, b: int| 0 <= a < b < r.len() implies pair_key(#[trigger] r[a]) != pair_key(
        #[trigger] r[b],
    ) by {
        let a2 = if a < i { a } else { a + 1 };
        let b2 = if b < i { b } else { b + 1 };
        assert(r[a] == s[a2] && r[b] == s[b2]);
    }
    assert forall|a: int| 0 <= a < r.len() implies (#[trigger] r[a]).response is None by {
        let a2 = if a < i { a } else { a + 1 };
        assert(r[a] == s[a2]);
    }
    assert forall|j: int| 0 <= j < r.len() implies s.contains(#[trigger] r[j]) by {
        let j2 = if j < i { j } else { j + 1 };
        assert(r[j] == s[j2]);
    }
}

/// A message whose payload is `length - 8` bytes long, or whose type byte
/// carries the SomeIP-TP flag (the size of a reassembled message is set by
/// its fragments). The exact payload of each path is stated by
/// `udp_effect` and `tcp_effect`.
pub open spec fn payload_fits(m: MessageView) -> bool {
    tp_flagged(m.header) || m.payload.len() + 8 == m.header.length
}

/// Every open request satisfies `payload_fits`.
pub open spec fn requests_fit(s: Seq<PairView>) -> bool {
    forall|i: int| 0 <= i < s.len() ==> payload_fits((#[trigger] s[i]).request)
}

proof fn lemma_remove_fits(s: Seq<PairView>, i: int)
    requires
        requests_fit(s),
        0 <= i < s.len(),
    ensures
        requests_fit(s.remove(i)),
{
    let r = s.remove(i);
    assert forall|j: int| 0 <= j < r.len() implies payload_fits((#[trigger] r[j]).request) by {
        if j < i {
            assert(r[j] == s[j]);
        } else {
            assert(r[j] == s[j + 1]);
        }
    }
}

/// Opening a request that satisfies `payload_fits` keeps every open request
/// satisfying it.
pub proof fn lemma_after_request_fits(s: Seq<PairView>, m: MessageView, timeout: u64, max_pairs: usize)
    requires
        requests_fit(s),
        payload_fits(m),
    ensures
        requests_fit(after_request(s, m, timeout, max_pairs)),
{
    let evicted = if s.len() >= max_pairs && s.len() > 0 {
        lemma_remove_fits(s, 0);
        s.remove(0)
    } else {
        s
    };
    let i = find_session(evicted, m.header.key(), 0);
    lemma_find_session(evicted, m.header.key(), 0);
    if i >= 0 {
        lemma_remove_fits(evicted, i);
    }
    let w = without_key(evicted, m.header.key());
    let r = after_request(s, m, timeout, max_pairs);
    assert forall|j: int| 0 <= j < r.len() implies payload_fits((#[trigger] r[j]).request) by {
        if j < w.len() {
            assert(r[j] == w[j]);
        }
    }
}

/// Closing the request for a key keeps the rest satisfying `payload_fits`.
pub proof fn lemma_close_fits(s: Seq<PairView>, k: (u16, u16, u16))
    requires
        requests_fit(s),
    ensures
        ({
            let i = find_session(s, k, 0);
            i >= 0 ==> 0 <= i < s.len() && requests_fit(s.remove(i)) && payload_fits(s[i].request)
        }),
{
    lemma_find_session(s, k, 0);
    let i = find_session(s, k, 0);
    if i >= 0 {
        lemma_remove_fits(s, i);
    }
}

proof fn lemma_expired_subset(s: Seq<PairView>, now: u64, x: PairView)
    requires
        expired_at(s, now).contains(x),
    ensures
        s.contains(x),
    decreases s.len(),
{
    if s.len() > 0 {
        let r = expired_at(s.drop_last(), now);
        if r.contains(x) {
            lemma_expired_subset(s.drop_last(), now, x);
            let j = choose|j: int| 0 <= j < s.drop_last().len() && s.drop_last()[j] == x;
            assert(s[j] == x);
        } else {
            assert(s[s.len() - 1] == x);
        }
    }
}

/// The requests that expire, and those left open, still satisfy
/// `payload_fits`.
pub proof fn lemma_sweep_fits(s: Seq<PairView>, now: u64)
    requires
        requests_fit(s),
    ensures
        requests_fit(expired_at(s, now)),
        requests_fit(live_at(s, now)),
{
    let e = expired_at(s, now);
    assert forall|i: int| 0 <= i < e.len() implies payload_fits((#[trigger] e[i]).request) by {
        assert(e.contains(e[i]));
        lemma_expired_subset(s, now, e[i]);
        let j = choose|j: int| 0 <= j < s.len() && s[j] == e[i];
    }
    let l = live_at(s, now);
    assert forall|i: int| 0 <= i < l.len() implies payload_fits((#[trigger] l[i]).request) by {
        assert(l.contains(l[i]));
        lemma_live_subset(s, now, l[i]);
        let j = choose|j: int| 0 <= j < s.len() && s[j] == l[i];
    }
}

// ---------------------------------------------------------------- exec

/// A copy of a message.
pub fn copy_message(m: &SomeIPMessage) -> (r: SomeIPMessage)
    ensures
        r@ == m@,
{
    let payload = copy_range(m.payload.as_slice(), 0, m.payload.len());
    assert(payload@ =~= m.payload@);
    SomeIPMessage {
        timestamp: m.timestamp,
        header: m.header,
        payload,
        src_ip: m.src_ip.clone(),
        dst_ip: m.dst_ip.clone(),
        src_port: m.src_port,
        dst_port: m.dst_port,
    }
}

impl SessionManager {
    /// A manager whose requests expire `timeout` microseconds after they are
    /// seen and that keeps at most `max_pairs` of them open.
    pub fn new(timeout: u64, max_pairs: usize) -> (r: Self)
        ensures
            r@ == Seq::<PairView>::empty(),
            r.timeout_spec() == timeout,
            r.max_pairs_spec() == max_pairs,
    {
        let r = SessionManager { sessions: Vec::new(), timeout, max_pairs };
        assert(r@ =~= Seq::<PairView>::empty());
        r
    }

    pub fn len(&self) -> (r: usize)
        ensures
            r == self@.len(),
    {
        self.sessions.len()
    }

    fn find(&self, key: (u16, u16, u16)) -> (r: Option<usize>)
        ensures
            r matches Some(i) ==> i == find_session(self@, key, 0),
            r is None ==> find_session(self@, key, 0) == -1,
    {
        let mut i: usize = 0;
        while i < self.sessions.len()
            invariant
                i <= self@.len(),
                find_session(self@, key, 0) == find_session(self@, key, i as int),
            decreases self@.len() - i,
        {
            let h = &self.sessions[i].request.header;
            if h.service_id == key.0 && h.client_id == key.1 && h.session_id == key.2 {
                assert(pair_key(self@[i as int]) == key);
                return Some(i);
            }
            i = i + 1;
        }
        None
    }

    /// Opens a request. When as many requests are open as the bound allows,
    /// the oldest is evicted first; a request under a key that is already
    /// open replaces the earlier one. The new request is the newest open one.
    pub fn add_request(&mut self, message: SomeIPMessage) -> (r: Result<(), SomeIPError>)
        requires
            sessions_wf(old(self)@),
        ensures
            r is Ok,
            sessions_wf(final(self)@),
            final(self)@ == after_request(
                old(self)@,
                message@,
                old(self).timeout_spec(),
                old(self).max_pairs_spec(),
            ),
            final(self).timeout_spec() == old(self).timeout_spec(),
            final(self).max_pairs_spec() == old(self).max_pairs_spec(),
            final(self)@.last().request == message@,
            old(self)@.len() <= old(self).max_pairs_spec() && old(self).max_pairs_spec() > 0
                ==> final(self)@.len() <= old(self).max_pairs_spec(),
    {
        let ghost s0 = self@;
        if self.sessions.len() >= self.max_pairs && self.sessions.len() > 0 {
            self.sessions.remove(0);
            proof {
                assert(self@ =~= s0.remove(0));
                lemma_remove_wf(s0, 0);
            }
        }
        let ghost s1 = self@;
        let key = (message.header.service_id, message.header.client_id, message.header.session_id);
        proof {
            lemma_find_session(s1, key, 0);
        }
        if let Some(i) = self.find(key) {
            self.sessions.remove(i);
            proof {
                assert(self@ =~= s1.remove(i as int));
                lemma_remove_wf(s1, i as int);
            }
        }
        let ghost s2 = self@;
        let t = message.timestamp;
        let deadline = if t > u64::MAX - self.timeout {
            u64::MAX
        } else {
            t + self.timeout
        };
        let ghost mv = message@;
        self.sessions.push(RequestResponsePair { request: message, response: None, timeout: deadline });
        proof {
            assert(self@ =~= s2.push(PairView { request: mv, response: None, timeout: deadline }));
            assert forall|j: int| 0 <= j < s2.len() implies pair_key(#[trigger] s2[j]) != key by {
                if find_session(s1, key, 0) >= 0 {
                    let i = find_session(s1, key, 0);
                    let j2 = if j < i { j } else { j + 1 };
                    assert(s2[j] == s1[j2]);
                    if j2 != i {
                        assert(pair_key(s1[j2]) != pair_key(s1[i]));
                    }
                }
            }
            let s3 = self@;
            assert forall|a: int, b: int| 0 <= a < b < s3.len() implies pair_key(#[trigger] s3[a])
                != pair_key(#[trigger] s3[b]) by {
                if b == s3.len() - 1 {
                    assert(s3[a] == s2[a]);
                } else {
                    assert(s3[a] == s2[a] && s3[b] == s2[b]);
                }
            }
            assert forall|a: int| 0 <= a < s3.len() implies (#[trigger] s3[a]).response is None by {
                if a < s2.len() {
                    assert(s3[a] == s2[a]);
                }
            }
        }
        Ok(())
    }

    /// Closes the open request that a response answers. With no open request
    /// under the response's key nothing happens; a message that is neither a
    /// response nor an error is refused.
    pub fn add_response(&mut self, message: SomeIPMessage) -> (r: Result<
        Option<RequestResponsePair>,
        SomeIPError,
    >)
        requires
            sessions_wf(old(self)@),
        ensures
            sessions_wf(final(self)@),
            final(self).timeout_spec() == old(self).timeout_spec(),
            final(self).max_pairs_spec() == old(self).max_pairs_spec(),
            ({
                let i = find_session(old(self)@, message.header.key(), 0);
                if i < 0 {
                    r == Ok::<Option<RequestResponsePair>, SomeIPError>(None) && final(self)@ == old(
                        self,
                    )@
                } else if !is_response_type(message.header.message_type) {
                    r == Err::<Option<RequestResponsePair>, SomeIPError>(
                        SomeIPError::InvalidPacketFormat,
                    ) && final(self)@ == old(self)@
                } else {
                    &&& final(self)@ == old(self)@.remove(i)
                    &&& r matches Ok(Some(p)) && p@ == PairView {
                        request: old(self)@[i].request,
                        response: Some(message@),
                        timeout: old(self)@[i].timeout,
                    }
                }
            }),
            r matches Ok(Some(p)) ==> p.response matches Some(resp) && p.request.header.key()
                == resp.header.key(),
    {
        let key = (message.header.service_id, message.header.client_id, message.header.session_id);
        let ghost s0 = self@;
        proof {
            lemma_find_session(s0, key, 0);
        }
        match self.find(key) {
            None => Ok(None),
            Some(i) => {
                match message.header.message_type {
                    MessageType::Response | MessageType::Error => {
                        let mut pair = self.sessions.remove(i);
                        proof {
                            assert(self@ =~= s0.remove(i as int));
                            lemma_remove_wf(s0, i as int);
                        }
                        pair.response = Some(message);
                        Ok(Some(pair))
                    },
                    _ => Err(SomeIPError::InvalidPacketFormat),
                }
            },
        }
    }

    /// Copies of the requests still open at `now`, oldest first.
    pub fn get_pending_requests(&self, now: u64) -> (r: Vec<RequestResponsePair>)
        requires
            sessions_wf(self@),
        ensures
            r@.map_values(|p: RequestResponsePair| p@) == live_at(self@, now),
    {
        let mut out: Vec<RequestResponsePair> = Vec::new();
        let mut i: usize = 0;
        while i < self.sessions.len()
            invariant
                i <= self@.len(),
                sessions_wf(self@),
                out@.map_values(|p: RequestResponsePair| p@) == live_at(
                    self@.subrange(0, i as int),
                    now,
                ),
            decreases self@.len() - i,
        {
            let p = &self.sessions[i];
            proof {
                assert(self@.subrange(0, i + 1).drop_last() =~= self@.subrange(0, i as int));
                assert(self@.subrange(0, i + 1).last() == p@);
            }
            if !(p.timeout <= now && p.response.is_none()) {
                let q = RequestResponsePair {
                    request: copy_message(&p.request),
                    response: None,
                    timeout: p.timeout,
                };
                assert(self@[i as int] == p@);
                assert(self@[i as int].response is None);
                out.push(q);
            }
            assert(out@.map_values(|p: RequestResponsePair| p@) =~= live_at(
                self@.subrange(0, i + 1),
                now,
            ));
            i = i + 1;
        }
        assert(self@.subrange(0, self@.len() as int) =~= self@);
        out
    }

    /// Removes and returns the requests that have expired by `now` without a
    /// response, oldest first.
    pub fn cleanup_expired_sessions(&mut self, now: u64) -> (r: Vec<RequestResponsePair>)
        requires
            sessions_wf(old(self)@),
        ensures
            sessions_wf(final(self)@),
            r@.map_values(|p: RequestResponsePair| p@) == expired_at(old(self)@, now),
            final(self)@ == live_at(old(self)@, now),
            final(self).timeout_spec() == old(self).timeout_spec(),
            final(self).max_pairs_spec() == old(self).max_pairs_spec(),
    {
        let ghost orig = self@;
        let ghost n = orig.len();
        let mut rest: Vec<RequestResponsePair> = Vec::new();
        std::mem::swap(&mut self.sessions, &mut rest);
        let mut kept: Vec<RequestResponsePair> = Vec::new();
        let mut expired: Vec<RequestResponsePair> = Vec::new();
        let ghost mut c: int = 0;
        assert(rest@.map_values(|p: RequestResponsePair| p@) =~= orig.subrange(0, n as int));
        while rest.len() > 0
            invariant
                0 <= c <= n,
                n == orig.len(),
                rest@.len() == n - c,
                rest@.map_values(|p: RequestResponsePair| p@) == orig.subrange(c, n as int),
                kept@.map_values(|p: RequestResponsePair| p@) == live_at(orig.subrange(0, c), now),
                expired@.map_values(|p: RequestResponsePair| p@) == expired_at(
                    orig.subrange(0, c),
                    now,
                ),
            decreases rest@.len(),
        {
            let ghost before = rest@;
            let p = rest.remove(0);
            proof {
                assert(before.map_values(|p: RequestResponsePair| p@)[0] == orig.subrange(
                    c,
                    n as int,
                )[0]);
                assert(orig.subrange(0, c + 1).drop_last() =~= orig.subrange(0, c));
                assert(orig.subrange(0, c + 1).last() == orig[c]);
            }
            if p.timeout <= now && p.response.is_none() {
                expired.push(p);
            } else {
                kept.push(p);
            }
            proof {
                assert(kept@.map_values(|p: RequestResponsePair| p@) =~= live_at(
                    orig.subrange(0, c + 1),
                    now,
                ));
                assert(expired@.map_values(|p: RequestResponsePair| p@) =~= expired_at(
                    orig.subrange(0, c + 1),
                    now,
                ));
                assert forall|j: int| 0 <= j < rest@.len() implies #[trigger] rest@[j]@ == orig[c
                    + 1 + j] by {
                    assert(rest@[j] == before[j + 1]);
                    assert(before.map_values(|p: RequestResponsePair| p@)[j + 1] == orig.subrange(
                        c,
                        n as int,
                    )[j + 1]);
                }
                assert(rest@.map_values(|p: RequestResponsePair| p@) =~= orig.subrange(
                    c + 1,
                    n as int,
                ));
                c = c + 1;
            }
        }
        assert(orig.subrange(0, n as int) =~= orig);
        self.sessions = kept;
        proof {
            lemma_live_wf(orig, now);
        }
        expired
    }
}

proof fn lemma_live_subset(s: Seq<PairView>, now: u64, x: PairView)
    requires
        live_at(s, now).contains(x),
    ensures
        s.contains(x),
    decreases s.len(),
{
    if s.len() > 0 {
        let r = live_at(s.drop_last(), now);
        if r.contains(x) {
            lemma_live_subset(s.drop_last(), now, x);
            let j = choose|j: int| 0 <= j < s.drop_last().len() && s.drop_last()[j] == x;
            assert(s[j] == x);
        } else {
            assert(s[s.len() - 1] == x);
        }
    }
}

proof fn lemma_live_wf(s: Seq<PairView>, now: u64)
    requires
        sessions_wf(s),
    ensures
        sessions_wf(live_at(s, now)),
    decreases s.len(),
{
    if s.len() > 0 {
        let d = s.drop_last();
        assert(sessions_wf(d)) by {
            assert forall|i: int, j: int| 0 <= i < j < d.len() implies pair_key(#[trigger] d[i])
                != pair_key(#[trigger] d[j]) by {
                assert(d[i] == s[i] && d[j] == s[j]);
            }
            assert forall|i: int| 0 <= i < d.len() implies (#[trigger] d[i]).response is None by {
                assert(d[i] == s[i]);
            }
        }
        lemma_live_wf(d, now);
        let r = live_at(d, now);
        if !(s.last().timeout <= now && s.last().response is None) {
            let t = r.push(s.last());
            assert forall|i: int, j: int| 0 <= i < j < t.len() implies pair_key(#[trigger] t[i])
                != pair_key(#[trigger] t[j]) by {
                if j == t.len() - 1 {
                    assert(r.contains(t[i]));
                    lemma_live_subset(d, now, t[i]);
                    let a = choose|a: int| 0 <= a < d.len() && d[a] == t[i];
                    assert(s[a] == t[i]);
                    assert(s[s.len() - 1] == t[j]);
                } else {
                    assert(t[i] == r[i] && t[j] == r[j]);
                }
            }
            assert forall|i: int| 0 <= i < t.len() implies (#[trigger] t[i]).response is None by {
                if i < r.len() {
                    assert(t[i] == r[i]);
                } else {
                    assert(s[s.len() - 1] == t[i]);
                }
            }
        }
    }
}

} // verus!
