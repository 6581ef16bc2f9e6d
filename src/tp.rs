//! SomeIP-TP: decoding fragments and reassembling them per
//! (service, client, session).
use vstd::prelude::*;
use crate::error::SomeIPError;
use crate::header::{tp_flagged, SomeIPHeader};
use crate::wire::{be32, copy_range, read_u32};

verus! {

/// One fragment as it arrived: the header of its datagram, its flags, the
/// byte position of its data in the reassembled payload, and the data.
#[derive(Debug, Clone, PartialEq, Eq)]
pub struct TPSegment {
    pub header: SomeIPHeader,
    pub is_first: bool,
    pub is_last: bool,
    pub offset: u32,
    pub payload: Vec<u8>,
}

#[derive(Debug, Clone, PartialEq, Eq)]
pub struct ReassembledMessage {
    pub header: SomeIPHeader,
    pub payload: Vec<u8>,
}

/// A stored fragment: where its data goes and the data.
#[derive(Debug)]
pub struct Fragment {
    pub offset: u32,
    pub data: Vec<u8>,
}

/// A message being reassembled. `segments` is kept sorted by offset, one
/// fragment per offset.
#[derive(Debug)]
pub struct PendingMessage {
    pub header: SomeIPHeader,
    pub segments: Vec<Fragment>,
    pub total_size: u32,
    pub last_updated: u64,
}

pub struct TPParser {
    pending_messages: Vec<PendingMessage>,
    timeout: u64,
}

/// What a pending message holds, as values.
pub struct PendingView {
    pub header: SomeIPHeader,
    pub fragments: Seq<(u32, Seq<u8>)>,
    pub total: int,
    pub last_updated: int,
}

pub open spec fn fragment_view(f: Fragment) -> (u32, Seq<u8>) {
    (f.offset, f.data@)
}

impl View for PendingMessage {
    type V = PendingView;

    open spec fn view(&self) -> PendingView {
        PendingView {
            header: self.header,
            fragments: self.segments@.map_values(|f: Fragment| fragment_view(f)),
            total: self.total_size as int,
            last_updated: self.last_updated as int,
        }
    }
}

impl View for TPParser {
    type V = Seq<PendingView>;

    closed spec fn view(&self) -> Seq<PendingView> {
        self.pending_messages@.map_values(|m: PendingMessage| m@)
    }
}

impl TPParser {
    /// How long a pending message may go without a new fragment.
    pub closed spec fn timeout_spec(&self) -> u64 {
        self.timeout
    }
}

// ---------------------------------------------------------------- model

pub open spec fn frag_end(f: (u32, Seq<u8>)) -> int {
    f.0 + f.1.len()
}

/// Fragments sorted by strictly increasing offset, none reaching past
/// a 32-bit position.
pub open spec fn fragments_wf(fr: Seq<(u32, Seq<u8>)>) -> bool {
    &&& forall|i: int, j: int| 0 <= i < j < fr.len() ==> fr[i].0 < fr[j].0
    &&& forall|i: int| 0 <= i < fr.len() ==> frag_end(#[trigger] fr[i]) <= u32::MAX
}

/// Some fragment holds the byte at position `i`.
pub open spec fn covered(fr: Seq<(u32, Seq<u8>)>, i: int) -> bool {
    exists|j: int| 0 <= j < fr.len() && fr[j].0 <= i < frag_end(#[trigger] fr[j])
}

/// The fragments hold every byte of `[0, total)`.
pub open spec fn complete(fr: Seq<(u32, Seq<u8>)>, total: int) -> bool {
    forall|i: int| 0 <= i < total ==> covered(fr, i)
}

/// The index of the last of the first `k` fragments that holds position `i`,
/// or -1.
pub open spec fn last_cover(fr: Seq<(u32, Seq<u8>)>, k: int, i: int) -> int
    decreases k,
{
    if k <= 0 {
        -1
    } else if fr[k - 1].0 <= i < frag_end(fr[k - 1]) {
        k - 1
    } else {
        last_cover(fr, k - 1, i)
    }
}

/// The byte at position `i` once the first `k` fragments are written in order
/// over zeros.
pub open spec fn painted(fr: Seq<(u32, Seq<u8>)>, k: int, i: int) -> u8 {
    let j = last_cover(fr, k, i);
    if j >= 0 {
        fr[j].1[i - fr[j].0]
    } else {
        0
    }
}

/// The reassembled payload: `total` bytes, each taken from the fragment with
/// the greatest offset that holds it.
pub open spec fn assemble(fr: Seq<(u32, Seq<u8>)>, total: int) -> Seq<u8> {
    Seq::new(total as nat, |i: int| painted(fr, fr.len() as int, i))
}

/// The first index at or after `i` whose fragment offset is at least `off`.
pub open spec fn lower_bound(fr: Seq<(u32, Seq<u8>)>, off: u32, i: int) -> int
    decreases fr.len() - i,
{
    if i >= fr.len() || i < 0 {
        fr.len() as int
    } else if fr[i].0 >= off {
        i
    } else {
        lower_bound(fr, off, i + 1)
    }
}

/// The fragments with `data` stored at `off`, replacing any fragment there.
pub open spec fn insert_fragment(fr: Seq<(u32, Seq<u8>)>, off: u32, data: Seq<u8>) -> Seq<
    (u32, Seq<u8>),
> {
    let p = lower_bound(fr, off, 0);
    if p < fr.len() && fr[p].0 == off {
        fr.update(p, (off, data))
    } else {
        fr.insert(p, (off, data))
    }
}

/// The pending messages that are still fresh at `now`: those updated no more
/// than `timeout` before it.
pub open spec fn expire(s: Seq<PendingView>, now: int, timeout: int) -> Seq<PendingView>
    decreases s.len(),
{
    if s.len() == 0 {
        s
    } else {
        let r = expire(s.drop_last(), now, timeout);
        if now <= s.last().last_updated + timeout {
            r.push(s.last())
        } else {
            r
        }
    }
}

/// The index of the pending message for `k`, from `i` on, or -1.
pub open spec fn find_key(s: Seq<PendingView>, k: (u16, u16, u16), i: int) -> int
    decreases s.len() - i,
{
    if i >= s.len() || i < 0 {
        -1
    } else if s[i].header.key() == k {
        i
    } else {
        find_key(s, k, i + 1)
    }
}

/// At most one pending message per key, and well-formed fragments in each.
pub open spec fn pending_wf(s: Seq<PendingView>) -> bool {
    &&& forall|i: int, j: int|
        0 <= i < j < s.len() ==> (#[trigger] s[i]).header.key() != (#[trigger] s[j]).header.key()
    &&& forall|i: int| 0 <= i < s.len() ==> fragments_wf((#[trigger] s[i]).fragments)
}

/// Where a message goes once it has been admitted: out, when it is complete;
/// back among the pending ones otherwise.
pub open spec fn settle(rest: Seq<PendingView>, p: PendingView) -> (
    Seq<PendingView>,
    Result<Option<(SomeIPHeader, Seq<u8>)>, SomeIPError>,
) {
    if complete(p.fragments, p.total) {
        (rest, Ok(Some((p.header, assemble(p.fragments, p.total)))))
    } else {
        (rest.push(p), Ok(None))
    }
}

/// Admitting one fragment into the (already expired) pending messages `e` at
/// time `now`: the new pending messages and what comes out.
pub open spec fn tp_admit(
    e: Seq<PendingView>,
    header: SomeIPHeader,
    is_first: bool,
    is_last: bool,
    offset: u32,
    data: Seq<u8>,
    now: int,
) -> (Seq<PendingView>, Result<Option<(SomeIPHeader, Seq<u8>)>, SomeIPError>) {
    let i = find_key(e, header.key(), 0);
    if offset + data.len() > u32::MAX {
        (e, Err(SomeIPError::TPSegmentError))
    } else if is_first && is_last {
        (e, Ok(Some((header, data))))
    } else if is_first {
        if header.length < 8 {
            (e, Err(SomeIPError::TPSegmentError))
        } else {
            let rest = if i >= 0 {
                e.remove(i)
            } else {
                e
            };
            settle(
                rest,
                PendingView {
                    header,
                    fragments: seq![(offset, data)],
                    total: header.length - 8,
                    last_updated: now,
                },
            )
        }
    } else if i < 0 {
        (e, Ok(None))
    } else {
        settle(
            e.remove(i),
            PendingView {
                header: e[i].header,
                fragments: insert_fragment(e[i].fragments, offset, data),
                total: if is_last {
                    offset + data.len()
                } else {
                    e[i].total
                },
                last_updated: now,
            },
        )
    }
}

pub open spec fn outcome_view(r: Result<Option<ReassembledMessage>, SomeIPError>) -> Result<
    Option<(SomeIPHeader, Seq<u8>)>,
    SomeIPError,
> {
    match r {
        Ok(Some(m)) => Ok(Some((m.header, m.payload@))),
        Ok(None) => Ok(None),
        Err(e) => Err(e),
    }
}

// ---------------------------------------------------------------- decoding

/// Decodes a fragment from the bytes after the SomeIP header. All fragments
/// carry the same 4-byte TP header: bit 7 of its first byte flags the first
/// fragment, bit 6 the last, and the remaining 30 bits are the big-endian
/// byte offset; the data starts right after it. Fewer than five bytes is an
/// error.
pub fn parse_tp_segment(payload: &[u8], header: SomeIPHeader) -> (r: Result<TPSegment, SomeIPError>)
    ensures
        payload@.len() < 5 <==> r is Err,
        r matches Err(e) ==> e == SomeIPError::TPSegmentError,
        r matches Ok(t) ==> {
            &&& t.header == header
            &&& t.is_first == (payload@[0] >= 128)
            &&& t.is_last == ((payload@[0] / 64) % 2 == 1)
            &&& t.offset == be32(payload@, 0) % 0x4000_0000
            &&& t.payload@ == payload@.subrange(4, payload@.len() as int)
        },
{
    if payload.len() < 5 {
        return Err(SomeIPError::TPSegmentError);
    }
    let first_byte = payload[0];
    Ok(
        TPSegment {
            header,
            is_first: first_byte >= 128,
            is_last: (first_byte / 64) % 2 == 1,
            offset: read_u32(payload, 0) % 0x4000_0000,
            payload: copy_range(payload, 4, payload.len()),
        },
    )
}

// ---------------------------------------------------------------- lemmas

proof fn lemma_lower_bound(fr: Seq<(u32, Seq<u8>)>, off: u32, i: int)
    requires
        0 <= i <= fr.len(),
        forall|a: int, b: int| 0 <= a < b < fr.len() ==> fr[a].0 < fr[b].0,
        forall|j: int| 0 <= j < i ==> fr[j].0 < off,
    ensures
        i <= lower_bound(fr, off, i) <= fr.len(),
        forall|j: int| 0 <= j < lower_bound(fr, off, i) ==> fr[j].0 < off,
        forall|j: int| lower_bound(fr, off, i) <= j < fr.len() ==> fr[j].0 >= off,
    decreases fr.len() - i,
{
    if i < fr.len() && fr[i].0 < off {
        lemma_lower_bound(fr, off, i + 1);
    } else if i < fr.len() {
        assert forall|j: int| i <= j < fr.len() implies fr[j].0 >= off by {
            if j > i {
                assert(fr[i].0 < fr[j].0);
            }
        }
    }
}

proof fn lemma_find_key(s: Seq<PendingView>, k: (u16, u16, u16), i: int)
    requires
        0 <= i <= s.len(),
    ensures
        find_key(s, k, i) == -1 ==> forall|j: int| i <= j < s.len() ==> s[j].header.key() != k,
        find_key(s, k, i) != -1 ==> i <= find_key(s, k, i) < s.len() && s[find_key(
            s,
            k,
            i,
        )].header.key() == k,
    decreases s.len() - i,
{
    if i < s.len() && s[i].header.key() != k {
        lemma_find_key(s, k, i + 1);
    }
}

proof fn lemma_expire_subset(s: Seq<PendingView>, now: int, timeout: int, x: PendingView)
    requires
        expire(s, now, timeout).contains(x),
    ensures
        s.contains(x),
    decreases s.len(),
{
    if s.len() > 0 {
        let r = expire(s.drop_last(), now, timeout);
        if r.contains(x) {
            lemma_expire_subset(s.drop_last(), now, timeout, x);
            let j = choose|j: int| 0 <= j < s.drop_last().len() && s.drop_last()[j] == x;
            assert(s[j] == x);
        } else {
            assert(x == s.last());
            assert(s[s.len() - 1] == x);
        }
    }
}

proof fn lemma_expire_wf(s: Seq<PendingView>, now: int, timeout: int)
    requires
        pending_wf(s),
    ensures
        pending_wf(expire(s, now, timeout)),
    decreases s.len(),
{
    if s.len() > 0 {
        let d = s.drop_last();
        assert(pending_wf(d)) by {
            assert forall|i: int, j: int| 0 <= i < j < d.len() implies (#[trigger] d[i]).header.key()
                != (#[trigger] d[j]).header.key() by {
                assert(d[i] == s[i] && d[j] == s[j]);
            }
            assert forall|i: int| 0 <= i < d.len() implies fragments_wf((#[trigger] d[i]).fragments) by {
                assert(d[i] == s[i]);
            }
        }
        lemma_expire_wf(d, now, timeout);
        let r = expire(d, now, timeout);
        if now <= s.last().last_updated + timeout {
            let t = r.push(s.last());
            assert forall|i: int, j: int| 0 <= i < j < t.len() implies (#[trigger] t[i]).header.key()
                != (#[trigger] t[j]).header.key() by {
                if j == t.len() - 1 {
                    assert(r.contains(t[i]));
                    lemma_expire_subset(d, now, timeout, t[i]);
                    let a = choose|a: int| 0 <= a < d.len() && d[a] == t[i];
                    assert(s[a] == t[i]);
                    assert(s[s.len() - 1] == t[j]);
                } else {
                    assert(t[i] == r[i] && t[j] == r[j]);
                }
            }
            assert forall|i: int| 0 <= i < t.len() implies fragments_wf((#[trigger] t[i]).fragments) by {
                if i < r.len() {
                    assert(t[i] == r[i]);
                } else {
                    assert(s[s.len() - 1] == t[i]);
                }
            }
        }
    }
}

/// Every pending message was started by a fragment with the TP flag.
pub open spec fn pending_flagged(s: Seq<PendingView>) -> bool {
    forall|i: int| 0 <= i < s.len() ==> tp_flagged((#[trigger] s[i]).header)
}

/// A reassembled payload is exactly `total` bytes long.
pub proof fn lemma_assembled_length(fr: Seq<(u32, Seq<u8>)>, total: int)
    requires
        total >= 0,
    ensures
        assemble(fr, total).len() == total,
{
}

proof fn lemma_expire_flagged(s: Seq<PendingView>, now: int, timeout: int)
    requires
        pending_flagged(s),
    ensures
        pending_flagged(expire(s, now, timeout)),
{
    let e = expire(s, now, timeout);
    assert forall|i: int| 0 <= i < e.len() implies tp_flagged((#[trigger] e[i]).header) by {
        assert(e.contains(e[i]));
        lemma_expire_subset(s, now, timeout, e[i]);
        let j = choose|j: int| 0 <= j < s.len() && s[j] == e[i];
    }
}

/// Admitting a flagged fragment keeps every pending message flagged, and
/// what comes out is flagged too.
pub proof fn lemma_admit_flagged(
    pending: Seq<PendingView>,
    now: int,
    timeout: int,
    header: SomeIPHeader,
    is_first: bool,
    is_last: bool,
    offset: u32,
    data: Seq<u8>,
)
    requires
        pending_flagged(pending),
        tp_flagged(header),
    ensures
        ({
            let (next, out) = tp_admit(
                expire(pending, now, timeout),
                header,
                is_first,
                is_last,
                offset,
                data,
                now,
            );
            &&& pending_flagged(next)
            &&& out matches Ok(Some((h, _))) ==> tp_flagged(h)
        }),
{
    lemma_expire_flagged(pending, now, timeout);
    let e = expire(pending, now, timeout);
    let i = find_key(e, header.key(), 0);
    lemma_find_key(e, header.key(), 0);
    if i >= 0 {
        let r = e.remove(i);
        assert forall|j: int| 0 <= j < r.len() implies tp_flagged((#[trigger] r[j]).header) by {
            if j < i {
                assert(r[j] == e[j]);
            } else {
                assert(r[j] == e[j + 1]);
            }
        }
        assert(tp_flagged(e[i].header));
    }
    let (next, out) = tp_admit(e, header, is_first, is_last, offset, data, now);
    let rest = if i >= 0 {
        e.remove(i)
    } else {
        e
    };
    assert(pending_flagged(rest));
    if offset + data.len() > u32::MAX || (is_first && is_last) || (is_first && header.length < 8)
        || (!is_first && i < 0) {
        assert(next == e);
    } else {
        let h = if is_first {
            header
        } else {
            e[i].header
        };
        assert forall|j: int| 0 <= j < next.len() implies tp_flagged((#[trigger] next[j]).header) by {
            if j < rest.len() {
                assert(next[j] == rest[j]);
            } else {
                assert(next[j].header == h);
            }
        }
    }
}

// ---------------------------------------------------------------- fragments

pub open spec fn fragments_view(v: Seq<Fragment>) -> Seq<(u32, Seq<u8>)> {
    v.map_values(|f: Fragment| fragment_view(f))
}

/// Stores `data` at `offset`, keeping the fragments sorted.
fn store_fragment(frags: &mut Vec<Fragment>, offset: u32, data: Vec<u8>)
    requires
        fragments_wf(fragments_view(old(frags)@)),
        offset + data@.len() <= u32::MAX,
    ensures
        fragments_view(final(frags)@) == insert_fragment(fragments_view(old(frags)@), offset, data@),
        fragments_wf(fragments_view(final(frags)@)),
{
    let ghost v = fragments_view(frags@);
    let mut i: usize = 0;
    while i < frags.len() && frags[i].offset < offset
        invariant
            v == fragments_view(frags@),
            fragments_wf(v),
            i <= frags@.len(),
            forall|j: int| 0 <= j < i ==> v[j].0 < offset,
            lower_bound(v, offset, 0) == lower_bound(v, offset, i as int),
        decreases frags@.len() - i,
    {
        i = i + 1;
    }
    proof {
        lemma_lower_bound(v, offset, i as int);
    }
    let ghost d = data@;
    let f = Fragment { offset, data };
    if i < frags.len() && frags[i].offset == offset {
        frags.set(i, f);
        assert(fragments_view(frags@) =~= v.update(i as int, (offset, d)));
    } else {
        frags.insert(i, f);
        assert(fragments_view(frags@) =~= v.insert(i as int, (offset, d)));
    }
    proof {
        let w = fragments_view(frags@);
        assert forall|a: int, b: int| 0 <= a < b < w.len() implies w[a].0 < w[b].0 by {
            if a < i && b > i {
                assert(v[a].0 < offset);
            }
        }
    }
}

/// Whether the fragments hold every byte of `[0, total)`.
fn is_complete(frags: &Vec<Fragment>, total: u32) -> (r: bool)
    requires
        fragments_wf(fragments_view(frags@)),
    ensures
        r == complete(fragments_view(frags@), total as int),
{
    let ghost v = fragments_view(frags@);
    let mut cur: u64 = 0;
    let mut k: usize = 0;
    while k < frags.len()
        invariant
            v == fragments_view(frags@),
            fragments_wf(v),
            k <= v.len(),
            cur <= 0x2_0000_0000,
            forall|i: int| 0 <= i < cur ==> covered(v, i),
            forall|j: int| 0 <= j < k ==> frag_end(v[j]) <= cur,
        ensures
            forall|i: int| 0 <= i < cur ==> covered(v, i),
            !covered(v, cur as int),
        decreases v.len() - k,
    {
        let off = frags[k].offset as u64;
        if off > cur {
            assert forall|j: int| 0 <= j < v.len() implies !(v[j].0 <= cur < frag_end(
                #[trigger] v[j],
            )) by {
                if j > k {
                    assert(v[k as int].0 < v[j].0);
                }
            }
            break ;
        }
        let end = off + frags[k].data.len() as u64;
        assert(frag_end(v[k as int]) == end);
        if end > cur {
            assert forall|i: int| 0 <= i < end implies covered(v, i) by {
                if i >= cur {
                    assert(v[k as int].0 <= i < frag_end(v[k as int]));
                }
            }
            cur = end;
        }
        k = k + 1;
    }
    cur >= total as u64
}

/// Writes the fragments in order over `total` zero bytes.
fn assemble_payload(frags: &Vec<Fragment>, total: u32) -> (r: Vec<u8>)
    requires
        fragments_wf(fragments_view(frags@)),
    ensures
        r@ == assemble(fragments_view(frags@), total as int),
{
    let ghost v = fragments_view(frags@);
    let n = total as usize;
    let mut buf: Vec<u8> = Vec::new();
    let mut i: usize = 0;
    while i < n
        invariant
            i <= n,
            buf@.len() == i,
            forall|x: int| 0 <= x < i ==> buf@[x] == 0,
        decreases n - i,
    {
        buf.push(0);
        i = i + 1;
    }
    let mut k: usize = 0;
    while k < frags.len()
        invariant
            v == fragments_view(frags@),
            fragments_wf(v),
            k <= v.len(),
            n == total,
            buf@.len() == n,
            forall|x: int| 0 <= x < n ==> buf@[x] == painted(v, k as int, x),
        decreases v.len() - k,
    {
        let f = &frags[k];
        let off = f.offset as usize;
        let dlen = f.data.len();
        assert(frag_end(v[k as int]) <= u32::MAX);
        let mut t: usize = 0;
        while t < dlen && off + t < n
            invariant
                v == fragments_view(frags@),
                k < v.len(),
                off + dlen <= u32::MAX,
                f == frags@[k as int],
                off == f.offset,
                dlen == f.data@.len(),
                t <= dlen,
                buf@.len() == n,
                forall|x: int|
                    0 <= x < n ==> buf@[x] == if off <= x < off + t {
                        f.data@[x - off]
                    } else {
                        painted(v, k as int, x)
                    },
            decreases dlen - t,
        {
            buf.set(off + t, f.data[t]);
            t = t + 1;
        }
        assert forall|x: int| 0 <= x < n implies buf@[x] == painted(v, k + 1, x) by {
            assert(v[k as int] == fragment_view(*f));
        }
        k = k + 1;
    }
    assert(buf@ =~= assemble(v, total as int));
    buf
}

// ---------------------------------------------------------------- parser

impl TPParser {
    pub fn new(timeout: u64) -> (r: Self)
        ensures
            r@ == Seq::<PendingView>::empty(),
            r.timeout_spec() == timeout,
    {
        let r = TPParser { pending_messages: Vec::new(), timeout };
        assert(r@ =~= Seq::<PendingView>::empty());
        r
    }

    /// How many messages are waiting for fragments.
    pub fn pending_count(&self) -> (r: usize)
        ensures
            r == self@.len(),
    {
        self.pending_messages.len()
    }

    /// Drops the pending messages that went longer than the timeout without
    /// a fragment.
    fn cleanup_expired_messages(&mut self, now: u64)
        requires
            pending_wf(old(self)@),
        ensures
            final(self)@ == expire(old(self)@, now as int, old(self).timeout as int),
            final(self).timeout == old(self).timeout,
            pending_wf(final(self)@),
    {
        let ghost orig = self@;
        let ghost n = orig.len();
        let mut rest: Vec<PendingMessage> = Vec::new();
        std::mem::swap(&mut self.pending_messages, &mut rest);
        let mut kept: Vec<PendingMessage> = Vec::new();
        let ghost mut c: int = 0;
        assert(rest@.map_values(|m: PendingMessage| m@) =~= orig.subrange(0, n as int));
        while rest.len() > 0
            invariant
                0 <= c <= n,
                n == orig.len(),
                rest@.len() == n - c,
                rest@.map_values(|m: PendingMessage| m@) == orig.subrange(c, n as int),
                kept@.map_values(|m: PendingMessage| m@) == expire(
                    orig.subrange(0, c),
                    now as int,
                    self.timeout as int,
                ),
            decreases rest@.len(),
        {
            let ghost before = rest@;
            let m = rest.remove(0);
            proof {
                assert(before.map_values(|m: PendingMessage| m@)[0] == orig.subrange(c, n as int)[0]);
                assert(m@ == orig[c]);
                assert(orig.subrange(0, c + 1).drop_last() =~= orig.subrange(0, c));
                assert(orig.subrange(0, c + 1).last() == orig[c]);
            }
            let fresh = now <= m.last_updated || now - m.last_updated <= self.timeout;
            if fresh {
                kept.push(m);
            }
            proof {
                assert(kept@.map_values(|m: PendingMessage| m@) =~= expire(
                    orig.subrange(0, c + 1),
                    now as int,
                    self.timeout as int,
                ));
                assert forall|j: int| 0 <= j < rest@.len() implies #[trigger] rest@[j]@ == orig[c + 1 + j] by {
                    assert(rest@[j] == before[j + 1]);
                    assert(before.map_values(|m: PendingMessage| m@)[j + 1] == orig.subrange(c, n as int)[j + 1]);
                }
                assert(rest@.map_values(|m: PendingMessage| m@) =~= orig.subrange(c + 1, n as int));
                c = c + 1;
            }
        }
        assert(orig.subrange(0, n as int) =~= orig);
        self.pending_messages = kept;
        proof {
            lemma_expire_wf(orig, now as int, self.timeout as int);
        }
    }

    fn find_pending(&self, key: (u16, u16, u16)) -> (r: Option<usize>)
        ensures
            r matches Some(i) ==> i == find_key(self@, key, 0),
            r is None ==> find_key(self@, key, 0) == -1,
    {
        let mut i: usize = 0;
        while i < self.pending_messages.len()
            invariant
                i <= self@.len(),
                find_key(self@, key, 0) == find_key(self@, key, i as int),
            decreases self@.len() - i,
        {
            let h = &self.pending_messages[i].header;
            if h.service_id == key.0 && h.client_id == key.1 && h.session_id == key.2 {
                assert(self@[i as int].header.key() == key);
                return Some(i);
            }
            i = i + 1;
        }
        None
    }

    /// Emits `p` if it is complete, and keeps it pending otherwise.
    fn settle_message(&mut self, p: PendingMessage) -> (r: Result<
        Option<ReassembledMessage>,
        SomeIPError,
    >)
        requires
            pending_wf(old(self)@),
            fragments_wf(p@.fragments),
            forall|j: int| 0 <= j < old(self)@.len() ==> old(self)@[j].header.key() != p.header.key(),
        ensures
            (final(self)@, outcome_view(r)) == settle(old(self)@, p@),
            pending_wf(final(self)@),
            final(self).timeout == old(self).timeout,
    {
        if is_complete(&p.segments, p.total_size) {
            let payload = assemble_payload(&p.segments, p.total_size);
            Ok(Some(ReassembledMessage { header: p.header, payload }))
        } else {
            let ghost before = self@;
            self.pending_messages.push(p);
            assert(self@ =~= before.push(p@));
            Ok(None)
        }
    }

    /// Admits one fragment at time `now`. Pending messages that went longer
    /// than the timeout without a fragment are dropped first. A first
    /// fragment that is also the last comes out at once and leaves no state;
    /// any other first fragment starts a message (replacing one under the
    /// same key) whose size is taken from its header; later fragments join
    /// the message for their key, if there is one, and the last of them fixes
    /// the size. A message comes out, and leaves the pending ones, as soon as
    /// its fragments cover it.
    pub fn process_segment(&mut self, segment: TPSegment, now: u64) -> (r: Result<
        Option<ReassembledMessage>,
        SomeIPError,
    >)
        requires
            pending_wf(old(self)@),
        ensures
            pending_wf(final(self)@),
            final(self).timeout_spec() == old(self).timeout_spec(),
            (final(self)@, outcome_view(r)) == tp_admit(
                expire(old(self)@, now as int, old(self).timeout_spec() as int),
                segment.header,
                segment.is_first,
                segment.is_last,
                segment.offset,
                segment.payload@,
                now as int,
            ),
            !(segment.is_first && segment.is_last) ==> (r matches Ok(Some(m)) ==> find_key(
                final(self)@,
                m.header.key(),
                0,
            ) == -1),
    {
        self.cleanup_expired_messages(now);
        let ghost e = self@;
        let header = segment.header;
        let key = (header.service_id, header.client_id, header.session_id);
        if segment.payload.len() > (0xFFFF_FFFF - segment.offset) as usize {
            return Err(SomeIPError::TPSegmentError);
        }
        if segment.is_first && segment.is_last {
            return Ok(Some(ReassembledMessage { header, payload: segment.payload }));
        }
        let found = self.find_pending(key);
        proof {
            lemma_find_key(e, key, 0);
        }
        let r = if segment.is_first {
            if header.length < 8 {
                return Err(SomeIPError::TPSegmentError);
            }
            if let Some(i) = found {
                self.pending_messages.remove(i);
                assert(self@ =~= e.remove(i as int));
            }
            let ghost d = segment.payload@;
            let mut segments: Vec<Fragment> = Vec::new();
            segments.push(Fragment { offset: segment.offset, data: segment.payload });
            let p = PendingMessage {
                header,
                segments,
                total_size: header.length - 8,
                last_updated: now,
            };
            assert(p@.fragments =~= seq![(segment.offset, d)]);
            self.settle_message(p)
        } else {
            match found {
                None => {
                    return Ok(None);
                },
                Some(i) => {
                    let mut p = self.pending_messages.remove(i);
                    assert(self@ =~= e.remove(i as int));
                    assert(p@ == e[i as int]);
                    let ghost d = segment.payload@;
                    let end = segment.offset + segment.payload.len() as u32;
                    store_fragment(&mut p.segments, segment.offset, segment.payload);
                    if segment.is_last {
                        p.total_size = end;
                    }
                    p.last_updated = now;
                    self.settle_message(p)
                },
            }
        };
        proof {
            lemma_find_key(self@, key, 0);
        }
        r
    }
}

} // verus!
