//! The ECG sync protocol: two peers exchange `have` probes, `known`
//! bitmaps and headers over a lossy link until both replicas hold the
//! same DAG. Ancestors are proposed at exponentially spaced distances
//! from the tips, so locating the most recent common ancestor costs a
//! logarithmic number of rounds in the depth of the graph.

use vstd::prelude::*;

use crate::ecg::{Header, State};
use crate::vecset::vec_contains;

verus! {

/// The maximum number of `have` hashes that can be sent in each message.
pub const MAX_HAVE_HEADERS: u16 = 32;

/// The maximum number of headers that can be sent in each message.
pub const MAX_DELIVER_HEADERS: u16 = 32;

/// Why a sync session cannot proceed.
#[derive(Clone, Copy, Debug, PartialEq, Eq, Structural)]
pub enum ECGSyncError {
    /// More tips than the tip counter can carry.
    TooManyTips,
    /// The session stopped making progress or a message was malformed.
    ProtocolViolation,
}

/// Converts a tip count to the wire representation, refusing counts the
/// counter cannot carry.
pub fn tip_count_of(n: usize) -> (r: Result<u16, ECGSyncError>)
    ensures
        n <= 0xffff ==> r == Ok::<u16, ECGSyncError>(n as u16),
        n > 0xffff ==> r == Err::<u16, ECGSyncError>(ECGSyncError::TooManyTips),
{
    if n <= 0xffff {
        Ok(n as u16)
    } else {
        Err(ECGSyncError::TooManyTips)
    }
}

/// A 32-bit bitmap over the entries of a received `have` list; bit 0 is
/// the most significant bit of the word.
#[derive(Clone, Copy, Debug)]
pub struct HeaderBitmap {
    bits: u32,
}

impl HeaderBitmap {
    /// Whether bit `i` is set.
    pub closed spec fn spec_get(self, i: int) -> bool {
        (self.bits >> ((31 - i) as u32)) & 1 == 1
    }

    /// The raw word behind the bitmap.
    pub closed spec fn spec_bits(self) -> u32 {
        self.bits
    }

    /// A bitmap with every bit clear.
    pub fn new() -> (r: HeaderBitmap)
        ensures
            forall|i: int| 0 <= i < 32 ==> !r.spec_get(i),
    {
        let r = HeaderBitmap { bits: 0 };
        proof {
            assert forall|i: int| 0 <= i < 32 implies !r.spec_get(i) by {
                let s = (31 - i) as u32;
                assert((0u32 >> s) & 1 == 0) by (bit_vector);
            }
        }
        r
    }

    /// Reads bit `i`.
    pub fn get(&self, i: usize) -> (r: bool)
        requires
            i < 32,
        ensures
            r == self.spec_get(i as int),
    {
        (self.bits >> ((31 - i) as u32)) & 1 == 1
    }

    /// Sets bit `i` to `v`, leaving every other bit alone.
    pub fn set(&mut self, i: usize, v: bool)
        requires
            i < 32,
        ensures
            final(self).spec_get(i as int) == v,
            forall|j: int| 0 <= j < 32 && j != i ==> final(self).spec_get(j) == old(self).spec_get(j),
    {
        let s: u32 = (31 - i) as u32;
        let b = self.bits;
        if v {
            self.bits = self.bits | (1u32 << s);
            proof {
                assert(((b | (1u32 << s)) >> s) & 1 == 1) by (bit_vector)
                    requires
                        s < 32,
                ;
                assert forall|j: int| 0 <= j < 32 && j != i implies self.spec_get(j) == old(self).spec_get(j) by {
                    let t = (31 - j) as u32;
                    assert(t != s && t < 32);
                    assert(((b | (1u32 << s)) >> t) & 1 == (b >> t) & 1) by (bit_vector)
                        requires
                            s < 32,
                            t < 32,
                            t != s,
                    ;
                }
            }
        } else {
            self.bits = self.bits & !(1u32 << s);
            proof {
                assert(((b & !(1u32 << s)) >> s) & 1 == 0) by (bit_vector)
                    requires
                        s < 32,
                ;
                assert forall|j: int| 0 <= j < 32 && j != i implies self.spec_get(j) == old(self).spec_get(j) by {
                    let t = (31 - j) as u32;
                    assert(t != s && t < 32);
                    assert(((b & !(1u32 << s)) >> t) & 1 == (b >> t) & 1) by (bit_vector)
                        requires
                            s < 32,
                            t < 32,
                            t != s,
                    ;
                }
            }
        }
    }

    /// The raw word, for framing on the wire.
    pub fn to_u32(&self) -> (r: u32)
        ensures
            r == self.spec_bits(),
    {
        self.bits
    }

    /// Rebuilds a bitmap from its raw word.
    pub fn from_u32(bits: u32) -> (r: HeaderBitmap)
        ensures
            r.spec_bits() == bits,
    {
        HeaderBitmap { bits }
    }
}

/// The opening message of a sync session, sent by the client.
#[derive(Clone, Debug)]
pub struct MsgECGSyncRequest {
    /// Number of tips the client has.
    pub tip_count: u16,
    /// Hashes of headers the client has; the first `tip_count` entries
    /// over the whole session are its tips.
    pub have: Vec<u64>,
}

/// The server's reply: its own tip count and its first sync payload.
#[derive(Clone, Debug)]
pub struct MsgECGSyncResponse {
    /// Number of tips the server has.
    pub tip_count: u16,
    /// The server's first sync payload.
    pub sync: MsgECGSyncData,
}

/// One alternating payload of the session.
#[derive(Clone, Debug)]
pub struct MsgECGSyncData {
    /// Hashes of headers the sender has.
    pub have: Vec<u64>,
    /// Which entries of the previously received `have` list the sender
    /// already possesses.
    pub known: HeaderBitmap,
    /// Headers delivered to the other party.
    pub headers: Vec<Header>,
}

/// The three message kinds of the sync protocol.
pub enum MsgECGSync {
    Request(MsgECGSyncRequest),
    Response(MsgECGSyncResponse),
    Sync(MsgECGSyncData),
}

impl MsgECGSyncRequest {
    /// Whether this message ends the sender's direction of the session.
    pub fn is_done(&self) -> (r: bool)
        ensures
            r == (self.have@.len() == 0),
    {
        self.have.len() == 0
    }

    /// Wraps the message into the protocol union.
    pub fn into_msg(self) -> (r: MsgECGSync)
        ensures
            r == MsgECGSync::Request(self),
    {
        MsgECGSync::Request(self)
    }
}

impl MsgECGSyncResponse {
    /// Whether this message ends the sender's direction of the session.
    pub fn is_done(&self) -> (r: bool)
        ensures
            r == (self.sync.have@.len() == 0 && self.sync.headers@.len() == 0),
    {
        self.sync.is_done()
    }

    /// Wraps the message into the protocol union.
    pub fn into_msg(self) -> (r: MsgECGSync)
        ensures
            r == MsgECGSync::Response(self),
    {
        MsgECGSync::Response(self)
    }
}

impl MsgECGSyncData {
    /// Whether this message ends the sender's direction of the session:
    /// it proposes nothing and delivers nothing.
    pub fn is_done(&self) -> (r: bool)
        ensures
            r == (self.have@.len() == 0 && self.headers@.len() == 0),
    {
        self.have.len() == 0 && self.headers.len() == 0
    }

    /// Wraps the message into the protocol union.
    pub fn into_msg(self) -> (r: MsgECGSync)
        ensures
            r == MsgECGSync::Sync(self),
    {
        MsgECGSync::Sync(self)
    }
}

impl MsgECGSync {
    /// The request inside, if this is a request.
    pub fn try_into_request(self) -> (r: Result<MsgECGSyncRequest, ()>)
        ensures
            match self {
                MsgECGSync::Request(m) => r == Ok::<MsgECGSyncRequest, ()>(m),
                _ => r == Err::<MsgECGSyncRequest, ()>(()),
            },
    {
        match self {
            MsgECGSync::Request(m) => Ok(m),
            MsgECGSync::Response(_) => Err(()),
            MsgECGSync::Sync(_) => Err(()),
        }
    }

    /// The response inside, if this is a response.
    pub fn try_into_response(self) -> (r: Result<MsgECGSyncResponse, ()>)
        ensures
            match self {
                MsgECGSync::Response(m) => r == Ok::<MsgECGSyncResponse, ()>(m),
                _ => r == Err::<MsgECGSyncResponse, ()>(()),
            },
    {
        match self {
            MsgECGSync::Request(_) => Err(()),
            MsgECGSync::Response(m) => Ok(m),
            MsgECGSync::Sync(_) => Err(()),
        }
    }

    /// The sync payload inside, if this is a sync message.
    pub fn try_into_sync(self) -> (r: Result<MsgECGSyncData, ()>)
        ensures
            match self {
                MsgECGSync::Sync(m) => r == Ok::<MsgECGSyncData, ()>(m),
                _ => r == Err::<MsgECGSyncData, ()>(()),
            },
    {
        match self {
            MsgECGSync::Request(_) => Err(()),
            MsgECGSync::Response(_) => Err(()),
            MsgECGSync::Sync(m) => Ok(m),
        }
    }
}

/// Whether `x` is 1, 2, 4, 8, ... (0 is excluded here; the check below
/// accepts 0 separately).
pub open spec fn spec_pow2(x: u64) -> bool
    decreases x,
{
    if x == 0 {
        false
    } else if x == 1 {
        true
    } else if x % 2 == 1 {
        false
    } else {
        spec_pow2(x / 2)
    }
}

/// The bit trick `x & (x - 1) == 0` recognizes exactly the powers of
/// two among the positive numbers.
proof fn lemma_pow2_mask(x: u64)
    requires
        x > 0,
    ensures
        ((x & (x - 1) as u64) == 0) <==> spec_pow2(x),
    decreases x,
{
    if x == 1 {
        assert((1u64 & 0u64) == 0) by (bit_vector);
    } else if x % 2 == 1 {
        assert((x & (x - 1) as u64) != 0) by (bit_vector)
            requires
                x % 2 == 1 && x > 1,
        ;
    } else {
        lemma_pow2_mask(x / 2);
        assert(((x & (x - 1) as u64) == 0) == (((x / 2) & (x / 2 - 1) as u64) == 0))
            by (bit_vector)
            requires
                x % 2 == 0 && x > 1,
        ;
    }
}

/// Check if the input is a power of two (inclusive of 0).
pub fn is_power_of_two(x: u64) -> (r: bool)
    ensures
        r == (x == 0 || spec_pow2(x)),
{
    if x == 0 {
        return true;
    }
    proof {
        lemma_pow2_mask(x);
    }
    0 == (x & (x - 1))
}

/// Lexicographic order on the send-queue entries (depth first).
pub open spec fn pair_le(a: (u64, u64), b: (u64, u64)) -> bool {
    a.0 < b.0 || (a.0 == b.0 && a.1 <= b.1)
}

/// Lexicographic order on the probe-queue entries (tips first, then
/// depth).
pub open spec fn quad_le(a: (bool, u64, u64, u64), b: (bool, u64, u64, u64)) -> bool {
    if a.0 != b.0 {
        !a.0
    } else if a.1 != b.1 {
        a.1 < b.1
    } else if a.2 != b.2 {
        a.2 < b.2
    } else {
        a.3 <= b.3
    }
}

/// Removes and returns a greatest entry of the send queue.
pub fn pop_max_pair(q: &mut Vec<(u64, u64)>) -> (r: Option<(u64, u64)>)
    ensures
        match r {
            None => old(q)@.len() == 0 && final(q)@ == old(q)@,
            Some(e) => {
                &&& old(q)@.len() > 0
                &&& old(q)@.contains(e)
                &&& final(q)@.len() == old(q)@.len() - 1
                &&& final(q)@.to_multiset() == old(q)@.to_multiset().remove(e)
                &&& forall|t: int|
                    0 <= t < final(q)@.len() ==> old(q)@.contains(#[trigger] final(q)@[t])
                &&& forall|t: int| 0 <= t < old(q)@.len() ==> pair_le(#[trigger] old(q)@[t], e)
            },
        },
{
    if q.len() == 0 {
        return None;
    }
    let mut mi: usize = 0;
    let mut k: usize = 1;
    while k < q.len()
        invariant
            q@.len() > 0,
            0 <= mi < k <= q@.len(),
            forall|t: int| 0 <= t < k ==> pair_le(#[trigger] q@[t], q@[mi as int]),
        decreases q@.len() - k,
    {
        let cur = q[k];
        let best = q[mi];
        if best.0 < cur.0 || (best.0 == cur.0 && best.1 < cur.1) {
            mi = k;
        }
        k += 1;
    }
    let e = q.remove(mi);
    proof {
        old(q)@.remove_ensures(mi as int);
        old(q)@.to_multiset_ensures();
        assert(old(q)@[mi as int] == e);
        assert(q@.to_multiset() =~= old(q)@.to_multiset().remove(e));
        assert forall|t: int|
            0 <= t < q@.len() implies old(q)@.contains(#[trigger] q@[t]) by {
            if t < mi {
                assert(q@[t] == old(q)@[t]);
            } else {
                assert(q@[t] == old(q)@[t + 1]);
            }
        }
    }
    Some(e)
}

/// Removes and returns a greatest entry of the probe queue.
pub fn pop_max_quad(q: &mut Vec<(bool, u64, u64, u64)>) -> (r: Option<(bool, u64, u64, u64)>)
    ensures
        match r {
            None => old(q)@.len() == 0 && final(q)@ == old(q)@,
            Some(e) => {
                &&& old(q)@.len() > 0
                &&& old(q)@.contains(e)
                &&& final(q)@.len() == old(q)@.len() - 1
                &&& final(q)@.to_multiset() == old(q)@.to_multiset().remove(e)
                &&& forall|t: int|
                    0 <= t < final(q)@.len() ==> old(q)@.contains(#[trigger] final(q)@[t])
                &&& forall|t: int| 0 <= t < old(q)@.len() ==> quad_le(#[trigger] old(q)@[t], e)
            },
        },
{
    if q.len() == 0 {
        return None;
    }
    let mut mi: usize = 0;
    let mut k: usize = 1;
    while k < q.len()
        invariant
            q@.len() > 0,
            0 <= mi < k <= q@.len(),
            forall|t: int| 0 <= t < k ==> quad_le(#[trigger] q@[t], q@[mi as int]),
        decreases q@.len() - k,
    {
        let cur = q[k];
        let best = q[mi];
        let better = if best.0 != cur.0 {
            cur.0
        } else if best.1 != cur.1 {
            best.1 < cur.1
        } else if best.2 != cur.2 {
            best.2 < cur.2
        } else {
            best.3 < cur.3
        };
        if better {
            mi = k;
        }
        k += 1;
    }
    let e = q.remove(mi);
    proof {
        old(q)@.remove_ensures(mi as int);
        old(q)@.to_multiset_ensures();
        assert(old(q)@[mi as int] == e);
        assert(q@.to_multiset() =~= old(q)@.to_multiset().remove(e));
        assert forall|t: int|
            0 <= t < q@.len() implies old(q)@.contains(#[trigger] q@[t]) by {
            if t < mi {
                assert(q@[t] == old(q)@[t]);
            } else {
                assert(q@[t] == old(q)@[t + 1]);
            }
        }
    }
    Some(e)
}

/// Removing one occurrence of `e` keeps every other value present.
proof fn lemma_pop_keeps<T>(pre: Seq<T>, post: Seq<T>, e: T, x: T)
    requires
        post.to_multiset() == pre.to_multiset().remove(e),
        x != e,
        pre.contains(x),
    ensures
        post.contains(x),
{
    pre.to_multiset_ensures();
    post.to_multiset_ensures();
    assert(pre.to_multiset().count(x) > 0);
    assert(post.to_multiset().count(x) > 0);
}

/// Membership survives an index-preserving growth of the vector.
proof fn lemma_contains_lift(pre: Seq<u64>, post: Seq<u64>, x: u64)
    requires
        pre.contains(x),
        forall|t: int| 0 <= t < pre.len() ==> post.contains(#[trigger] pre[t]),
    ensures
        post.contains(x),
{
    let u = choose|u: int| 0 <= u < pre.len() && pre[u] == x;
}

/// Copies a vector of ids.
pub fn copy_ids(v: &Vec<u64>) -> (r: Vec<u64>)
    ensures
        r@ == v@,
{
    let mut out: Vec<u64> = Vec::new();
    let mut k: usize = 0;
    while k < v.len()
        invariant
            0 <= k <= v@.len(),
            out@ == v@.take(k as int),
        decreases v@.len() - k,
    {
        out.push(v[k]);
        proof {
            assert(out@ =~= v@.take(k as int + 1));
        }
        k += 1;
    }
    proof {
        assert(out@ =~= v@);
    }
    out
}

/// Copies a header.
pub fn copy_header(h: &Header) -> (r: Header)
    ensures
        r@ == h@,
{
    Header { header_id: h.header_id, parent_ids: copy_ids(&h.parent_ids) }
}

/// What we have proven the remote peer possesses: ids of our graph,
/// each at most once, closed under parents.
#[verifier::opaque]
pub open spec fn known_wf(st: State, known: Seq<u64>) -> bool {
    &&& known.no_duplicates()
    &&& forall|t: int| 0 <= t < known.len() ==> st.has_node(#[trigger] known[t])
    &&& forall|h: u64, k: int|
        known.contains(h) && 0 <= k < st.parents_of(h).len() ==> known.contains(
            #[trigger] st.parents_of(h)[k],
        )
}

/// One graph extends another: every present node is still present,
/// unchanged.
pub open spec fn extends(pre: State, post: State) -> bool {
    forall|h: u64|
        #[trigger] pre.has_node(h) ==> post.has_node(h) && post.node_of(h) == pre.node_of(h)
}

/// `a` is `h` itself or reachable from `h` along parent links.
pub open spec fn is_ancestor_of(st: State, a: u64, h: u64) -> bool {
    exists|p: Seq<u64>|
        #![auto]
        {
            &&& p.len() >= 1
            &&& p.first() == h
            &&& p.last() == a
            &&& (forall|i: int| 0 <= i < p.len() ==> st.has_node(#[trigger] p[i]))
            &&& (forall|i: int|
                0 <= i < p.len() - 1 ==> st.parents_of(#[trigger] p[i]).contains(p[i + 1]))
        }
}

/// Every node is its own ancestor.
pub proof fn lemma_ancestor_refl(st: State, h: u64)
    requires
        st.has_node(h),
    ensures
        is_ancestor_of(st, h, h),
{
    let p = seq![h];
    assert(p.len() == 1 && p.first() == h && p.last() == h);
    assert(forall|i: int| 0 <= i < p.len() ==> st.has_node(#[trigger] p[i]));
    assert(is_ancestor_of(st, h, h));
}

/// A parent of an ancestor is an ancestor.
pub proof fn lemma_ancestor_parent(st: State, hid: u64, h: u64, q: u64)
    requires
        is_ancestor_of(st, h, hid),
        st.parents_of(h).contains(q),
        st.has_node(q),
    ensures
        is_ancestor_of(st, q, hid),
{
    let p = choose|p: Seq<u64>|
        #![auto]
        {
            &&& p.len() >= 1
            &&& p.first() == hid
            &&& p.last() == h
            &&& (forall|i: int| 0 <= i < p.len() ==> st.has_node(#[trigger] p[i]))
            &&& (forall|i: int|
                0 <= i < p.len() - 1 ==> st.parents_of(#[trigger] p[i]).contains(p[i + 1]))
        };
    let p2 = p.push(q);
    assert(p2.first() == hid && p2.last() == q);
    assert(forall|i: int| 0 <= i < p.len() ==> p2[i] == p[i]);
    assert forall|i: int| 0 <= i < p2.len() implies st.has_node(#[trigger] p2[i]) by {
        if i < p.len() {
            assert(p2[i] == p[i]);
        }
    }
    assert forall|i: int|
        0 <= i < p2.len() - 1 implies st.parents_of(#[trigger] p2[i]).contains(p2[i + 1]) by {
        if i < p.len() - 1 {
            assert(p2[i] == p[i] && p2[i + 1] == p[i + 1]);
        } else {
            assert(p2[i] == h && p2[i + 1] == q);
        }
    }
    assert(is_ancestor_of(st, q, hid));
}

/// An ancestor of a parent is an ancestor of the child.
pub proof fn lemma_ancestor_lift(st: State, q: u64, h: u64, c: u64)
    requires
        is_ancestor_of(st, q, h),
        st.has_node(c),
        st.parents_of(c).contains(h),
    ensures
        is_ancestor_of(st, q, c),
{
    let p = choose|p: Seq<u64>|
        #![auto]
        {
            &&& p.len() >= 1
            &&& p.first() == h
            &&& p.last() == q
            &&& (forall|i: int| 0 <= i < p.len() ==> st.has_node(#[trigger] p[i]))
            &&& (forall|i: int|
                0 <= i < p.len() - 1 ==> st.parents_of(#[trigger] p[i]).contains(p[i + 1]))
        };
    let p2 = seq![c] + p;
    assert(p2.first() == c && p2.last() == q);
    assert(forall|i: int| 1 <= i < p2.len() ==> p2[i] == p[i - 1]);
    assert forall|i: int| 0 <= i < p2.len() implies st.has_node(#[trigger] p2[i]) by {
        if i >= 1 {
            assert(p2[i] == p[i - 1]);
        }
    }
    assert forall|i: int|
        0 <= i < p2.len() - 1 implies st.parents_of(#[trigger] p2[i]).contains(p2[i + 1]) by {
        if i == 0 {
            assert(p2[0] == c && p2[1] == p[0]);
        } else {
            assert(p2[i] == p[i - 1] && p2[i + 1] == p[i]);
        }
    }
    assert(is_ancestor_of(st, q, c));
}

/// A proper ancestor is an ancestor of some parent.
pub proof fn lemma_ancestor_step(st: State, a: u64, h: u64)
    requires
        is_ancestor_of(st, a, h),
        a != h,
    ensures
        exists|k: int|
            0 <= k < st.parents_of(h).len() && is_ancestor_of(
                st,
                a,
                #[trigger] st.parents_of(h)[k],
            ),
{
    let p = choose|p: Seq<u64>|
        #![auto]
        {
            &&& p.len() >= 1
            &&& p.first() == h
            &&& p.last() == a
            &&& (forall|i: int| 0 <= i < p.len() ==> st.has_node(#[trigger] p[i]))
            &&& (forall|i: int|
                0 <= i < p.len() - 1 ==> st.parents_of(#[trigger] p[i]).contains(p[i + 1]))
        };
    assert(p.len() >= 2);
    let q = p[1];
    assert(st.parents_of(h).contains(q));
    let k = choose|k: int| 0 <= k < st.parents_of(h).len() && st.parents_of(h)[k] == q;
    let p2 = p.subrange(1, p.len() as int);
    assert(p2.len() >= 1 && p2.first() == q && p2.last() == a);
    assert(forall|i: int| 0 <= i < p2.len() ==> p2[i] == p[i + 1]);
    assert forall|i: int| 0 <= i < p2.len() implies st.has_node(#[trigger] p2[i]) by {
        assert(p2[i] == p[i + 1]);
    }
    assert forall|i: int|
        0 <= i < p2.len() - 1 implies st.parents_of(#[trigger] p2[i]).contains(p2[i + 1]) by {
        assert(p2[i] == p[i + 1] && p2[i + 1] == p[i + 2]);
    }
    assert(is_ancestor_of(st, a, st.parents_of(h)[k]));
}


/// Records that the peer has `header_id`, and with it every ancestor:
/// the known set stays duplicate-free and closed under parents, grows
/// monotonically, and gains nothing but ancestors of `header_id`.
#[verifier::rlimit(100)]
pub fn mark_as_known(state: &State, their_known: &mut Vec<u64>, header_id: u64)
    requires
        state.wf(),
        state.has_node(header_id),
        known_wf(*state, old(their_known)@),
    ensures
        known_wf(*state, final(their_known)@),
        forall|t: int|
            0 <= t < old(their_known)@.len() ==> final(their_known)@.contains(
                #[trigger] old(their_known)@[t],
            ),
        final(their_known)@.contains(header_id),
        forall|t: int|
            0 <= t < final(their_known)@.len() ==> old(their_known)@.contains(
                #[trigger] final(their_known)@[t],
            ) || is_ancestor_of(*state, final(their_known)@[t], header_id),
        final(their_known)@.len() >= old(their_known)@.len(),
        forall|t: int|
            0 <= t < old(their_known)@.len() ==> #[trigger] final(their_known)@[t] == old(their_known)@[t],
{
    let mut queue: Vec<u64> = Vec::new();
    queue.push(header_id);
    proof {
        reveal(crate::ecg::State::wf);
        reveal(known_wf);
        lemma_ancestor_refl(*state, header_id);
        state.lemma_id_set();
        crate::vecset::lemma_no_dup_len_le(their_known@, state.id_set());
        assert(queue@[0] == header_id);
        assert(queue@.contains(header_id));
    }
    while queue.len() > 0
        invariant
            state.ids_unique(),
            state.parents_closed(),
            their_known@.no_duplicates(),
            forall|t: int|
                0 <= t < their_known@.len() ==> state.has_node(#[trigger] their_known@[t]),
            forall|h: u64, k: int|
                their_known@.contains(h) && 0 <= k < state.parents_of(h).len() ==> their_known@.contains(
                    #[trigger] state.parents_of(h)[k],
                ) || queue@.contains(state.parents_of(h)[k]),
            forall|t: int|
                0 <= t < old(their_known)@.len() ==> their_known@.contains(
                    #[trigger] old(their_known)@[t],
                ),
            forall|t: int| 0 <= t < queue@.len() ==> state.has_node(#[trigger] queue@[t]),
            their_known@.contains(header_id) || queue@.contains(header_id),
            forall|t: int|
                0 <= t < queue@.len() ==> is_ancestor_of(*state, #[trigger] queue@[t], header_id),
            forall|t: int|
                0 <= t < their_known@.len() ==> old(their_known)@.contains(
                    #[trigger] their_known@[t],
                ) || is_ancestor_of(*state, their_known@[t], header_id),
            their_known@.len() <= state@.len(),
            their_known@.len() >= old(their_known)@.len(),
            forall|t: int|
                0 <= t < old(their_known)@.len() ==> #[trigger] their_known@[t] == old(their_known)@[t],
        decreases state@.len() - their_known@.len(), queue@.len(),
    {
        let ghost q0 = queue@;
        let ghost k0 = their_known@;
        let h = match queue.pop() {
            Some(h) => h,
            None => {
                proof {
                    assert(false);
                }
                0
            },
        };
        proof {
            assert(h == q0.last());
            assert(q0.contains(h));
        }
        if !vec_contains(their_known, h) {
            their_known.push(h);
            proof {
                state.lemma_id_set();
                crate::vecset::lemma_no_dup_len_le(their_known@, state.id_set());
            }
            let mut ps = match state.get_parents(&h) {
                Some(ps) => ps,
                None => {
                    proof {
                        assert(false);
                    }
                    Vec::new()
                },
            };
            proof {
                assert(ps@ == state.parents_of(h));
                state.lemma_lookup(h);
                let i = state.idx_of(h);
                assert forall|t: int| 0 <= t < ps@.len() implies state.has_node(
                    #[trigger] ps@[t]) by {
                    assert(state.parents_of(h)[t] == ps@[t]);
                    let j = choose|j: int|
                        0 <= j < i && (#[trigger] state@[j]).header.id == state@[
                            i
                        ].header.parents[t];
                }
            }
            let ghost psv = ps@;
            queue.append(&mut ps);
            proof {
                assert forall|t: int|
                    0 <= t < old(their_known)@.len() implies their_known@.contains(
                    #[trigger] old(their_known)@[t]) by {
                    assert(k0.contains(old(their_known)@[t]));
                    let tj = choose|tj: int|
                        0 <= tj < k0.len() && k0[tj] == old(their_known)@[t];
                    assert(their_known@[tj] == old(their_known)@[t]);
                }
                let base = queue@.len() - psv.len();
                assert(base == q0.len() - 1);
                assert(forall|t: int| 0 <= t < base ==> queue@[t] == q0[t]);
                assert(forall|t: int| base <= t < queue@.len() ==> queue@[t] == psv[t - base]);
                assert forall|t: int| 0 <= t < queue@.len() implies is_ancestor_of(
                    *state,
                    #[trigger] queue@[t],
                    header_id,
                ) by {
                    if t >= base {
                        assert(queue@[t] == state.parents_of(h)[t - base]);
                        assert(state.parents_of(h).contains(queue@[t]));
                        lemma_ancestor_parent(*state, header_id, h, queue@[t]);
                    } else {
                        assert(queue@[t] == q0[t]);
                    }
                }
                assert forall|h2: u64, k: int|
                    their_known@.contains(h2) && 0 <= k < state.parents_of(h2).len()
                        implies their_known@.contains(#[trigger] state.parents_of(h2)[k])
                        || queue@.contains(state.parents_of(h2)[k]) by {
                    let pq = state.parents_of(h2)[k];
                    let ti = choose|ti: int|
                        0 <= ti < their_known@.len() && their_known@[ti] == h2;
                    if ti < k0.len() {
                        assert(k0[ti] == h2);
                        assert(k0.contains(h2));
                        if k0.contains(pq) {
                            let tj = choose|tj: int| 0 <= tj < k0.len() && k0[tj] == pq;
                            assert(their_known@[tj] == pq);
                            assert(their_known@.contains(pq));
                        } else {
                            assert(q0.contains(pq));
                            let tj = choose|tj: int| 0 <= tj < q0.len() && q0[tj] == pq;
                            if tj < q0.len() - 1 {
                                assert(queue@[tj] == pq);
                                assert(queue@.contains(pq));
                            } else {
                                assert(pq == h);
                                assert(their_known@[their_known@.len() - 1] == h);
                                assert(their_known@.contains(h));
                            }
                        }
                    } else {
                        assert(h2 == h);
                        assert(state.parents_of(h) == psv);
                        assert(queue@[base + k] == psv[k]);
                        assert(queue@.contains(pq));
                    }
                }
                assert(their_known@.contains(header_id) || queue@.contains(header_id)) by {
                    if k0.contains(header_id) {
                        let tj = choose|tj: int| 0 <= tj < k0.len() && k0[tj] == header_id;
                        assert(their_known@[tj] == header_id);
                    } else {
                        assert(q0.contains(header_id));
                        let tj = choose|tj: int| 0 <= tj < q0.len() && q0[tj] == header_id;
                        if tj < q0.len() - 1 {
                            assert(queue@[tj] == header_id);
                        } else {
                            assert(h == header_id);
                            assert(their_known@[their_known@.len() - 1] == h);
                        }
                    }
                }
            }
        } else {
            proof {
                assert(k0.contains(h));
                assert forall|h2: u64, k: int|
                    their_known@.contains(h2) && 0 <= k < state.parents_of(h2).len()
                        implies their_known@.contains(#[trigger] state.parents_of(h2)[k])
                        || queue@.contains(state.parents_of(h2)[k]) by {
                    let pq = state.parents_of(h2)[k];
                    if !k0.contains(pq) {
                        assert(q0.contains(pq));
                        let tj = choose|tj: int| 0 <= tj < q0.len() && q0[tj] == pq;
                        if tj < q0.len() - 1 {
                            assert(queue@[tj] == pq);
                            assert(queue@.contains(pq));
                        } else {
                            assert(pq == h);
                        }
                    }
                }
                assert(their_known@.contains(header_id) || queue@.contains(header_id)) by {
                    if !k0.contains(header_id) {
                        assert(q0.contains(header_id));
                        let tj = choose|tj: int| 0 <= tj < q0.len() && q0[tj] == header_id;
                        if tj < q0.len() - 1 {
                            assert(queue@[tj] == header_id);
                        } else {
                            assert(h == header_id);
                        }
                    }
                }
            }
        }
    }
    proof {
        reveal(known_wf);
        assert(their_known@.contains(header_id));
    }
}

/// A valid parent path that starts inside a closed known set stays
/// inside it.
proof fn lemma_path_closed(st: State, known: Seq<u64>, p: Seq<u64>)
    requires
        known_wf(st, known),
        p.len() >= 1,
        known.contains(p.first()),
        forall|i: int| 0 <= i < p.len() ==> st.has_node(#[trigger] p[i]),
        forall|i: int| 0 <= i < p.len() - 1 ==> st.parents_of(#[trigger] p[i]).contains(p[i + 1]),
    ensures
        known.contains(p.last()),
    decreases p.len(),
{
    reveal(known_wf);
    if p.len() > 1 {
        let q = p.subrange(1, p.len() as int);
        assert(st.parents_of(p[0]).contains(p[1]));
        let k = choose|k: int| 0 <= k < st.parents_of(p[0]).len() && st.parents_of(p[0])[k] == p[1];
        assert(known.contains(st.parents_of(p[0])[k]));
        assert(q.first() == p[1]);
        assert(forall|i: int| 0 <= i < q.len() ==> q[i] == p[i + 1]);
        assert forall|i: int| 0 <= i < q.len() - 1 implies st.parents_of(
            #[trigger] q[i]).contains(q[i + 1]) by {
            assert(q[i] == p[i + 1] && q[i + 1] == p[i + 2]);
        }
        lemma_path_closed(st, known, q);
        assert(q.last() == p.last());
    }
}

/// A closed known set that holds a node holds all its ancestors.
proof fn lemma_known_closed_ancestors(st: State, known: Seq<u64>, a: u64, h: u64)
    requires
        known_wf(st, known),
        known.contains(h),
        is_ancestor_of(st, a, h),
    ensures
        known.contains(a),
{
    let p = choose|p: Seq<u64>|
        #![auto]
        {
            &&& p.len() >= 1
            &&& p.first() == h
            &&& p.last() == a
            &&& (forall|i: int| 0 <= i < p.len() ==> st.has_node(#[trigger] p[i]))
            &&& (forall|i: int|
                0 <= i < p.len() - 1 ==> st.parents_of(#[trigger] p[i]).contains(p[i + 1]))
        };
    lemma_path_closed(st, known, p);
}

/// A known set valid for a graph stays valid for any extension of it.
proof fn lemma_known_wf_extends(pre: State, post: State, known: Seq<u64>)
    requires
        known_wf(pre, known),
        extends(pre, post),
    ensures
        known_wf(post, known),
{
    reveal(known_wf);
    assert forall|h: u64, k: int|
        known.contains(h) && 0 <= k < post.parents_of(h).len() implies known.contains(
        #[trigger] post.parents_of(h)[k]) by {
        let t = choose|t: int| 0 <= t < known.len() && known[t] == h;
        assert(pre.has_node(h));
        assert(post.parents_of(h) == pre.parents_of(h));
    }
}

/// `extends` composes.
proof fn lemma_extends_trans(a: State, b: State, c: State)
    requires
        extends(a, b),
        extends(b, c),
    ensures
        extends(a, c),
{
    assert forall|h: u64| #[trigger] a.has_node(h) implies c.has_node(h) && c.node_of(h)
        == a.node_of(h) by {
        assert(b.has_node(h));
    }
}

/// The scratchpad's probe record and known set never outgrow the
/// graph they refer to.
proof fn lemma_wf_for_bounds(ss: ECGSyncState, st: State)
    requires
        ss.wf_for(st),
        st.ids_unique(),
    ensures
        ss.probed_ids().len() <= st@.len(),
        ss.known_ids().len() <= st@.len(),
{
    reveal(ECGSyncState::wf_for);
    reveal(known_wf);
    st.lemma_id_set();
    crate::vecset::lemma_no_dup_len_le(ss.probed_ids(), st.id_set());
    crate::vecset::lemma_no_dup_len_le(ss.known_ids(), st.id_set());
}

/// A graph whose nodes all come from two sources holds at most as many
/// nodes as the two together.
proof fn lemma_union_bound(l: State, a: State, b: State)
    requires
        l.ids_unique(),
        a.ids_unique(),
        b.ids_unique(),
        forall|h: u64| l.has_node(h) ==> a.has_node(h) || b.has_node(h),
    ensures
        l@.len() <= a@.len() + b@.len(),
{
    l.lemma_id_set();
    a.lemma_id_set();
    b.lemma_id_set();
    assert forall|h: u64|
        l.id_set().contains(h) implies a.id_set().union(b.id_set()).contains(h) by {
        assert(l.has_node(h));
    }
    assert(l.id_set().subset_of(a.id_set().union(b.id_set())));
    vstd::set_lib::lemma_len_subset(l.id_set(), a.id_set().union(b.id_set()));
    vstd::set_lib::lemma_len_union(a.id_set(), b.id_set());
}

/// A graph extension never shrinks the node count.
proof fn lemma_extends_len(pre: State, post: State)
    requires
        pre.ids_unique(),
        post.ids_unique(),
        extends(pre, post),
    ensures
        post@.len() >= pre@.len(),
{
    pre.lemma_id_set();
    post.lemma_id_set();
    assert forall|h: u64| pre.id_set().contains(h) implies post.id_set().contains(h) by {
        assert(pre.has_node(h));
    }
    assert(pre.id_set().subset_of(post.id_set()));
    vstd::set_lib::lemma_len_subset(pre.id_set(), post.id_set());
}

/// Accepting a fresh header extends the graph.
proof fn lemma_insert_extends(pre: State, post: State, n: crate::ecg::SpecNode)
    requires
        pre.ids_unique(),
        post@ == pre@.push(n),
        !pre.has_node(n.header.id),
    ensures
        extends(pre, post),
{
    assert forall|h: u64| #[trigger] pre.has_node(h) implies post.has_node(h) && post.node_of(h)
        == pre.node_of(h) by {
        pre.lemma_lookup(h);
        State::lemma_push_preserves_lookup(pre, post, h);
    }
}

/// `x` was learned from a confirmed proposal: some set bit of the
/// peer's bitmap names a sent have of which `x` is an ancestor.
#[verifier::opaque]
pub open spec fn gained_from_bits(
    st: State,
    haves: Seq<u64>,
    bits: HeaderBitmap,
    x: u64,
) -> bool {
    exists|i: int|
        0 <= i < haves.len() && bits.spec_get(i) && is_ancestor_of(st, x, haves[i])
}

/// `x` was learned from a held entry of a received have list.
#[verifier::opaque]
pub open spec fn gained_from_held(st: State, have: Seq<u64>, x: u64) -> bool {
    exists|i: int|
        0 <= i < have.len() && st.has_node(have[i]) && is_ancestor_of(st, x, have[i])
}

/// `e` was queued while handling a have list: it is a child of a held
/// entry.
#[verifier::opaque]
pub open spec fn queued_from_held(st: State, have: Seq<u64>, e: (u64, u64)) -> bool {
    exists|i: int|
        0 <= i < have.len() && st.has_node(#[trigger] have[i]) && st.is_child_of(e.1, have[i])
}

/// `e` was queued while handling a known bitmap: a child of a confirmed
/// proposal, or a denied proposal itself, at its depth.
#[verifier::opaque]
pub open spec fn queued_from_bits(
    st: State,
    haves: Seq<u64>,
    bits: HeaderBitmap,
    e: (u64, u64),
) -> bool {
    exists|i: int|
        0 <= i < haves.len() && ((#[trigger] bits.spec_get(i)) && st.is_child_of(e.1, haves[i])
            || !bits.spec_get(i) && e == (st.depth_of(haves[i]), haves[i]))
}

/// `id` descends from (or is) an entry of the delivery queue handed in.
#[verifier::opaque]
pub open spec fn from_delivery_queue(st: State, q: Seq<(u64, u64)>, id: u64) -> bool {
    exists|i: int| 0 <= i < q.len() && is_ancestor_of(st, (#[trigger] q[i]).1, id)
}

/// Inserts one received header, reporting whether it now stands in the
/// graph (inserted now, or already present).
fn take_header(state: &mut State, hd: Header) -> (r: bool)
    requires
        old(state).wf(),
    ensures
        final(state).wf(),
        extends(*old(state), *final(state)),
        r == final(state).has_node(hd@.id),
        forall|h: u64| final(state).has_node(h) ==> old(state).has_node(h) || h == hd@.id,
        old(state).can_insert(hd@.id, hd@) ==> r,
        r && !old(state).has_node(hd@.id) ==> final(state).node_of(hd@.id).header == hd@,
        final(state)@.len() <= old(state)@.len() + 1,
        crate::ecg::total_parents(final(state)@) <= crate::ecg::total_parents(old(state)@)
            + hd@.parents.len(),
{
    proof {
        reveal(crate::ecg::State::wf);
    }
    let hid = hd.header_id;
    let ghost hdg = hd@;
    let ghost pre = *state;
    let accepted = state.insert_header(hid, hd);
    proof {
        if accepted {
            lemma_insert_extends(pre, *state, pre.inserted_node(hdg));
            assert(state@[state@.len() - 1].header.id == hid);
            assert(state.has_node(hid));
            crate::ecg::lemma_total_parents_push(pre@, pre.inserted_node(hdg));
            reveal(crate::ecg::State::wf);
            state.lemma_lookup(hid);
            assert(state.idx_of(hid) == state@.len() - 1);
            assert(state.node_of(hid).header == hdg);
        } else {
            assert(*state == pre);
            assert forall|h: u64| #[trigger] pre.has_node(h) implies state.has_node(h)
                && state.node_of(h) == pre.node_of(h) by {}
        }
        assert forall|h: u64| state.has_node(h) implies pre.has_node(h) || h == hdg.id by {
            if accepted && !pre.has_node(h) {
                state.lemma_lookup(h);
                assert(state@[state.idx_of(h)].header.id == h);
                assert(state.idx_of(h) == state@.len() - 1);
            }
        }
    }
    if accepted {
        true
    } else {
        state.contains(&hid)
    }
}

/// Whether the batch names this id.
#[verifier::opaque]
pub open spec fn named_in(hs: Seq<Header>, h: u64) -> bool {
    exists|i: int| 0 <= i < hs.len() && (#[trigger] hs[i])@.id == h
}

/// Whether the batch carries exactly this header.
#[verifier::opaque]
pub open spec fn stored_from(hs: Seq<Header>, nd: crate::ecg::SpecHeader) -> bool {
    exists|i: int| 0 <= i < hs.len() && (#[trigger] hs[i])@ == nd
}

/// The sum of the parent-list lengths over a batch of headers.
pub open spec fn batch_parents(hs: Seq<Header>) -> int
    decreases hs.len(),
{
    if hs.len() == 0 {
        0
    } else {
        batch_parents(hs.drop_last()) + hs.last()@.parents.len()
    }
}

/// Prefix sums of a batch's parent counts grow one header at a time and
/// never exceed the whole batch's count.
pub proof fn lemma_batch_parents_take(hs: Seq<Header>, i: int)
    requires
        0 <= i < hs.len(),
    ensures
        batch_parents(hs.take(i + 1)) == batch_parents(hs.take(i)) + hs[i]@.parents.len(),
        batch_parents(hs.take(i + 1)) <= batch_parents(hs),
    decreases hs.len() - i,
{
    assert(hs.take(i + 1).drop_last() =~= hs.take(i));
    assert(hs.take(i + 1).last() == hs[i]);
    if i + 1 == hs.len() {
        assert(hs.take(i + 1) =~= hs);
    } else {
        lemma_batch_parents_take(hs, i + 1);
    }
}

/// Every prefix sum of a batch's parent counts is at most the whole
/// batch's count.
pub proof fn lemma_batch_parents_prefix(hs: Seq<Header>, i: int)
    requires
        0 <= i <= hs.len(),
    ensures
        batch_parents(hs.take(i)) <= batch_parents(hs),
    decreases hs.len() - i,
{
    if i == hs.len() {
        assert(hs.take(i) =~= hs);
    } else {
        lemma_batch_parents_take(hs, i);
        lemma_batch_parents_prefix(hs, i + 1);
    }
}

/// Handle (and verify) headers they sent to us: each header that
/// validates and whose parents are all present at its turn is inserted;
/// the graph only grows, gains only ids the batch names, and every
/// gained node stores a header the batch carried. Returns true exactly
/// when every header of the batch now stands in the graph.
#[verifier::rlimit(100)]
pub fn handle_received_headers(state: &mut State, headers: Vec<Header>) -> (r: bool)
    requires
        old(state).wf(),
    ensures
        final(state).wf(),
        extends(*old(state), *final(state)),
        forall|h: u64|
            final(state).has_node(h) ==> old(state).has_node(h) || named_in(headers@, h),
        forall|h: u64|
            final(state).has_node(h) && !old(state).has_node(h) ==> stored_from(
                headers@,
                final(state).node_of(h).header,
            ),
        r == (forall|i: int|
            0 <= i < headers@.len() ==> final(state).has_node((#[trigger] headers@[i])@.id)),
        // insertion is owed: with room for the whole batch, every header
        // that was insertable up front stands in the graph afterwards
        (old(state)@.len() + headers@.len() <= 0xffff_fffe && crate::ecg::total_parents(
            old(state)@,
        ) + batch_parents(headers@) < 0xffff_ffff) ==> forall|i: int|
            0 <= i < headers@.len() && old(state).can_insert(
                (#[trigger] headers@[i])@.id,
                headers@[i]@,
            ) ==> final(state).has_node(headers@[i]@.id),
{
    let mut i: usize = 0;
    while i < headers.len()
        invariant
            state.wf(),
            extends(*old(state), *state),
            0 <= i <= headers@.len(),
            state@.len() <= old(state)@.len() + i,
            crate::ecg::total_parents(state@) <= crate::ecg::total_parents(old(state)@)
                + batch_parents(headers@.take(i as int)),
            forall|h: u64|
                state.has_node(h) ==> old(state).has_node(h) || named_in(headers@, h),
            forall|h: u64|
                state.has_node(h) && !old(state).has_node(h) ==> stored_from(
                    headers@,
                    state.node_of(h).header,
                ),
            (old(state)@.len() + headers@.len() <= 0xffff_fffe && crate::ecg::total_parents(
                old(state)@,
            ) + batch_parents(headers@) < 0xffff_ffff) ==> forall|t: int|
                0 <= t < i && old(state).can_insert(
                    (#[trigger] headers@[t])@.id,
                    headers@[t]@,
                ) ==> state.has_node(headers@[t]@.id),
        decreases headers@.len() - i,
    {
        let hd = copy_header(&headers[i]);
        let ghost pre = *state;
        let present = take_header(state, hd);
        proof {
            lemma_extends_trans(*old(state), pre, *state);
            lemma_batch_parents_take(headers@, i as int);
            assert forall|h: u64|
                state.has_node(h) implies old(state).has_node(h) || named_in(headers@, h) by {
                if !pre.has_node(h) {
                    assert(h == headers@[i as int]@.id);
                    reveal(named_in);
                }
            }
            assert forall|h: u64|
                state.has_node(h) && !old(state).has_node(h) implies stored_from(
                headers@,
                state.node_of(h).header,
            ) by {
                if pre.has_node(h) {
                    assert(stored_from(headers@, pre.node_of(h).header));
                    assert(state.node_of(h) == pre.node_of(h));
                } else {
                    assert(h == headers@[i as int]@.id);
                    assert(present);
                    assert(state.node_of(h).header == headers@[i as int]@);
                    reveal(stored_from);
                }
            }
            if old(state)@.len() + headers@.len() <= 0xffff_fffe && crate::ecg::total_parents(
                old(state)@,
            ) + batch_parents(headers@) < 0xffff_ffff {
                lemma_batch_parents_prefix(headers@, i + 1);
                assert forall|t: int|
                    0 <= t < i + 1 && old(state).can_insert(
                        (#[trigger] headers@[t])@.id,
                        headers@[t]@,
                    ) implies state.has_node(headers@[t]@.id) by {
                    if t < i {
                        assert(pre.has_node(headers@[t]@.id));
                    } else {
                        if !pre.has_node(headers@[t]@.id) {
                            // still insertable when its turn came: the
                            // batch's room bounds both budgets
                            assert(pre.can_insert(hd@.id, hd@)) by {
                                assert(hd@ == headers@[i as int]@);
                                assert forall|k: int|
                                    0 <= k < hd@.parents.len() implies pre.has_node(
                                    #[trigger] hd@.parents[k]) by {
                                    assert(old(state).has_node(hd@.parents[k]));
                                }
                                assert(pre@.len() < 0xffff_fffe);
                                assert(crate::ecg::total_parents(pre@) + hd@.parents.len()
                                    < 0xffff_ffff);
                            }
                        }
                    }
                }
            }
        }
        i += 1;
    }
    proof {
        assert(headers@.take(headers@.len() as int) =~= headers@);
    }
    // report whether the whole batch now stands in the graph
    let mut all_present = true;
    let mut j: usize = 0;
    proof {
        reveal(crate::ecg::State::wf);
    }
    while j < headers.len()
        invariant
            state.ids_unique(),
            0 <= j <= headers@.len(),
            all_present == (forall|t: int|
                0 <= t < j ==> state.has_node((#[trigger] headers@[t])@.id)),
        decreases headers@.len() - j,
    {
        if !state.contains(&headers[j].header_id) {
            all_present = false;
            proof {
                assert(!state.has_node(headers@[j as int]@.id));
            }
        }
        j += 1;
    }
    all_present
}

/// Marks a held entry as known (with its ancestors)/// Marks a held entry as known (with its ancestors) and queues its
/// children, with their depths, for delivery.
#[verifier::rlimit(100)]
fn absorb_held(
    state: &State,
    their_known: &mut Vec<u64>,
    send_queue: &mut Vec<(u64, u64)>,
    h: u64,
)
    requires
        state.wf(),
        known_wf(*state, old(their_known)@),
        state.has_node(h),
    ensures
        known_wf(*state, final(their_known)@),
        forall|t: int|
            0 <= t < old(their_known)@.len() ==> final(their_known)@.contains(
                #[trigger] old(their_known)@[t],
            ),
        final(their_known)@.contains(h),
        forall|t: int|
            0 <= t < final(their_known)@.len() ==> old(their_known)@.contains(
                #[trigger] final(their_known)@[t],
            ) || is_ancestor_of(*state, final(their_known)@[t], h),
        final(their_known)@.len() >= old(their_known)@.len(),
        forall|t: int|
            0 <= t < old(their_known)@.len() ==> #[trigger] final(their_known)@[t] == old(their_known)@[t],
        forall|t: int|
            0 <= t < old(send_queue)@.len() ==> #[trigger] final(send_queue)@[t] == old(send_queue)@[t],
        final(send_queue)@.len() >= old(send_queue)@.len(),
        forall|t: int|
            old(send_queue)@.len() <= t < final(send_queue)@.len() ==> state.has_node(
                (#[trigger] final(send_queue)@[t]).1,
            ) && final(send_queue)@[t].0 == state.depth_of(final(send_queue)@[t].1)
                && state.is_child_of(final(send_queue)@[t].1, h),
        // every child of the held entry is queued for delivery
        forall|c: u64|
            #[trigger] state.is_child_of(c, h) ==> final(send_queue)@.contains(
                (state.depth_of(c), c),
            ),
{
    proof {
        reveal(crate::ecg::State::wf);
    }
    mark_as_known(state, their_known, h);
    let children = match state.get_children_with_depth(&h) {
        Some(ch) => ch,
        None => {
            proof {
                assert(false);
            }
            Vec::new()
        },
    };
    let mut t: usize = 0;
    let ghost sq0 = send_queue@;
    while t < children.len()
        invariant
            0 <= t <= children@.len(),
            send_queue@ == sq0 + children@.take(t as int),
            forall|tt: int|
                0 <= tt < children@.len() ==> state.is_child_of(
                    (#[trigger] children@[tt]).1,
                    h,
                ) && children@[tt].0 == state.depth_of(children@[tt].1),
        decreases children@.len() - t,
    {
        send_queue.push(children[t]);
        proof {
            assert(send_queue@ =~= sq0 + children@.take(t as int + 1));
        }
        t += 1;
    }
    proof {
        assert(send_queue@ =~= sq0 + children@);
        assert forall|c: u64| #[trigger] state.is_child_of(c, h) implies send_queue@.contains(
            (state.depth_of(c), c),
        ) by {
            let tt = choose|tt: int|
                0 <= tt < children@.len() && (#[trigger] children@[tt]).1 == c;
            assert(children@[tt] == (state.depth_of(c), c));
            assert(send_queue@[sq0.len() + tt] == children@[tt]);
        }
    }
}

/// Handles the haves the peer sent: absorbs the leading entries as
/// their tips while the tip counter runs, answers with a bitmap saying
/// exactly which entries we hold, records held entries (and their
/// ancestors) as known, and queues their children for delivery.
#[verifier::rlimit(100)]
pub fn handle_received_have(
    state: &State,
    their_tips_remaining: &mut u16,
    their_tips: &mut Vec<u64>,
    their_known: &mut Vec<u64>,
    send_queue: &mut Vec<(u64, u64)>,
    have: &Vec<u64>,
    known_bitmap: &mut HeaderBitmap,
)
    requires
        state.wf(),
        known_wf(*state, old(their_known)@),
        have@.len() <= 32,
    ensures
        known_wf(*state, final(their_known)@),
        forall|t: int|
            0 <= t < old(their_known)@.len() ==> final(their_known)@.contains(
                #[trigger] old(their_known)@[t],
            ),
        forall|i: int|
            0 <= i < have@.len() ==> final(known_bitmap).spec_get(i) == state.has_node(
                #[trigger] have@[i],
            ),
        forall|i: int| have@.len() <= i < 32 ==> !final(known_bitmap).spec_get(i),
        forall|i: int|
            0 <= i < have@.len() && state.has_node(#[trigger] have@[i]) ==> final(their_known)@.contains(have@[i]),
        final(their_known)@.len() >= old(their_known)@.len(),
        // the known set gains nothing beyond held entries and their
        // ancestors
        forall|t: int|
            0 <= t < final(their_known)@.len() ==> old(their_known)@.contains(
                #[trigger] final(their_known)@[t],
            ) || gained_from_held(*state, have@, final(their_known)@[t]),
        *final(their_tips_remaining) == if *old(their_tips_remaining) as int <= have@.len() {
            0u16
        } else {
            (*old(their_tips_remaining) - have@.len()) as u16
        },
        final(their_tips)@ == old(their_tips)@ + have@.take(
            if *old(their_tips_remaining) as int <= have@.len() {
                *old(their_tips_remaining) as int
            } else {
                have@.len() as int
            },
        ),
        forall|t: int|
            0 <= t < old(send_queue)@.len() ==> #[trigger] final(send_queue)@[t] == old(send_queue)@[t],
        final(send_queue)@.len() >= old(send_queue)@.len(),
        forall|t: int|
            old(send_queue)@.len() <= t < final(send_queue)@.len() ==> state.has_node(
                (#[trigger] final(send_queue)@[t]).1,
            ) && final(send_queue)@[t].0 == state.depth_of(final(send_queue)@[t].1),
        // every child of a held entry is queued for delivery, and only
        // such children are queued
        forall|i: int, c: u64|
            0 <= i < have@.len() && state.has_node(#[trigger] have@[i])
                && #[trigger] state.is_child_of(c, have@[i]) ==> final(send_queue)@.contains(
                (state.depth_of(c), c),
            ),
        forall|t: int|
            old(send_queue)@.len() <= t < final(send_queue)@.len() ==> queued_from_held(
                *state,
                have@,
                #[trigger] final(send_queue)@[t],
            ),
        // a list with nothing we hold changes neither record
        (forall|i: int| 0 <= i < have@.len() ==> !state.has_node(#[trigger] have@[i]))
            ==> final(send_queue)@ == old(send_queue)@ && final(their_known)@ == old(their_known)@,
{
    let rem: usize = *their_tips_remaining as usize;
    let c: usize = if rem <= have.len() {
        rem
    } else {
        have.len()
    };
    let mut k: usize = 0;
    while k < c
        invariant
            0 <= k <= c <= have@.len(),
            their_tips@ == old(their_tips)@ + have@.take(k as int),
        decreases c - k,
    {
        their_tips.push(have[k]);
        proof {
            assert(their_tips@ =~= old(their_tips)@ + have@.take(k as int + 1));
        }
        k += 1;
    }
    *their_tips_remaining = *their_tips_remaining - c as u16;
    *known_bitmap = HeaderBitmap::new();
    proof {
        reveal(crate::ecg::State::wf);
    }
    let mut i: usize = 0;
    while i < have.len()
        invariant
            state.wf(),
            state.ids_unique(),
            have@.len() <= 32,
            0 <= i <= have@.len(),
            known_wf(*state, their_known@),
            their_known@.len() >= old(their_known)@.len(),
            forall|t: int|
                0 <= t < old(their_known)@.len() ==> their_known@.contains(
                    #[trigger] old(their_known)@[t],
                ),
            forall|j: int|
                0 <= j < i ==> known_bitmap.spec_get(j) == state.has_node(#[trigger] have@[j]),
            forall|j: int| i <= j < 32 ==> !known_bitmap.spec_get(j),
            forall|j: int|
                0 <= j < i && state.has_node(#[trigger] have@[j]) ==> their_known@.contains(
                    have@[j],
                ),
            forall|t: int|
                0 <= t < their_known@.len() ==> old(their_known)@.contains(
                    #[trigger] their_known@[t],
                ) || gained_from_held(*state, have@, their_known@[t]),
            forall|t: int|
                0 <= t < old(send_queue)@.len() ==> #[trigger] send_queue@[t] == old(send_queue)@[t],
            send_queue@.len() >= old(send_queue)@.len(),
            forall|t: int|
                old(send_queue)@.len() <= t < send_queue@.len() ==> state.has_node(
                    (#[trigger] send_queue@[t]).1,
                ) && send_queue@[t].0 == state.depth_of(send_queue@[t].1),
            forall|j: int, c: u64|
                0 <= j < i && state.has_node(#[trigger] have@[j]) && #[trigger] state.is_child_of(
                    c,
                    have@[j],
                ) ==> send_queue@.contains((state.depth_of(c), c)),
            forall|t: int|
                old(send_queue)@.len() <= t < send_queue@.len() ==> queued_from_held(
                    *state,
                    have@,
                    #[trigger] send_queue@[t],
                ),
            (forall|j: int| 0 <= j < i ==> !state.has_node(#[trigger] have@[j])) ==> send_queue@
                == old(send_queue)@ && their_known@ == old(their_known)@,
        decreases have@.len() - i,
    {
        let h = have[i];
        let ghost known_before = their_known@;
        let ghost sq_before = send_queue@;
        if state.contains(&h) {
            absorb_held(state, their_known, send_queue, h);
            known_bitmap.set(i, true);
            proof {
                assert forall|t: int|
                    old(send_queue)@.len() <= t < send_queue@.len() implies queued_from_held(
                    *state,
                    have@,
                    #[trigger] send_queue@[t],
                ) by {
                    if t >= sq_before.len() {
                        assert(state.is_child_of(send_queue@[t].1, h));
                        assert(state.has_node(have@[i as int]));
                        reveal(queued_from_held);
                    } else {
                        assert(send_queue@[t] == sq_before[t]);
                    }
                }
            }
            proof {
                assert forall|j: int, c: u64|
                    0 <= j < i + 1 && state.has_node(#[trigger] have@[j])
                        && #[trigger] state.is_child_of(c, have@[j]) implies send_queue@.contains(
                    (state.depth_of(c), c)) by {
                    if j < i {
                        assert(sq_before.contains((state.depth_of(c), c)));
                        let u = choose|u: int|
                            0 <= u < sq_before.len() && sq_before[u] == (state.depth_of(c), c);
                        assert(send_queue@[u] == (state.depth_of(c), c));
                    } else {
                        assert(state.is_child_of(c, h));
                    }
                }
            }
            proof {
                assert forall|t: int|
                    0 <= t < old(their_known)@.len() implies their_known@.contains(
                    #[trigger] old(their_known)@[t]) by {
                    assert(known_before.contains(old(their_known)@[t]));
                    let tj = choose|tj: int|
                        0 <= tj < known_before.len() && known_before[tj] == old(their_known)@[t];
                }
                assert forall|j: int|
                    0 <= j < i && state.has_node(#[trigger] have@[j]) implies their_known@.contains(
                    have@[j]) by {
                    assert(known_before.contains(have@[j]));
                    let tj = choose|tj: int|
                        0 <= tj < known_before.len() && known_before[tj] == have@[j];
                }
                assert forall|t: int|
                    0 <= t < their_known@.len() implies old(their_known)@.contains(
                    #[trigger] their_known@[t]) || gained_from_held(
                    *state,
                    have@,
                    their_known@[t],
                ) by {
                    let x = their_known@[t];
                    if !known_before.contains(x) {
                        assert(is_ancestor_of(*state, x, h));
                        assert(state.has_node(have@[i as int]));
                        reveal(gained_from_held);
                    }
                }
            }
        } else {
            known_bitmap.set(i, false);
        }
        i += 1;
    }
}

/// Handles the peer's `known` bitmap: each set bit proves they hold the
/// matching entry of our last `have` list, so it is marked known (with
/// its ancestors) and its children become delivery candidates; a clear
/// bit queues the entry itself for delivery.
#[verifier::rlimit(100)]
pub fn handle_received_known(
    state: &State,
    their_known: &mut Vec<u64>,
    send_queue: &mut Vec<(u64, u64)>,
    sent_haves: &Vec<u64>,
    received_known: &HeaderBitmap,
)
    requires
        state.wf(),
        known_wf(*state, old(their_known)@),
        sent_haves@.len() <= 32,
        forall|t: int| 0 <= t < sent_haves@.len() ==> state.has_node(#[trigger] sent_haves@[t]),
    ensures
        known_wf(*state, final(their_known)@),
        forall|t: int|
            0 <= t < old(their_known)@.len() ==> final(their_known)@.contains(
                #[trigger] old(their_known)@[t],
            ),
        forall|i: int|
            0 <= i < sent_haves@.len() && received_known.spec_get(i) ==> final(their_known)@.contains(#[trigger] sent_haves@[i]),
        final(their_known)@.len() >= old(their_known)@.len(),
        // the known set gains nothing beyond confirmed proposals and
        // their ancestors
        forall|t: int|
            0 <= t < final(their_known)@.len() ==> old(their_known)@.contains(
                #[trigger] final(their_known)@[t],
            ) || gained_from_bits(*state, sent_haves@, *received_known, final(their_known)@[t]),
        forall|t: int|
            0 <= t < old(send_queue)@.len() ==> #[trigger] final(send_queue)@[t] == old(send_queue)@[t],
        final(send_queue)@.len() >= old(send_queue)@.len(),
        forall|t: int|
            old(send_queue)@.len() <= t < final(send_queue)@.len() ==> state.has_node(
                (#[trigger] final(send_queue)@[t]).1,
            ) && final(send_queue)@[t].0 == state.depth_of(final(send_queue)@[t].1),
        // every child of a confirmed proposal is queued for delivery;
        // each queued entry is such a child or a denied proposal itself
        forall|i: int, c: u64|
            0 <= i < sent_haves@.len() && received_known.spec_get(i)
                && #[trigger] state.is_child_of(c, #[trigger] sent_haves@[i]) ==> final(send_queue)@.contains((state.depth_of(c), c)),
        forall|t: int|
            old(send_queue)@.len() <= t < final(send_queue)@.len() ==> queued_from_bits(
                *state,
                sent_haves@,
                *received_known,
                #[trigger] final(send_queue)@[t],
            ),
        // a bitmap with no set bit teaches us nothing new
        (forall|i: int| 0 <= i < sent_haves@.len() ==> !received_known.spec_get(i)) ==> final(their_known)@ == old(their_known)@,
{
    let mut i: usize = 0;
    while i < sent_haves.len()
        invariant
            state.wf(),
            sent_haves@.len() <= 32,
            forall|t: int|
                0 <= t < sent_haves@.len() ==> state.has_node(#[trigger] sent_haves@[t]),
            0 <= i <= sent_haves@.len(),
            known_wf(*state, their_known@),
            their_known@.len() >= old(their_known)@.len(),
            forall|t: int|
                0 <= t < old(their_known)@.len() ==> their_known@.contains(
                    #[trigger] old(their_known)@[t],
                ),
            forall|j: int|
                0 <= j < i && received_known.spec_get(j) ==> their_known@.contains(
                    #[trigger] sent_haves@[j],
                ),
            forall|t: int|
                0 <= t < their_known@.len() ==> old(their_known)@.contains(
                    #[trigger] their_known@[t],
                ) || gained_from_bits(*state, sent_haves@, *received_known, their_known@[t]),
            forall|t: int|
                0 <= t < old(send_queue)@.len() ==> #[trigger] send_queue@[t] == old(send_queue)@[t],
            send_queue@.len() >= old(send_queue)@.len(),
            forall|t: int|
                old(send_queue)@.len() <= t < send_queue@.len() ==> state.has_node(
                    (#[trigger] send_queue@[t]).1,
                ) && send_queue@[t].0 == state.depth_of(send_queue@[t].1),
            forall|j: int, c: u64|
                0 <= j < i && received_known.spec_get(j) && #[trigger] state.is_child_of(
                    c,
                    #[trigger] sent_haves@[j],
                ) ==> send_queue@.contains((state.depth_of(c), c)),
            forall|t: int|
                old(send_queue)@.len() <= t < send_queue@.len() ==> queued_from_bits(
                    *state,
                    sent_haves@,
                    *received_known,
                    #[trigger] send_queue@[t],
                ),
            (forall|j: int| 0 <= j < i ==> !received_known.spec_get(j)) ==> their_known@ == old(their_known)@,
        decreases sent_haves@.len() - i,
    {
        let h = sent_haves[i];
        let ghost known_before = their_known@;
        let ghost sq_before = send_queue@;
        if received_known.get(i) {
            absorb_held(state, their_known, send_queue, h);
            proof {
                assert forall|t: int|
                    old(send_queue)@.len() <= t < send_queue@.len() implies queued_from_bits(
                    *state,
                    sent_haves@,
                    *received_known,
                    #[trigger] send_queue@[t],
                ) by {
                    if t >= sq_before.len() {
                        assert(state.is_child_of(send_queue@[t].1, h));
                        assert(received_known.spec_get(i as int));
                        reveal(queued_from_bits);
                    } else {
                        assert(send_queue@[t] == sq_before[t]);
                    }
                }
                assert forall|j: int, c: u64|
                    0 <= j < i + 1 && received_known.spec_get(j) && #[trigger] state.is_child_of(
                        c,
                        #[trigger] sent_haves@[j],
                    ) implies send_queue@.contains((state.depth_of(c), c)) by {
                    if j < i {
                        assert(sq_before.contains((state.depth_of(c), c)));
                        let u = choose|u: int|
                            0 <= u < sq_before.len() && sq_before[u] == (state.depth_of(c), c);
                        assert(send_queue@[u] == (state.depth_of(c), c));
                    } else {
                        assert(state.is_child_of(c, h));
                    }
                }
            }
            proof {
                assert forall|t: int|
                    0 <= t < old(their_known)@.len() implies their_known@.contains(
                    #[trigger] old(their_known)@[t]) by {
                    assert(known_before.contains(old(their_known)@[t]));
                    let tj = choose|tj: int|
                        0 <= tj < known_before.len() && known_before[tj] == old(their_known)@[t];
                }
                assert forall|j: int|
                    0 <= j < i && received_known.spec_get(j) implies their_known@.contains(
                    #[trigger] sent_haves@[j]) by {
                    assert(known_before.contains(sent_haves@[j]));
                    let tj = choose|tj: int|
                        0 <= tj < known_before.len() && known_before[tj] == sent_haves@[j];
                }
                assert forall|t: int|
                    0 <= t < their_known@.len() implies old(their_known)@.contains(
                    #[trigger] their_known@[t]) || gained_from_bits(
                    *state,
                    sent_haves@,
                    *received_known,
                    their_known@[t],
                ) by {
                    let x = their_known@[t];
                    if !known_before.contains(x) {
                        assert(is_ancestor_of(*state, x, h));
                        assert(received_known.spec_get(i as int));
                        reveal(gained_from_bits);
                    }
                }
            }
        } else {
            let d = match state.get_header_depth(&h) {
                Some(d) => d,
                None => {
                    proof {
                        assert(false);
                    }
                    0
                },
            };
            send_queue.push((d, h));
            proof {
                assert forall|t: int|
                    old(send_queue)@.len() <= t < send_queue@.len() implies queued_from_bits(
                    *state,
                    sent_haves@,
                    *received_known,
                    #[trigger] send_queue@[t],
                ) by {
                    if t == send_queue@.len() - 1 {
                        assert(send_queue@[t] == (state.depth_of(h), h));
                        assert(!received_known.spec_get(i as int));
                        reveal(queued_from_bits);
                    } else {
                        assert(send_queue@[t] == sq_before[t]);
                    }
                }
                assert forall|j: int, c: u64|
                    0 <= j < i + 1 && received_known.spec_get(j) && #[trigger] state.is_child_of(
                        c,
                        #[trigger] sent_haves@[j],
                    ) implies send_queue@.contains((state.depth_of(c), c)) by {
                    assert(sq_before.contains((state.depth_of(c), c)));
                    let u = choose|u: int|
                        0 <= u < sq_before.len() && sq_before[u] == (state.depth_of(c), c);
                    assert(send_queue@[u] == (state.depth_of(c), c));
                }
            }
        }
        i += 1;
    }
}

/// Fills `haves` with up to 32 fresh proposals: ids popped off the
/// probe frontier in priority order (tips first, then depth), kept when
/// their distance from the tips is a power of two or they sit just
/// above the root; the popped id's parents rejoin the frontier. Runs
/// until the list is full or the frontier is exhausted.
#[verifier::rlimit(100)]
pub fn prepare_haves(
    state: &State,
    queue: &mut Vec<(bool, u64, u64, u64)>,
    probed: &mut Vec<u64>,
    their_known: &Vec<u64>,
    haves: &mut Vec<u64>,
)
    requires
        state.wf(),
        forall|t: int|
            0 <= t < old(queue)@.len() ==> state.has_node((#[trigger] old(queue)@[t]).2),
        forall|t: int|
            0 <= t < old(queue)@.len() ==> (#[trigger] old(queue)@[t]).1 == state.depth_of(
                old(queue)@[t].2,
            ),
        old(probed)@.no_duplicates(),
        forall|t: int| 0 <= t < old(probed)@.len() ==> state.has_node(#[trigger] old(probed)@[t]),
    ensures
        final(haves)@.len() <= 32,
        forall|t: int|
            0 <= t < final(haves)@.len() ==> state.has_node(#[trigger] final(haves)@[t])
                && !their_known@.contains(final(haves)@[t]),
        final(queue)@.len() == 0 || final(haves)@.len() == 32,
        forall|t: int|
            0 <= t < final(queue)@.len() ==> state.has_node((#[trigger] final(queue)@[t]).2),
        forall|t: int|
            0 <= t < final(queue)@.len() ==> (#[trigger] final(queue)@[t]).1 == state.depth_of(
                final(queue)@[t].2,
            ),
        final(probed)@.no_duplicates(),
        forall|t: int|
            0 <= t < final(probed)@.len() ==> state.has_node(#[trigger] final(probed)@[t]),
        // proposals are fresh and distinct: never proposed before, each
        // recorded as probed now
        forall|t1: int, t2: int|
            0 <= t1 < t2 < final(haves)@.len() ==> final(haves)@[t1] != final(haves)@[t2],
        forall|t: int|
            0 <= t < final(haves)@.len() ==> !old(probed)@.contains(#[trigger] final(haves)@[t])
                && final(probed)@.contains(final(haves)@[t]),
        forall|t: int|
            0 <= t < old(probed)@.len() ==> #[trigger] final(probed)@[t] == old(probed)@[t],
        final(probed)@.len() >= old(probed)@.len(),
        // proposing anything is progress the probe records
        final(haves)@.len() > 0 ==> final(probed)@.len() > old(probed)@.len(),
        // a drained frontier was fully accounted for: every entry was
        // probed or already known to the peer
        final(queue)@.len() == 0 ==> forall|i: int|
            0 <= i < old(queue)@.len() ==> final(probed)@.contains(
                (#[trigger] old(queue)@[i]).2,
            ) || their_known@.contains(old(queue)@[i].2),
        // a node just above the root is always proposed when first
        // probed, whatever its distance: this is what keeps shallow
        // graphs converging
        forall|x: u64|
            final(probed)@.contains(x) && !old(probed)@.contains(x) && state.depth_of(x) == 1
                && !their_known@.contains(x) ==> final(haves)@.contains(x),
{
    haves.clear();
    proof {
        reveal(crate::ecg::State::wf);
        state.lemma_id_set();
        crate::vecset::lemma_no_dup_len_le(probed@, state.id_set());
    }
    while haves.len() < MAX_HAVE_HEADERS as usize && queue.len() > 0
        invariant
            state.ids_unique(),
            state.parents_closed(),
            state.wf(),
            haves@.len() <= 32,
            forall|t: int|
                0 <= t < haves@.len() ==> state.has_node(#[trigger] haves@[t])
                    && !their_known@.contains(haves@[t]),
            forall|t: int| 0 <= t < queue@.len() ==> state.has_node((#[trigger] queue@[t]).2),
            forall|t: int|
                0 <= t < queue@.len() ==> (#[trigger] queue@[t]).1 == state.depth_of(
                    queue@[t].2,
                ),
            probed@.no_duplicates(),
            forall|t: int| 0 <= t < probed@.len() ==> state.has_node(#[trigger] probed@[t]),
            probed@.len() <= state@.len(),
            forall|x: u64|
                probed@.contains(x) && !old(probed)@.contains(x) && state.depth_of(x) == 1
                    && !their_known@.contains(x) ==> haves@.contains(x),
            forall|t: int|
                0 <= t < haves@.len() ==> !old(probed)@.contains(#[trigger] haves@[t])
                    && probed@.contains(haves@[t]),
            forall|t: int| 0 <= t < old(probed)@.len() ==> #[trigger] probed@[t] == old(probed)@[t],
            probed@.len() >= old(probed)@.len(),
            forall|t1: int, t2: int| 0 <= t1 < t2 < haves@.len() ==> haves@[t1] != haves@[t2],
            forall|i: int|
                0 <= i < old(queue)@.len() ==> queue@.contains(#[trigger] old(queue)@[i])
                    || probed@.contains(old(queue)@[i].2) || their_known@.contains(
                    old(queue)@[i].2,
                ),
        decreases state@.len() - probed@.len(), queue@.len(),
    {
        let ghost q_pre = queue@;
        let ghost probed_pre = probed@;
        let e = match pop_max_quad(queue) {
            Some(e) => e,
            None => {
                proof {
                    assert(false);
                }
                (false, 0, 0, 0)
            },
        };
        let (_is_tip, depth, header_id, distance) = e;
        proof {
            assert(state.has_node(header_id));
        }
        let ghost haves_pre = haves@;
        let fresh = !vec_contains(probed, header_id);
        let unknown = !vec_contains(their_known, header_id);
        proof {
            // the popped entry carries its node's true depth
            let u = choose|u: int| 0 <= u < q_pre.len() && q_pre[u] == e;
            assert(q_pre[u].1 == state.depth_of(q_pre[u].2));
            assert(depth == state.depth_of(header_id));
        }
        proof {
            // after this step the popped entry's id is probed or known,
            // and every other old entry keeps its standing
            assert forall|i: int|
                0 <= i < old(queue)@.len() implies queue@.contains(#[trigger] old(queue)@[i])
                    || probed@.contains(old(queue)@[i].2) || their_known@.contains(
                    old(queue)@[i].2,
                ) || (old(queue)@[i] == e && fresh && unknown) by {
                if !probed@.contains(old(queue)@[i].2) && !their_known@.contains(
                    old(queue)@[i].2,
                ) {
                    if old(queue)@[i] == e {
                        assert(fresh && unknown);
                    } else {
                        assert(q_pre.contains(old(queue)@[i]));
                        lemma_pop_keeps(q_pre, queue@, e, old(queue)@[i]);
                    }
                }
            }
        }
        if fresh && unknown {
            probed.push(header_id);
            proof {
                state.lemma_id_set();
                crate::vecset::lemma_no_dup_len_le(probed@, state.id_set());
                assert(probed@[probed@.len() - 1] == header_id);
                assert(probed@.contains(header_id));
                assert forall|t: int|
                    0 <= t < haves@.len() implies probed@.contains(#[trigger] haves@[t]) by {
                    assert(probed_pre.contains(haves@[t]));
                    let u = choose|u: int|
                        0 <= u < probed_pre.len() && probed_pre[u] == haves@[t];
                    assert(probed@[u] == haves@[t]);
                }
            }
            if is_power_of_two(distance) || depth == 1 {
                proof {
                    assert forall|t: int| 0 <= t < haves@.len() implies haves@[t]
                        != header_id by {
                        assert(probed_pre.contains(haves@[t]));
                    }
                    assert(!old(probed)@.contains(header_id)) by {
                        if old(probed)@.contains(header_id) {
                            let u = choose|u: int|
                                0 <= u < old(probed)@.len() && old(probed)@[u] == header_id;
                            assert(probed_pre[u] == header_id);
                            assert(probed_pre.contains(header_id));
                        }
                    }
                }
                haves.push(header_id);
            }
            proof {
                assert(probed@.contains(header_id));
                assert forall|i: int|
                    0 <= i < old(queue)@.len() implies queue@.contains(#[trigger] old(queue)@[i])
                        || probed@.contains(old(queue)@[i].2) || their_known@.contains(
                        old(queue)@[i].2,
                    ) by {
                    if old(queue)@[i] == e {
                        assert(probed@.contains(header_id));
                    } else if probed_pre.contains(old(queue)@[i].2) {
                        let u = choose|u: int|
                            0 <= u < probed_pre.len() && probed_pre[u] == old(queue)@[i].2;
                        assert(probed@[u] == old(queue)@[i].2);
                    }
                }
            }
            let parents = match state.get_parents_with_depth(&header_id) {
                Some(ps) => ps,
                None => {
                    proof {
                        assert(false);
                    }
                    Vec::new()
                },
            };
            let next_distance = if distance < 0xffff_ffff_ffff_ffff {
                distance + 1
            } else {
                distance
            };
            let mut t: usize = 0;
            while t < parents.len()
                invariant
                    state.ids_unique(),
                    0 <= t <= parents@.len(),
                    forall|k: int|
                        0 <= k < parents@.len() ==> state.has_node((#[trigger] parents@[k]).1),
                    forall|k: int|
                        0 <= k < parents@.len() ==> (#[trigger] parents@[k]).0 == state.depth_of(
                            parents@[k].1,
                        ),
                    forall|k: int|
                        0 <= k < queue@.len() ==> state.has_node((#[trigger] queue@[k]).2),
                    forall|k: int|
                        0 <= k < queue@.len() ==> (#[trigger] queue@[k]).1 == state.depth_of(
                            queue@[k].2,
                        ),
                    probed@.contains(header_id),
                    forall|i: int|
                        0 <= i < old(queue)@.len() ==> queue@.contains(#[trigger] old(queue)@[i])
                            || probed@.contains(old(queue)@[i].2) || their_known@.contains(
                            old(queue)@[i].2,
                        ),
                decreases parents@.len() - t,
            {
                let p = parents[t];
                let ghost q_mid = queue@;
                queue.push((false, p.0, p.1, next_distance));
                proof {
                    assert forall|i: int|
                        0 <= i < old(queue)@.len() implies queue@.contains(
                        #[trigger] old(queue)@[i]) || probed@.contains(old(queue)@[i].2)
                        || their_known@.contains(old(queue)@[i].2) by {
                        if q_mid.contains(old(queue)@[i]) {
                            let u = choose|u: int|
                                0 <= u < q_mid.len() && q_mid[u] == old(queue)@[i];
                            assert(queue@[u] == old(queue)@[i]);
                        }
                    }
                }
                t += 1;
            }
            proof {
                assert forall|x: u64|
                    probed@.contains(x) && !old(probed)@.contains(x) && state.depth_of(x) == 1
                        && !their_known@.contains(x) implies haves@.contains(x) by {
                    if x == header_id {
                        assert(depth == 1);
                        assert(haves@.contains(header_id)) by {
                            assert(haves@[haves@.len() - 1] == header_id || haves@
                                == haves_pre);
                            if haves@ == haves_pre {
                                assert(false);
                            }
                        }
                    } else {
                        let u = choose|u: int| 0 <= u < probed@.len() && probed@[u] == x;
                        assert(u < probed@.len() - 1);
                        assert(probed_pre[u] == x);
                        assert(probed_pre.contains(x));
                        assert(haves_pre.contains(x));
                        let w = choose|w: int|
                            0 <= w < haves_pre.len() && haves_pre[w] == x;
                        assert(haves@[w] == x);
                    }
                }
            }
        }
    }
    proof {
        if haves@.len() > 0 && probed@.len() == old(probed)@.len() {
            assert(probed@ =~= old(probed)@);
            assert(probed@.contains(haves@[0]));
            assert(!old(probed)@.contains(haves@[0]));
        }
    }
}

/// Every entry of a queue drawn element-wise from a pedigreed queue is
/// pedigreed.
proof fn lemma_descent_after_pop(
    st: State,
    q1: Seq<(u64, u64)>,
    pre: Seq<(u64, u64)>,
    post: Seq<(u64, u64)>,
)
    requires
        forall|t: int|
            0 <= t < pre.len() ==> from_delivery_queue(st, q1, (#[trigger] pre[t]).1),
        forall|t: int| 0 <= t < post.len() ==> pre.contains(#[trigger] post[t]),
    ensures
        forall|t: int|
            0 <= t < post.len() ==> from_delivery_queue(st, q1, (#[trigger] post[t]).1),
{
    assert forall|t: int|
        0 <= t < post.len() implies from_delivery_queue(st, q1, (#[trigger] post[t]).1) by {
        let u = choose|u: int| 0 <= u < pre.len() && pre[u] == post[t];
    }
}

/// Requeued children of a pedigreed node are pedigreed.
proof fn lemma_descent_after_children(
    st: State,
    q1: Seq<(u64, u64)>,
    mid: Seq<(u64, u64)>,
    post: Seq<(u64, u64)>,
    h: u64,
)
    requires
        st.wf(),
        from_delivery_queue(st, q1, h),
        forall|t: int|
            0 <= t < mid.len() ==> from_delivery_queue(st, q1, (#[trigger] mid[t]).1),
        post.len() >= mid.len(),
        forall|t: int| 0 <= t < mid.len() ==> #[trigger] post[t] == mid[t],
        forall|t: int| mid.len() <= t < post.len() ==> st.is_child_of((#[trigger] post[t]).1, h),
    ensures
        forall|t: int|
            0 <= t < post.len() ==> from_delivery_queue(st, q1, (#[trigger] post[t]).1),
{
    reveal(from_delivery_queue);
    assert forall|t: int|
        0 <= t < post.len() implies from_delivery_queue(st, q1, (#[trigger] post[t]).1) by {
        if t >= mid.len() {
            let i = choose|i: int|
                0 <= i < q1.len() && is_ancestor_of(st, (#[trigger] q1[i]).1, h);
            lemma_ancestor_lift(st, q1[i].1, h, post[t].1);
        }
    }
}

/// Fills `headers` with up to 32 headers off the delivery queue,
/// deepest first: deferred candidates get another chance, a candidate
/// the peer already knows just forwards its children, and a candidate
/// whose parents the peer does not all know yet is deferred. Each
/// delivered header is ours, was unknown to the peer, is delivered at
/// most once, and is marked known with its parents.
#[verifier::rlimit(100)]
pub fn prepare_headers(
    state: &State,
    send_queue: &mut Vec<(u64, u64)>,
    handled: &mut Vec<u64>,
    deferred: &mut Vec<(u64, u64)>,
    their_known: &mut Vec<u64>,
    headers: &mut Vec<Header>,
)
    requires
        state.wf(),
        known_wf(*state, old(their_known)@),
        forall|t: int|
            0 <= t < old(send_queue)@.len() ==> state.has_node((#[trigger] old(send_queue)@[t]).1),
        forall|t: int|
            0 <= t < old(deferred)@.len() ==> state.has_node((#[trigger] old(deferred)@[t]).1),
        old(handled)@.no_duplicates(),
        forall|t: int| 0 <= t < old(handled)@.len() ==> state.has_node(#[trigger] old(handled)@[t]),
        forall|t: int|
            0 <= t < old(handled)@.len() ==> old(their_known)@.contains(
                #[trigger] old(handled)@[t],
            ),
    ensures
        final(headers)@.len() <= 32,
        // the batch is full or the delivery queue is drained
        final(headers)@.len() == 32 || final(send_queue)@.len() == 0,
        known_wf(*state, final(their_known)@),
        forall|t: int|
            0 <= t < old(their_known)@.len() ==> final(their_known)@.contains(
                #[trigger] old(their_known)@[t],
            ),
        final(their_known)@.len() >= old(their_known)@.len(),
        // delivering anything is progress the peer can see
        final(headers)@.len() > 0 ==> final(their_known)@.len() > old(their_known)@.len(),
        forall|t: int|
            0 <= t < final(headers)@.len() ==> state.has_node((#[trigger] final(headers)@[t])@.id)
                && final(headers)@[t]@ == state.node_of(final(headers)@[t]@.id).header && !old(their_known)@.contains(final(headers)@[t]@.id) && final(their_known)@.contains(
                final(headers)@[t]@.id,
            ),
        forall|t1: int, t2: int|
            0 <= t1 < t2 < final(headers)@.len() ==> (#[trigger] final(headers)@[t1])@.id != (
            #[trigger] final(headers)@[t2])@.id,
        forall|t: int, k: int|
            0 <= t < final(headers)@.len() && 0 <= k < state.parents_of(
                final(headers)@[t]@.id,
            ).len() ==> final(their_known)@.contains(
                #[trigger] state.parents_of(final(headers)@[t]@.id)[k],
            ),
        forall|t1: int, t2: int|
            0 <= t1 < final(headers)@.len() && 0 <= t2 < final(headers)@.len()
                && state.parents_of((#[trigger] final(headers)@[t1])@.id).contains(
                (#[trigger] final(headers)@[t2])@.id,
            ) ==> t2 < t1,
        forall|t: int|
            0 <= t < final(send_queue)@.len() ==> state.has_node((#[trigger] final(send_queue)@[t]).1),
        forall|t: int|
            0 <= t < final(deferred)@.len() ==> state.has_node((#[trigger] final(deferred)@[t]).1),
        final(handled)@.no_duplicates(),
        forall|t: int|
            0 <= t < final(handled)@.len() ==> state.has_node(#[trigger] final(handled)@[t]),
        forall|t: int|
            0 <= t < final(handled)@.len() ==> final(their_known)@.contains(
                #[trigger] final(handled)@[t],
            ),
        // each delivered header's parents were known to the peer before
        // the call or were themselves delivered earlier in the batch
        forall|t: int, k: int|
            0 <= t < final(headers)@.len() && 0 <= k < state.parents_of(
                final(headers)@[t]@.id,
            ).len() ==> old(their_known)@.contains(
                #[trigger] state.parents_of(final(headers)@[t]@.id)[k],
            ) || exists|j: int|
                0 <= j < t && final(headers)@[j]@.id == state.parents_of(
                    final(headers)@[t]@.id,
                )[k],
        // the known set gains exactly the delivered ids
        forall|x: u64|
            final(their_known)@.contains(x) ==> old(their_known)@.contains(x) || named_in(
                final(headers)@,
                x,
            ),
        // every delivered header came off the delivery queue handed in:
        // an entry of it, or a descendant of one reached through
        // requeued children
        forall|t: int|
            0 <= t < final(headers)@.len() ==> from_delivery_queue(
                *state,
                old(send_queue)@,
                (#[trigger] final(headers)@[t])@.id,
            ) || from_delivery_queue(*state, old(deferred)@, final(headers)@[t]@.id),
        // every child of a delivered header is still a delivery
        // candidate or already known to the peer
        forall|t: int, c: u64|
            0 <= t < final(headers)@.len() && #[trigger] state.is_child_of(
                c,
                final(headers)@[t]@.id,
            ) ==> final(send_queue)@.contains((state.depth_of(c), c)) || final(deferred)@.contains((state.depth_of(c), c)) || final(their_known)@.contains(c),
        // no candidate is lost: every entry handed in is still queued,
        // deferred, or covers an id the peer now knows
        forall|i: int|
            0 <= i < old(send_queue)@.len() ==> final(send_queue)@.contains(
                #[trigger] old(send_queue)@[i],
            ) || final(deferred)@.contains(old(send_queue)@[i]) || final(their_known)@.contains(
                old(send_queue)@[i].1,
            ),
        forall|i: int|
            0 <= i < old(deferred)@.len() ==> final(send_queue)@.contains(
                #[trigger] old(deferred)@[i],
            ) || final(deferred)@.contains(old(deferred)@[i]) || final(their_known)@.contains(
                old(deferred)@[i].1,
            ),
{
    headers.clear();
    let ghost known0 = their_known@;
    send_queue.append(deferred);
    let ghost q1 = send_queue@;
    proof {
        reveal(crate::ecg::State::wf);
        state.lemma_id_set();
        crate::vecset::lemma_no_dup_len_le(handled@, state.id_set());
        assert(forall|i: int| 0 <= i < q1.len() ==> send_queue@.contains(#[trigger] q1[i]));
        assert forall|t: int|
            0 <= t < send_queue@.len() implies from_delivery_queue(
            *state,
            q1,
            (#[trigger] send_queue@[t]).1,
        ) by {
            lemma_ancestor_refl(*state, q1[t].1);
            reveal(from_delivery_queue);
        }
    }
    while headers.len() < MAX_DELIVER_HEADERS as usize && send_queue.len() > 0
        invariant
            state.ids_unique(),
            state.wf(),
            known_wf(*state, their_known@),
            headers@.len() <= 32,
            forall|t: int|
                0 <= t < known0.len() ==> their_known@.contains(#[trigger] known0[t]),
            their_known@.len() >= known0.len(),
            headers@.len() > 0 ==> their_known@.len() > known0.len(),
            forall|t: int|
                0 <= t < headers@.len() ==> state.has_node((#[trigger] headers@[t])@.id)
                    && headers@[t]@ == state.node_of(headers@[t]@.id).header
                    && !known0.contains(headers@[t]@.id) && their_known@.contains(
                    headers@[t]@.id,
                ),
            forall|t1: int, t2: int|
                0 <= t1 < t2 < headers@.len() ==> (#[trigger] headers@[t1])@.id != (
                #[trigger] headers@[t2])@.id,
            forall|t: int, k: int|
                0 <= t < headers@.len() && 0 <= k < state.parents_of(headers@[t]@.id).len()
                    ==> their_known@.contains(#[trigger] state.parents_of(headers@[t]@.id)[k]),
            forall|t: int, k: int|
                0 <= t < headers@.len() && 0 <= k < state.parents_of(headers@[t]@.id).len()
                    ==> known0.contains(#[trigger] state.parents_of(headers@[t]@.id)[k])
                    || exists|j: int|
                    0 <= j < t && headers@[j]@.id == state.parents_of(headers@[t]@.id)[k],
            forall|x: u64|
                their_known@.contains(x) ==> known0.contains(x) || named_in(headers@, x),
            forall|t1: int, t2: int|
                0 <= t1 < headers@.len() && 0 <= t2 < headers@.len() && state.parents_of(
                    (#[trigger] headers@[t1])@.id,
                ).contains((#[trigger] headers@[t2])@.id) ==> t2 < t1,
            forall|t: int|
                0 <= t < send_queue@.len() ==> state.has_node((#[trigger] send_queue@[t]).1),
            forall|t: int|
                0 <= t < deferred@.len() ==> state.has_node((#[trigger] deferred@[t]).1),
            handled@.no_duplicates(),
            forall|t: int| 0 <= t < handled@.len() ==> state.has_node(#[trigger] handled@[t]),
            forall|t: int|
                0 <= t < handled@.len() ==> their_known@.contains(#[trigger] handled@[t]),
            handled@.len() <= state@.len(),
            forall|i: int|
                0 <= i < q1.len() ==> send_queue@.contains(#[trigger] q1[i])
                    || deferred@.contains(q1[i]) || their_known@.contains(q1[i].1),
            forall|t: int|
                0 <= t < send_queue@.len() ==> from_delivery_queue(
                    *state,
                    q1,
                    (#[trigger] send_queue@[t]).1,
                ),
            forall|t: int|
                0 <= t < deferred@.len() ==> from_delivery_queue(
                    *state,
                    q1,
                    (#[trigger] deferred@[t]).1,
                ),
            forall|t: int|
                0 <= t < headers@.len() ==> from_delivery_queue(
                    *state,
                    q1,
                    (#[trigger] headers@[t])@.id,
                ),
            forall|t: int, c: u64|
                0 <= t < headers@.len() && #[trigger] state.is_child_of(
                    c,
                    headers@[t]@.id,
                ) ==> send_queue@.contains((state.depth_of(c), c)) || deferred@.contains((state.depth_of(c), c)) || their_known@.contains(c),
        decreases state@.len() - handled@.len(), send_queue@.len(),
    {
        let ghost q_pre = send_queue@;
        let ghost def_pre = deferred@;
        let ghost known_pre = their_known@;
        let e = match pop_max_pair(send_queue) {
            Some(e) => e,
            None => {
                proof {
                    assert(false);
                }
                (0, 0)
            },
        };
        let (depth, header_id) = e;
        proof {
            assert(state.has_node(header_id));
        }
        if vec_contains(handled, header_id) {
            // already handed over or forwarded this round
            proof {
                assert(their_known@.contains(header_id)) by {
                    let u = choose|u: int|
                        0 <= u < handled@.len() && handled@[u] == header_id;
                }
                assert forall|i: int|
                    0 <= i < q1.len() implies send_queue@.contains(#[trigger] q1[i])
                        || deferred@.contains(q1[i]) || their_known@.contains(q1[i].1) by {
                    if !deferred@.contains(q1[i]) && !their_known@.contains(q1[i].1) {
                        if q1[i] == e {
                            assert(their_known@.contains(header_id));
                            assert(false);
                        } else {
                            assert(q_pre.contains(q1[i]));
                            lemma_pop_keeps(q_pre, send_queue@, e, q1[i]);
                        }
                    }
                }
                lemma_descent_after_pop(*state, q1, q_pre, send_queue@);
                assert forall|t: int, c: u64|
                    0 <= t < headers@.len() && #[trigger] state.is_child_of(
                        c,
                        headers@[t]@.id,
                    ) implies send_queue@.contains((state.depth_of(c), c))
                    || deferred@.contains((state.depth_of(c), c)) || their_known@.contains(
                    c,
                ) by {
                    let ec = (state.depth_of(c), c);
                    if !deferred@.contains(ec) && !their_known@.contains(c) {
                        assert(q_pre.contains(ec));
                        if ec == e {
                            assert(c == header_id);
                            assert(their_known@.contains(header_id));
                            assert(false);
                        } else {
                            lemma_pop_keeps(q_pre, send_queue@, e, ec);
                        }
                    }
                }
            }
        } else if vec_contains(their_known, header_id) {
            handled.push(header_id);
            proof {
                state.lemma_id_set();
                crate::vecset::lemma_no_dup_len_le(handled@, state.id_set());
            }
            let ghost q_mid = send_queue@;
            push_children(state, send_queue, header_id);
            proof {
                assert forall|i: int|
                    0 <= i < q1.len() implies send_queue@.contains(#[trigger] q1[i])
                        || deferred@.contains(q1[i]) || their_known@.contains(q1[i].1) by {
                    if !deferred@.contains(q1[i]) && !their_known@.contains(q1[i].1) {
                        assert(q1[i] != e);
                        assert(q_pre.contains(q1[i]));
                        lemma_pop_keeps(q_pre, q_mid, e, q1[i]);
                        let u = choose|u: int| 0 <= u < q_mid.len() && q_mid[u] == q1[i];
                        assert(send_queue@[u] == q1[i]);
                    }
                }
                assert(from_delivery_queue(*state, q1, header_id)) by {
                    let u = choose|u: int| 0 <= u < q_pre.len() && q_pre[u] == e;
                }
                lemma_descent_after_pop(*state, q1, q_pre, q_mid);
                lemma_descent_after_children(*state, q1, q_mid, send_queue@, header_id);
                assert forall|t: int, c: u64|
                    0 <= t < headers@.len() && #[trigger] state.is_child_of(
                        c,
                        headers@[t]@.id,
                    ) implies send_queue@.contains((state.depth_of(c), c))
                    || deferred@.contains((state.depth_of(c), c)) || their_known@.contains(
                    c,
                ) by {
                    let ec = (state.depth_of(c), c);
                    if !deferred@.contains(ec) && !their_known@.contains(c) {
                        assert(q_pre.contains(ec));
                        if ec == e {
                            assert(c == header_id);
                            assert(false);
                        } else {
                            lemma_pop_keeps(q_pre, q_mid, e, ec);
                            let u = choose|u: int| 0 <= u < q_mid.len() && q_mid[u] == ec;
                            assert(send_queue@[u] == ec);
                        }
                    }
                }
            }
        } else {
            let ghost known_before = their_known@;
            let ghost headers_before = headers@;
            let delivered = deliver_if_ready(state, their_known, headers, header_id);
            if delivered {
                proof {
                    assert forall|t: int|
                        0 <= t < known0.len() implies their_known@.contains(
                        #[trigger] known0[t]) by {
                        assert(known_before.contains(known0[t]));
                        let tj = choose|tj: int|
                            0 <= tj < known_before.len() && known_before[tj] == known0[t];
                    }
                    assert(headers@.len() == headers_before.len() + 1);
                    assert(headers@.last()@.id == header_id);
                    assert forall|t: int, k: int|
                        0 <= t < headers@.len() && 0 <= k < state.parents_of(
                            headers@[t]@.id,
                        ).len() implies their_known@.contains(
                        #[trigger] state.parents_of(headers@[t]@.id)[k]) by {
                        if t < headers_before.len() {
                            assert(headers@[t] == headers_before[t]);
                            assert(known_before.contains(
                                state.parents_of(headers_before[t]@.id)[k],
                            ));
                            let tj = choose|tj: int|
                                0 <= tj < known_before.len() && known_before[tj]
                                    == state.parents_of(headers_before[t]@.id)[k];
                        } else {
                            assert(headers@[t]@.id == header_id);
                            assert(known_before.contains(state.parents_of(header_id)[k]));
                            let tj = choose|tj: int|
                                0 <= tj < known_before.len() && known_before[tj]
                                    == state.parents_of(header_id)[k];
                        }
                    }
                    assert forall|t1: int, t2: int|
                        0 <= t1 < headers@.len() && 0 <= t2 < headers@.len()
                            && state.parents_of((#[trigger] headers@[t1])@.id).contains(
                            (#[trigger] headers@[t2])@.id,
                        ) implies t2 < t1 by {
                        if t2 == headers@.len() - 1 && t1 < headers@.len() - 1 {
                            // the new header's id was unknown when the
                            // earlier header's parents were all known
                            assert(headers@[t1] == headers_before[t1]);
                            let ps = state.parents_of(headers_before[t1]@.id);
                            let k2 = choose|k2: int|
                                0 <= k2 < ps.len() && ps[k2] == headers@[t2]@.id;
                            assert(known_before.contains(ps[k2]));
                            assert(!known_before.contains(header_id));
                            assert(false);
                        } else if t1 == headers@.len() - 1 && t2 == headers@.len() - 1 {
                            let ps = state.parents_of(header_id);
                            let k2 = choose|k2: int|
                                0 <= k2 < ps.len() && ps[k2] == header_id;
                            assert(known_before.contains(header_id));
                            assert(false);
                        }
                    }
                    assert forall|t: int|
                        0 <= t < handled@.len() implies their_known@.contains(
                        #[trigger] handled@[t]) by {
                        lemma_contains_lift(known_before, their_known@, handled@[t]);
                    }
                    assert(their_known@.len() > known_before.len()) by {
                        if their_known@.len() == known_before.len() {
                            assert(their_known@ =~= known_before);
                            assert(known_before.contains(header_id));
                        }
                    }
                    // the known set gained exactly the delivered id
                    assert forall|x: u64|
                        their_known@.contains(x) implies known0.contains(x) || named_in(
                        headers@,
                        x,
                    ) by {
                        reveal(named_in);
                        if !known0.contains(x) {
                            if known_before.contains(x) {
                                assert(named_in(headers_before, x));
                                let j = choose|j: int|
                                    0 <= j < headers_before.len() && (
                                    #[trigger] headers_before[j])@.id == x;
                                assert(headers@[j]@.id == x);
                            } else {
                                assert(x == header_id);
                                assert(headers@[headers@.len() - 1]@.id == x);
                            }
                        }
                    }
                    // its parents were known before the call or already
                    // delivered in this batch
                    assert forall|t: int, k: int|
                        0 <= t < headers@.len() && 0 <= k < state.parents_of(
                            headers@[t]@.id,
                        ).len() implies known0.contains(
                        #[trigger] state.parents_of(headers@[t]@.id)[k]) || exists|j: int|
                        0 <= j < t && headers@[j]@.id == state.parents_of(headers@[t]@.id)[k] by {
                        let p = state.parents_of(headers@[t]@.id)[k];
                        if t < headers_before.len() {
                            assert(headers@[t] == headers_before[t]);
                            if !known0.contains(p) {
                                let j = choose|j: int|
                                    0 <= j < t && headers_before[j]@.id == state.parents_of(
                                        headers_before[t]@.id,
                                    )[k];
                                assert(headers@[j]@.id == p);
                            }
                        } else {
                            assert(headers@[t]@.id == header_id);
                            assert(known_before.contains(p));
                            if !known0.contains(p) {
                                assert(named_in(headers_before, p));
                                reveal(named_in);
                                let j = choose|j: int|
                                    0 <= j < headers_before.len() && (
                                    #[trigger] headers_before[j])@.id == p;
                                assert(headers@[j]@.id == p);
                            }
                        }
                    }
                }
                handled.push(header_id);
                proof {
                    state.lemma_id_set();
                    crate::vecset::lemma_no_dup_len_le(handled@, state.id_set());
                }
                let ghost q_mid = send_queue@;
                push_children(state, send_queue, header_id);
                proof {
                    assert forall|i: int|
                        0 <= i < q1.len() implies send_queue@.contains(#[trigger] q1[i])
                            || deferred@.contains(q1[i]) || their_known@.contains(q1[i].1) by {
                        if !deferred@.contains(q1[i]) && !their_known@.contains(q1[i].1) {
                            if q1[i] == e {
                                assert(their_known@.contains(header_id));
                                assert(false);
                            } else {
                                if known_pre.contains(q1[i].1) {
                                    lemma_contains_lift(known_pre, their_known@, q1[i].1);
                                    assert(false);
                                }
                                assert(q_pre.contains(q1[i]));
                                lemma_pop_keeps(q_pre, q_mid, e, q1[i]);
                                let u = choose|u: int|
                                    0 <= u < q_mid.len() && q_mid[u] == q1[i];
                                assert(send_queue@[u] == q1[i]);
                            }
                        }
                    }
                    assert(from_delivery_queue(*state, q1, header_id)) by {
                        let u = choose|u: int| 0 <= u < q_pre.len() && q_pre[u] == e;
                    }
                    lemma_descent_after_pop(*state, q1, q_pre, q_mid);
                    lemma_descent_after_children(*state, q1, q_mid, send_queue@, header_id);
                    assert forall|t: int|
                        0 <= t < headers@.len() implies from_delivery_queue(
                        *state,
                        q1,
                        (#[trigger] headers@[t])@.id,
                    ) by {
                        if t < headers_before.len() {
                            assert(headers@[t] == headers_before[t]);
                        } else {
                            assert(headers@[t]@.id == header_id);
                        }
                    }
                    assert forall|t: int, c: u64|
                        0 <= t < headers@.len() && #[trigger] state.is_child_of(
                            c,
                            headers@[t]@.id,
                        ) implies send_queue@.contains((state.depth_of(c), c))
                        || deferred@.contains((state.depth_of(c), c)) || their_known@.contains(
                        c,
                    ) by {
                        let ec = (state.depth_of(c), c);
                        if t >= headers_before.len() {
                            assert(state.is_child_of(c, header_id));
                            assert(send_queue@.contains(ec));
                        } else if !deferred@.contains(ec) && !their_known@.contains(c) {
                            assert(headers@[t] == headers_before[t]);
                            if known_pre.contains(c) {
                                lemma_contains_lift(known_pre, their_known@, c);
                                assert(false);
                            }
                            assert(q_pre.contains(ec));
                            if ec == e {
                                assert(c == header_id);
                                assert(their_known@.contains(header_id));
                                assert(false);
                            } else {
                                lemma_pop_keeps(q_pre, q_mid, e, ec);
                                let u = choose|u: int|
                                    0 <= u < q_mid.len() && q_mid[u] == ec;
                                assert(send_queue@[u] == ec);
                            }
                        }
                    }
                }
            } else {
                deferred.push((depth, header_id));
                proof {
                    assert(deferred@[deferred@.len() - 1] == e);
                    assert(deferred@.contains(e));
                    assert(from_delivery_queue(*state, q1, header_id)) by {
                        let u = choose|u: int| 0 <= u < q_pre.len() && q_pre[u] == e;
                    }
                    lemma_descent_after_pop(*state, q1, q_pre, send_queue@);
                    assert forall|t: int|
                        0 <= t < deferred@.len() implies from_delivery_queue(
                        *state,
                        q1,
                        (#[trigger] deferred@[t]).1,
                    ) by {
                        if t < def_pre.len() {
                            assert(deferred@[t] == def_pre[t]);
                        } else {
                            assert(deferred@[t] == e);
                        }
                    }
                    assert forall|t: int, c: u64|
                        0 <= t < headers@.len() && #[trigger] state.is_child_of(
                            c,
                            headers@[t]@.id,
                        ) implies send_queue@.contains((state.depth_of(c), c))
                        || deferred@.contains((state.depth_of(c), c)) || their_known@.contains(
                        c,
                    ) by {
                        let ec = (state.depth_of(c), c);
                        if !their_known@.contains(c) {
                            if def_pre.contains(ec) {
                                let u = choose|u: int|
                                    0 <= u < def_pre.len() && def_pre[u] == ec;
                                assert(deferred@[u] == ec);
                            } else {
                                assert(q_pre.contains(ec));
                                if ec == e {
                                    assert(deferred@.contains(ec));
                                } else {
                                    lemma_pop_keeps(q_pre, send_queue@, e, ec);
                                }
                            }
                        }
                    }
                    assert forall|i: int|
                        0 <= i < q1.len() implies send_queue@.contains(#[trigger] q1[i])
                            || deferred@.contains(q1[i]) || their_known@.contains(q1[i].1) by {
                        if !their_known@.contains(q1[i].1) {
                            if q1[i] == e {
                            } else if def_pre.contains(q1[i]) {
                                let u = choose|u: int|
                                    0 <= u < def_pre.len() && def_pre[u] == q1[i];
                                assert(deferred@[u] == q1[i]);
                            } else {
                                assert(q_pre.contains(q1[i]));
                                lemma_pop_keeps(q_pre, send_queue@, e, q1[i]);
                            }
                        }
                    }
                }
            }
        }
    }
    proof {
        assert forall|t: int|
            0 <= t < headers@.len() implies from_delivery_queue(
            *state,
            old(send_queue)@,
            (#[trigger] headers@[t])@.id,
        ) || from_delivery_queue(*state, old(deferred)@, headers@[t]@.id) by {
            reveal(from_delivery_queue);
            let i = choose|i: int|
                0 <= i < q1.len() && is_ancestor_of(*state, (#[trigger] q1[i]).1, headers@[t]@.id);
            if i < old(send_queue)@.len() {
                assert(old(send_queue)@[i] == q1[i]);
            } else {
                assert(old(deferred)@[i - old(send_queue)@.len()] == q1[i]);
            }
        }
        assert forall|i: int|
            0 <= i < old(send_queue)@.len() implies send_queue@.contains(
            #[trigger] old(send_queue)@[i]) || deferred@.contains(old(send_queue)@[i])
            || their_known@.contains(old(send_queue)@[i].1) by {
            assert(q1[i] == old(send_queue)@[i]);
        }
        assert forall|i: int|
            0 <= i < old(deferred)@.len() implies send_queue@.contains(
            #[trigger] old(deferred)@[i]) || deferred@.contains(old(deferred)@[i])
            || their_known@.contains(old(deferred)@[i].1) by {
            assert(q1[old(send_queue)@.len() + i] == old(deferred)@[i]);
        }
    }
}

/// Queues the children of a handled node for delivery.
fn push_children(state: &State, send_queue: &mut Vec<(u64, u64)>, h: u64)
    requires
        state.wf(),
        state.has_node(h),
        forall|t: int|
            0 <= t < old(send_queue)@.len() ==> state.has_node((#[trigger] old(send_queue)@[t]).1),
    ensures
        forall|t: int|
            0 <= t < final(send_queue)@.len() ==> state.has_node((#[trigger] final(send_queue)@[t]).1),
        final(send_queue)@.len() >= old(send_queue)@.len(),
        forall|t: int|
            0 <= t < old(send_queue)@.len() ==> #[trigger] final(send_queue)@[t] == old(send_queue)@[t],
        forall|t: int|
            old(send_queue)@.len() <= t < final(send_queue)@.len() ==> state.is_child_of(
                (#[trigger] final(send_queue)@[t]).1,
                h,
            ),
        forall|c: u64|
            #[trigger] state.is_child_of(c, h) ==> final(send_queue)@.contains(
                (state.depth_of(c), c),
            ),
{
    let children = match state.get_children_with_depth(&h) {
        Some(ch) => ch,
        None => {
            proof {
                assert(false);
            }
            Vec::new()
        },
    };
    let mut t: usize = 0;
    let ghost sq0 = send_queue@;
    while t < children.len()
        invariant
            0 <= t <= children@.len(),
            send_queue@ == sq0 + children@.take(t as int),
            forall|tt: int|
                0 <= tt < children@.len() ==> state.is_child_of(
                    (#[trigger] children@[tt]).1,
                    h,
                ) && children@[tt].0 == state.depth_of(children@[tt].1),
            forall|tt: int|
                0 <= tt < send_queue@.len() ==> state.has_node((#[trigger] send_queue@[tt]).1),
            send_queue@.len() >= old(send_queue)@.len(),
            forall|tt: int|
                0 <= tt < old(send_queue)@.len() ==> #[trigger] send_queue@[tt] == old(send_queue)@[tt],
            forall|tt: int|
                old(send_queue)@.len() <= tt < send_queue@.len() ==> state.is_child_of(
                    (#[trigger] send_queue@[tt]).1,
                    h,
                ),
        decreases children@.len() - t,
    {
        send_queue.push(children[t]);
        proof {
            assert(send_queue@ =~= sq0 + children@.take(t as int + 1));
        }
        t += 1;
    }
    proof {
        assert(send_queue@ =~= sq0 + children@);
        assert forall|c: u64| #[trigger] state.is_child_of(c, h) implies send_queue@.contains(
            (state.depth_of(c), c),
        ) by {
            let tt = choose|tt: int|
                0 <= tt < children@.len() && (#[trigger] children@[tt]).1 == c;
            assert(children@[tt] == (state.depth_of(c), c));
            assert(send_queue@[sq0.len() + tt] == children@[tt]);
        }
    }
}

/// Hands a header over if the peer knows all its parents; marks it
/// known on delivery.
#[verifier::rlimit(100)]
fn deliver_if_ready(
    state: &State,
    their_known: &mut Vec<u64>,
    headers: &mut Vec<Header>,
    header_id: u64,
) -> (r: bool)
    requires
        state.wf(),
        known_wf(*state, old(their_known)@),
        state.has_node(header_id),
        !old(their_known)@.contains(header_id),
        headers@.len() < 32,
    ensures
        known_wf(*state, final(their_known)@),
        forall|t: int|
            0 <= t < old(their_known)@.len() ==> final(their_known)@.contains(
                #[trigger] old(their_known)@[t],
            ),
        r ==> final(headers)@.len() == old(headers)@.len() + 1,
        r ==> forall|t: int|
            0 <= t < old(headers)@.len() ==> #[trigger] final(headers)@[t] == old(headers)@[t],
        r ==> final(headers)@.last()@ == state.node_of(header_id).header && final(headers)@.last()@.id == header_id,
        r ==> final(their_known)@.contains(header_id),
        final(their_known)@.len() >= old(their_known)@.len(),
        forall|t: int|
            0 <= t < old(their_known)@.len() ==> #[trigger] final(their_known)@[t] == old(their_known)@[t],
        r ==> forall|k: int|
            0 <= k < state.parents_of(header_id).len() ==> old(their_known)@.contains(
                #[trigger] state.parents_of(header_id)[k],
            ),
        // a delivery teaches the peer exactly the delivered header: its
        // ancestors were known already through the parents
        r ==> forall|x: u64|
            final(their_known)@.contains(x) ==> old(their_known)@.contains(x) || x == header_id,
        !r ==> final(headers)@ == old(headers)@ && final(their_known)@ == old(their_known)@,
{
    proof {
        reveal(crate::ecg::State::wf);
    }
    let parents = match state.get_parents(&header_id) {
        Some(ps) => ps,
        None => {
            proof {
                assert(false);
            }
            Vec::new()
        },
    };
    let mut all_known = true;
    let mut k: usize = 0;
    while k < parents.len()
        invariant
            0 <= k <= parents@.len(),
            parents@ == state.parents_of(header_id),
            their_known@ == old(their_known)@,
            all_known ==> forall|t: int|
                0 <= t < k ==> their_known@.contains(#[trigger] parents@[t]),
        decreases parents@.len() - k,
    {
        if !vec_contains(their_known, parents[k]) {
            all_known = false;
        }
        k += 1;
    }
    if !all_known {
        return false;
    }
    match state.get_header(&header_id) {
        Some(hd) => {
            headers.push(copy_header(hd));
            mark_as_known(state, their_known, header_id);
            proof {
                assert(headers@.last()@ == state.node_of(header_id).header);
                assert(state.node_of(header_id).header.id == header_id) by {
                    state.lemma_lookup(header_id);
                }
                assert forall|x: u64|
                    their_known@.contains(x) implies old(their_known)@.contains(x) || x
                        == header_id by {
                    if !old(their_known)@.contains(x) && x != header_id {
                        let t = choose|t: int|
                            0 <= t < their_known@.len() && their_known@[t] == x;
                        assert(is_ancestor_of(*state, x, header_id));
                        lemma_ancestor_step(*state, x, header_id);
                        let k = choose|k: int|
                            0 <= k < state.parents_of(header_id).len() && is_ancestor_of(
                                *state,
                                x,
                                #[trigger] state.parents_of(header_id)[k],
                            );
                        assert(old(their_known)@.contains(state.parents_of(header_id)[k]));
                        lemma_known_closed_ancestors(
                            *state,
                            old(their_known)@,
                            x,
                            state.parents_of(header_id)[k],
                        );
                    }
                }
            }
            true
        },
        None => {
            proof {
                assert(false);
            }
            false
        },
    }
}

/// Per-peer, per-store scratchpad held during an active sync session.
pub struct ECGSyncState {
    /// Tips still to receive from the remote.
    their_tips_remaining: u16,
    /// The remote's tips, as far as announced.
    their_tips: Vec<u64>,
    /// Everything we have proven the remote possesses (ancestor-closed).
    their_known: Vec<u64>,
    /// Delivery candidates, served deepest first.
    send_queue: Vec<(u64, u64)>,
    /// The probe frontier: (is_tip, depth, id, distance from our tips).
    probe_queue: Vec<(bool, u64, u64, u64)>,
    /// The last `have` list we sent, to interpret the peer's bitmap.
    sent_haves: Vec<u64>,
    /// Ids the probe already visited (the frontier revisits none).
    probed: Vec<u64>,
    /// Ids the delivery loop already served or skipped for good.
    handled: Vec<u64>,
    /// Candidates whose parents the peer did not know yet.
    deferred: Vec<(u64, u64)>,
}

impl ECGSyncState {
    /// Tips still owed by the remote.
    pub closed spec fn tips_remaining(self) -> u16 {
        self.their_tips_remaining
    }

    /// The remote's tips collected so far.
    pub closed spec fn collected_tips(self) -> Seq<u64> {
        self.their_tips@
    }

    /// What we have proven the remote possesses.
    pub closed spec fn known_ids(self) -> Seq<u64> {
        self.their_known@
    }

    /// The delivery candidates.
    pub closed spec fn queue_entries(self) -> Seq<(u64, u64)> {
        self.send_queue@
    }

    /// The probe frontier.
    pub closed spec fn probe_entries(self) -> Seq<(bool, u64, u64, u64)> {
        self.probe_queue@
    }

    /// The have list we sent last.
    pub closed spec fn sent_have_ids(self) -> Seq<u64> {
        self.sent_haves@
    }

    /// Ids the probe has already visited.
    pub closed spec fn probed_ids(self) -> Seq<u64> {
        self.probed@
    }

    /// Ids the delivery loop has already served or skipped for good.
    pub closed spec fn handled_ids(self) -> Seq<u64> {
        self.handled@
    }

    /// Candidates waiting for their parents to become known.
    pub closed spec fn deferred_entries(self) -> Seq<(u64, u64)> {
        self.deferred@
    }

    /// The scratchpad refers only to headers of `st`, within the
    /// protocol's bounds.
    #[verifier::opaque]
    pub closed spec fn wf_for(self, st: State) -> bool {
        &&& known_wf(st, self.their_known@)
        &&& (forall|t: int|
            0 <= t < self.send_queue@.len() ==> st.has_node((#[trigger] self.send_queue@[t]).1))
        &&& (forall|t: int|
            0 <= t < self.deferred@.len() ==> st.has_node((#[trigger] self.deferred@[t]).1))
        &&& self.handled@.no_duplicates()
        &&& (forall|t: int| 0 <= t < self.handled@.len() ==> st.has_node(#[trigger] self.handled@[t]))
        &&& (forall|t: int|
            0 <= t < self.handled@.len() ==> self.their_known@.contains(
                #[trigger] self.handled@[t],
            ))
        &&& self.probed@.no_duplicates()
        &&& (forall|t: int| 0 <= t < self.probed@.len() ==> st.has_node(#[trigger] self.probed@[t]))
        &&& self.sent_haves@.len() <= 32
        &&& (forall|t: int|
            0 <= t < self.sent_haves@.len() ==> st.has_node(#[trigger] self.sent_haves@[t]))
        &&& (forall|t: int|
            0 <= t < self.probe_queue@.len() ==> st.has_node((#[trigger] self.probe_queue@[t]).2))
        &&& (forall|t: int|
            0 <= t < self.probe_queue@.len() ==> (#[trigger] self.probe_queue@[t]).1
                == st.depth_of(self.probe_queue@[t].2))
    }

    /// A fresh scratchpad, fit for any graph.
    pub fn new() -> (r: ECGSyncState)
        ensures
            forall|st: State| #[trigger] r.wf_for(st),
            r.tips_remaining() == 0,
            r.collected_tips() == Seq::<u64>::empty(),
            r.known_ids() == Seq::<u64>::empty(),
            r.queue_entries() == Seq::<(u64, u64)>::empty(),
            r.probe_entries() == Seq::<(bool, u64, u64, u64)>::empty(),
            r.sent_have_ids() == Seq::<u64>::empty(),
            r.deferred_entries() == Seq::<(u64, u64)>::empty(),
    {
        let r = ECGSyncState {
            their_tips_remaining: 0,
            their_tips: Vec::new(),
            their_known: Vec::new(),
            send_queue: Vec::new(),
            probe_queue: Vec::new(),
            sent_haves: Vec::new(),
            probed: Vec::new(),
            handled: Vec::new(),
            deferred: Vec::new(),
        };
        proof {
            assert forall|st: State| #[trigger] r.wf_for(st) by {
                reveal(ECGSyncState::wf_for);
                reveal(known_wf);
            }
        }
        r
    }

    /// Extending the probe frontier with nodes at their true depths
    /// keeps the scratchpad valid.
    proof fn lemma_seed_wf(pre: ECGSyncState, post: ECGSyncState, st: State)
        requires
            pre.wf_for(st),
            post.their_tips_remaining == pre.their_tips_remaining,
            post.their_tips@ == pre.their_tips@,
            post.their_known@ == pre.their_known@,
            post.send_queue@ == pre.send_queue@,
            post.sent_haves@ == pre.sent_haves@,
            post.probed@ == pre.probed@,
            post.handled@ == pre.handled@,
            post.deferred@ == pre.deferred@,
            post.probe_queue@.len() >= pre.probe_queue@.len(),
            forall|t: int|
                0 <= t < pre.probe_queue@.len() ==> #[trigger] post.probe_queue@[t]
                    == pre.probe_queue@[t],
            forall|t: int|
                pre.probe_queue@.len() <= t < post.probe_queue@.len() ==> st.has_node(
                    (#[trigger] post.probe_queue@[t]).2,
                ) && post.probe_queue@[t].1 == st.depth_of(post.probe_queue@[t].2),
        ensures
            post.wf_for(st),
    {
        reveal(ECGSyncState::wf_for);
    }

    /// Seeds the probe frontier: one entry per tip of the graph, at its
    /// depth and at distance 0; nothing else changes.
    #[verifier::rlimit(100)]
    pub fn seed_probe(&mut self, state: &State)
        requires
            state.wf(),
            old(self).wf_for(*state),
        ensures
            final(self).wf_for(*state),
            final(self).probe_entries().len() == old(self).probe_entries().len()
                + state.tip_seq().len(),
            forall|t: int|
                0 <= t < old(self).probe_entries().len() ==> #[trigger] final(self).probe_entries()[t] == old(self).probe_entries()[t],
            forall|t: int|
                0 <= t < state.tip_seq().len() ==> #[trigger] final(self).probe_entries()[old(self).probe_entries().len() + t] == (
                true,
                state.depth_of(state.tip_seq()[t]),
                state.tip_seq()[t],
                0u64,
                ),
            final(self).tips_remaining() == old(self).tips_remaining(),
            final(self).collected_tips() == old(self).collected_tips(),
            final(self).known_ids() == old(self).known_ids(),
            final(self).queue_entries() == old(self).queue_entries(),
            final(self).sent_have_ids() == old(self).sent_have_ids(),
            final(self).probed_ids() == old(self).probed_ids(),
            final(self).handled_ids() == old(self).handled_ids(),
            final(self).deferred_entries() == old(self).deferred_entries(),
    {
        let tips = copy_ids(state.tips());
        let ghost s0 = *self;
        let mut k: usize = 0;
        while k < tips.len()
            invariant
                state.wf(),
                0 <= k <= tips@.len(),
                tips@ == state.tip_seq(),
                forall|t: int| 0 <= t < tips@.len() ==> state.has_node(#[trigger] tips@[t]),
                self.probe_queue@.len() == s0.probe_queue@.len() + k,
                forall|t: int|
                    0 <= t < s0.probe_queue@.len() ==> #[trigger] self.probe_queue@[t]
                        == s0.probe_queue@[t],
                forall|t: int|
                    0 <= t < k ==> #[trigger] self.probe_queue@[s0.probe_queue@.len() + t] == (
                    true,
                    state.depth_of(tips@[t]),
                    tips@[t],
                    0u64,
                    ),
                self.their_tips_remaining == s0.their_tips_remaining,
                self.their_tips@ == s0.their_tips@,
                self.their_known@ == s0.their_known@,
                self.send_queue@ == s0.send_queue@,
                self.sent_haves@ == s0.sent_haves@,
                self.probed@ == s0.probed@,
                self.handled@ == s0.handled@,
                self.deferred@ == s0.deferred@,
            decreases tips@.len() - k,
        {
            let id = tips[k];
            let d = match state.get_header_depth(&id) {
                Some(d) => d,
                None => {
                    proof {
                        assert(false);
                    }
                    0
                },
            };
            self.probe_queue.push((true, d, id, 0));
            k += 1;
        }
        proof {
            assert forall|t: int|
                old(self).probe_queue@.len() <= t < self.probe_queue@.len() implies state.has_node(
                (#[trigger] self.probe_queue@[t]).2) && self.probe_queue@[t].1 == state.depth_of(
                self.probe_queue@[t].2) by {
                let u = t - s0.probe_queue@.len();
                assert(self.probe_queue@[s0.probe_queue@.len() + u] == (
                    true,
                    state.depth_of(tips@[u]),
                    tips@[u],
                    0u64,
                ));
                assert(t == s0.probe_queue@.len() + u);
                assert(state.has_node(tips@[u]));
            }
            ECGSyncState::lemma_seed_wf(*old(self), *self, *state);
        }
    }

    /// Remembers how many tips the remote announced; nothing else
    /// changes.
    pub fn set_their_tip_count(&mut self, n: u16)
        ensures
            final(self).tips_remaining() == n,
            final(self).collected_tips() == old(self).collected_tips(),
            final(self).known_ids() == old(self).known_ids(),
            final(self).queue_entries() == old(self).queue_entries(),
            final(self).probe_entries() == old(self).probe_entries(),
            final(self).sent_have_ids() == old(self).sent_have_ids(),
            final(self).probed_ids() == old(self).probed_ids(),
            final(self).handled_ids() == old(self).handled_ids(),
            final(self).deferred_entries() == old(self).deferred_entries(),
            forall|st: State| old(self).wf_for(st) ==> #[trigger] final(self).wf_for(st),
    {
        self.their_tips_remaining = n;
        proof {
            assert forall|st: State| old(self).wf_for(st) implies #[trigger] self.wf_for(st) by {
                reveal(ECGSyncState::wf_for);
            }
        }
    }
}

/// One full round of the symmetric protocol: take in the peer's
/// bitmap, headers and haves, then build the next outgoing payload.
#[verifier::rlimit(100)]
pub fn handle_received_ecg_sync(
    sync_msg: MsgECGSyncData,
    state: &mut State,
    sync: &mut ECGSyncState,
) -> (r: MsgECGSyncData)
    requires
        old(state).wf(),
        old(sync).wf_for(*old(state)),
        sync_msg.have@.len() <= 32,
    ensures
        final(state).wf(),
        extends(*old(state), *final(state)),
        final(sync).wf_for(*final(state)),
        r.have@.len() <= 32,
        r.headers@.len() <= 32,
        // the graph gains only ids the received batch names
        forall|h: u64|
            final(state).has_node(h) ==> old(state).has_node(h) || named_in(
                sync_msg.headers@,
                h,
            ),
        // with room for the whole batch, every received header that was
        // insertable up front stands in the graph afterwards
        (old(state)@.len() + sync_msg.headers@.len() <= 0xffff_fffe && crate::ecg::total_parents(
            old(state)@,
        ) + batch_parents(sync_msg.headers@) < 0xffff_ffff) ==> forall|i: int|
            0 <= i < sync_msg.headers@.len() && old(state).can_insert(
                (#[trigger] sync_msg.headers@[i])@.id,
                sync_msg.headers@[i]@,
            ) ==> final(state).has_node(sync_msg.headers@[i]@.id),
        // the bitmap answers exactly which received entries we now hold
        forall|i: int|
            0 <= i < sync_msg.have@.len() ==> r.known.spec_get(i) == final(state).has_node(
                #[trigger] sync_msg.have@[i],
            ),
        forall|i: int| sync_msg.have@.len() <= i < 32 ==> !r.known.spec_get(i),
        // the leading received entries are absorbed as the peer's tips
        // while its announced tip count runs
        final(sync).collected_tips() == old(sync).collected_tips() + sync_msg.have@.take(
            if old(sync).tips_remaining() as int <= sync_msg.have@.len() {
                old(sync).tips_remaining() as int
            } else {
                sync_msg.have@.len() as int
            },
        ),
        final(sync).tips_remaining() == (if old(sync).tips_remaining() as int
            <= sync_msg.have@.len() {
            0u16
        } else {
            (old(sync).tips_remaining() - sync_msg.have@.len()) as u16
        }),
        // outgoing proposals are ours, distinct, and not yet known to
        // the peer; they are recorded as the haves we last sent
        forall|t: int|
            0 <= t < r.have@.len() ==> final(state).has_node(#[trigger] r.have@[t]) && !final(sync).known_ids().contains(r.have@[t]),
        forall|t1: int, t2: int| 0 <= t1 < t2 < r.have@.len() ==> r.have@[t1] != r.have@[t2],
        final(sync).sent_have_ids() == r.have@,
        // outgoing headers are ours, were unknown to the peer at entry,
        // are delivered at most once, and never precede a delivered
        // parent
        forall|t: int|
            0 <= t < r.headers@.len() ==> final(state).has_node((#[trigger] r.headers@[t])@.id)
                && r.headers@[t]@ == final(state).node_of(r.headers@[t]@.id).header && !old(sync).known_ids().contains(r.headers@[t]@.id) && final(sync).known_ids().contains(
                r.headers@[t]@.id,
            ),
        forall|t1: int, t2: int|
            0 <= t1 < t2 < r.headers@.len() ==> (#[trigger] r.headers@[t1])@.id != (
            #[trigger] r.headers@[t2])@.id,
        forall|t1: int, t2: int|
            0 <= t1 < r.headers@.len() && 0 <= t2 < r.headers@.len() && final(state).parents_of((#[trigger] r.headers@[t1])@.id).contains(
                (#[trigger] r.headers@[t2])@.id,
            ) ==> t2 < t1,
        // each nonempty outgoing list is visible progress: a proposal
        // extends the probe record, a delivery extends the known set,
        // and neither record ever shrinks
        final(sync).known_ids().len() >= old(sync).known_ids().len(),
        final(sync).probed_ids().len() >= old(sync).probed_ids().len(),
        r.headers@.len() > 0 ==> final(sync).known_ids().len() > old(sync).known_ids().len(),
        r.have@.len() > 0 ==> final(sync).probed_ids().len() > old(sync).probed_ids().len(),
{
    proof {
        reveal(ECGSyncState::wf_for);
    }
    let ghost known_entry = sync.their_known@;
    // what the peer says it knows of our last proposals
    handle_received_known(
        &*state,
        &mut sync.their_known,
        &mut sync.send_queue,
        &sync.sent_haves,
        &sync_msg.known,
    );
    // the headers it delivered
    let ghost mid = *state;
    // a batch with headers that cannot land yet does not abort the
    // session: the peer may deliver their ancestors in a later round
    let _all_ok = handle_received_headers(state, sync_msg.headers);
    proof {
        lemma_known_wf_extends(mid, *state, sync.their_known@);
        assert forall|t: int|
            0 <= t < sync.send_queue@.len() implies state.has_node(
            (#[trigger] sync.send_queue@[t]).1) by {
            assert(mid.has_node(sync.send_queue@[t].1));
        }
        assert forall|t: int|
            0 <= t < sync.deferred@.len() implies state.has_node(
            (#[trigger] sync.deferred@[t]).1) by {
            assert(mid.has_node(sync.deferred@[t].1));
        }
        assert forall|t: int|
            0 <= t < sync.handled@.len() implies state.has_node(
            #[trigger] sync.handled@[t]) by {
            assert(mid.has_node(sync.handled@[t]));
        }
        assert forall|t: int|
            0 <= t < sync.probed@.len() implies state.has_node(#[trigger] sync.probed@[t]) by {
            assert(mid.has_node(sync.probed@[t]));
        }
        assert forall|t: int|
            0 <= t < sync.sent_haves@.len() implies state.has_node(
            #[trigger] sync.sent_haves@[t]) by {
            assert(mid.has_node(sync.sent_haves@[t]));
        }
        assert forall|t: int|
            0 <= t < sync.probe_queue@.len() implies state.has_node(
            (#[trigger] sync.probe_queue@[t]).2) && sync.probe_queue@[t].1 == state.depth_of(
            sync.probe_queue@[t].2) by {
            assert(mid.has_node(sync.probe_queue@[t].2));
            assert(state.node_of(sync.probe_queue@[t].2) == mid.node_of(
                sync.probe_queue@[t].2,
            ));
        }
    }
    // its haves: answer with a bitmap, absorb its tips
    let mut known_out = HeaderBitmap::new();
    handle_received_have(
        &*state,
        &mut sync.their_tips_remaining,
        &mut sync.their_tips,
        &mut sync.their_known,
        &mut sync.send_queue,
        &sync_msg.have,
        &mut known_out,
    );
    // build our deliveries and proposals
    let ghost known_after_have = sync.their_known@;
    let mut headers_out: Vec<Header> = Vec::new();
    prepare_headers(
        &*state,
        &mut sync.send_queue,
        &mut sync.handled,
        &mut sync.deferred,
        &mut sync.their_known,
        &mut headers_out,
    );
    let mut haves_out: Vec<u64> = Vec::new();
    prepare_haves(
        &*state,
        &mut sync.probe_queue,
        &mut sync.probed,
        &sync.their_known,
        &mut haves_out,
    );
    sync.sent_haves = copy_ids(&haves_out);
    proof {
        reveal(ECGSyncState::wf_for);
        // entries the peer knew at entry were still known when the
        // outgoing headers were chosen, so none of them was delivered
        assert forall|t: int|
            0 <= t < headers_out@.len() implies !old(sync).known_ids().contains(
            (#[trigger] headers_out@[t])@.id) by {
            if old(sync).known_ids().contains(headers_out@[t]@.id) {
                lemma_contains_lift(known_entry, known_after_have, headers_out@[t]@.id);
            }
        }
    }
    MsgECGSyncData { have: haves_out, known: known_out, headers: headers_out }
}

/// Runs a whole sync session between two replicas in one address
/// space, alternating the symmetric rounds until both directions are
/// quiescent. Both graphs stay well formed and only ever grow.
#[verifier::rlimit(100)]
pub fn run_ecg_sync(l: &mut State, r: &mut State) -> (res: Result<(), ECGSyncError>)
    requires
        old(l).wf(),
        old(r).wf(),
    ensures
        final(l).wf(),
        final(r).wf(),
        extends(*old(l), *final(l)),
        extends(*old(r), *final(r)),
        // a session that ends well has made the replicas equal — and on
        // inputs the wire format can carry, the session always runs to
        // quiescence, so success is refused only when the replicas
        // disagree
        res is Ok ==> State::same_nodes(*final(l), *final(r)),
        (old(l).tip_seq().len() <= 0xffff && old(r).tip_seq().len() <= 0xffff) ==> (res is Ok
            <==> State::same_nodes(*final(l), *final(r))),
        // neither replica invents headers: every node came from one of
        // the two starting graphs
        forall|h: u64|
            final(l).has_node(h) ==> old(l).has_node(h) || old(r).has_node(h),
        forall|h: u64|
            final(r).has_node(h) ==> old(l).has_node(h) || old(r).has_node(h),
        // the tip counter overflows exactly when a side has more tips
        // than the wire format carries
        (res == Err::<(), ECGSyncError>(ECGSyncError::TooManyTips)) <==> (old(
            l,
        ).tip_seq().len() > 0xffff || old(r).tip_seq().len() > 0xffff),
{
    proof {
        assert(extends(*l, *l));
        assert(extends(*r, *r));
    }
    let mut ls = ECGSyncState::new();
    let mut rs = ECGSyncState::new();
    // the client opens: its tip count and first proposals
    let l_tip_count = match tip_count_of(l.tips().len()) {
        Ok(c) => c,
        Err(e) => {
            return Err(e);
        },
    };
    ls.seed_probe(&*l);
    let mut have0: Vec<u64> = Vec::new();
    proof {
        reveal(ECGSyncState::wf_for);
    }
    prepare_haves(&*l, &mut ls.probe_queue, &mut ls.probed, &ls.their_known, &mut have0);
    ls.sent_haves = copy_ids(&have0);
    let req = MsgECGSyncRequest { tip_count: l_tip_count, have: have0 };
    // the server answers with its own tip count and first payload
    let r_tip_count = match tip_count_of(r.tips().len()) {
        Ok(c) => c,
        Err(e) => {
            return Err(e);
        },
    };
    rs.seed_probe(&*r);
    rs.set_their_tip_count(req.tip_count);
    let ghost r0 = *r;
    let resp_sync = handle_received_ecg_sync(
        MsgECGSyncData { have: req.have, known: HeaderBitmap::new(), headers: Vec::new() },
        r,
        &mut rs,
    );
    proof {
        reveal(named_in);
        assert forall|h: u64| r.has_node(h) implies old(l).has_node(h) || old(r).has_node(
            h,
        ) by {
            assert(r0 == *old(r));
        }
        assert forall|h: u64|
            named_in(resp_sync.headers@, h) implies old(l).has_node(h) || old(r).has_node(
            h,
        ) by {
            let i = choose|i: int|
                0 <= i < resp_sync.headers@.len() && (#[trigger] resp_sync.headers@[i])@.id == h;
            assert(r.has_node(resp_sync.headers@[i]@.id));
        }
    }
    let resp = MsgECGSyncResponse { tip_count: r_tip_count, sync: resp_sync };
    // the client absorbs the response; then the sides alternate
    ls.set_their_tip_count(resp.tip_count);
    let mut r_quiesced = resp.is_done();
    let mut l_quiesced = false;
    let mut msg: MsgECGSyncData = resp.sync;
    let mut client_turn = true;
    // the progress budget: each round with a nonempty message grows a
    // probe record or a known set, each bounded by the graphs' sizes,
    // and two consecutive empty messages end the session — so the
    // budget is provably never exhausted (shown after the loop)
    let ln = l.node_count() as u64;
    let rn = r.node_count() as u64;
    let cap: u64 = if ln < 0x1000_0000 && rn < 0x1000_0000 {
        16 + 8 * (ln + rn)
    } else {
        0xffff_ffff_ffff_ffff
    };
    let ghost n0 = old(l)@.len() + old(r)@.len();
    proof {
        reveal(crate::ecg::State::wf);
        lemma_extends_len(*old(r), *r);
        old(l).lemma_size_bound();
        old(r).lemma_size_bound();
        assert(cap as int >= 16 + 8 * n0);
    }
    let mut rounds: u64 = 0;
    while !(l_quiesced && r_quiesced) && rounds < cap
        invariant
            l.wf(),
            r.wf(),
            ls.wf_for(*l),
            rs.wf_for(*r),
            extends(*old(l), *l),
            extends(*old(r), *r),
            msg.have@.len() <= 32,
            forall|h: u64| l.has_node(h) ==> old(l).has_node(h) || old(r).has_node(h),
            forall|h: u64| r.has_node(h) ==> old(l).has_node(h) || old(r).has_node(h),
            forall|h: u64|
                named_in(msg.headers@, h) ==> old(l).has_node(h) || old(r).has_node(h),
            0 <= rounds <= cap,
            n0 == old(l)@.len() + old(r)@.len(),
            cap as int >= 16 + 8 * n0,
            client_turn ==> r_quiesced == (msg.have@.len() == 0 && msg.headers@.len() == 0),
            !client_turn ==> l_quiesced == (msg.have@.len() == 0 && msg.headers@.len() == 0),
            !(l_quiesced && r_quiesced) ==> rounds as int <= 2 * (ls.probed_ids().len()
                + ls.known_ids().len() + rs.probed_ids().len() + rs.known_ids().len()) + 1 + (
            if msg.have@.len() == 0 && msg.headers@.len() == 0 {
                1int
            } else {
                0int
            }),
        decreases cap - rounds,
    {
        let ghost p_pre = ls.probed_ids().len() + ls.known_ids().len() + rs.probed_ids().len()
            + rs.known_ids().len();
        let ghost msg_was_empty = msg.have@.len() == 0 && msg.headers@.len() == 0;
        if client_turn {
            let ghost lpre = *l;
            let out = handle_received_ecg_sync(msg, l, &mut ls);
            proof {
                lemma_extends_trans(*old(l), lpre, *l);
                reveal(named_in);
                assert forall|h: u64|
                    l.has_node(h) implies old(l).has_node(h) || old(r).has_node(h) by {
                    if !lpre.has_node(h) {
                    }
                }
                assert forall|h: u64|
                    named_in(out.headers@, h) implies old(l).has_node(h) || old(r).has_node(
                    h,
                ) by {
                    let i = choose|i: int|
                        0 <= i < out.headers@.len() && (#[trigger] out.headers@[i])@.id == h;
                    assert(l.has_node(out.headers@[i]@.id));
                }
            }
            l_quiesced = out.is_done();
            msg = out;
        } else {
            let ghost rpre = *r;
            let out = handle_received_ecg_sync(msg, r, &mut rs);
            proof {
                lemma_extends_trans(*old(r), rpre, *r);
                reveal(named_in);
                assert forall|h: u64|
                    r.has_node(h) implies old(l).has_node(h) || old(r).has_node(h) by {
                    if !rpre.has_node(h) {
                    }
                }
                assert forall|h: u64|
                    named_in(out.headers@, h) implies old(l).has_node(h) || old(r).has_node(
                    h,
                ) by {
                    let i = choose|i: int|
                        0 <= i < out.headers@.len() && (#[trigger] out.headers@[i])@.id == h;
                    assert(r.has_node(out.headers@[i]@.id));
                }
            }
            r_quiesced = out.is_done();
            msg = out;
        }
        proof {
            // a nonempty outgoing message grew a probe or known record;
            // an empty one answers a nonempty one or ends the session
            let p_now = ls.probed_ids().len() + ls.known_ids().len() + rs.probed_ids().len()
                + rs.known_ids().len();
            assert(p_now >= p_pre);
            if !(l_quiesced && r_quiesced) {
                if msg.have@.len() == 0 && msg.headers@.len() == 0 {
                    assert(!msg_was_empty);
                } else {
                    assert(p_now >= p_pre + 1);
                }
            }
        }
        client_turn = !client_turn;
        rounds += 1;
    }
    proof {
        // the budget never runs out: were a side still talking, the
        // round count would sit below the cap
        if !(l_quiesced && r_quiesced) {
            reveal(crate::ecg::State::wf);
            lemma_wf_for_bounds(ls, *l);
            lemma_wf_for_bounds(rs, *r);
            lemma_union_bound(*l, *old(l), *old(r));
            lemma_union_bound(*r, *old(l), *old(r));
            assert(rounds as int <= 8 * n0 + 2);
            assert(false);
        }
    }
    // both directions went quiet; success is exactly agreement
    if crate::ecg::equal_dags(&*l, &*r) {
        Ok(())
    } else {
        Err(ECGSyncError::ProtocolViolation)
    }
}

} // verus!
