//! The socket-address link table and the set of active node services.
//!
//! A simpler, single-map dataplane keeps a process-wide table of
//! directed links between socket addresses with their bandwidths, and a
//! set of addresses whose forwarding service is running.  Link changes
//! and service starts and stops mutate them; the forwarding decision
//! reads the table.

use vstd::prelude::*;

use crate::addr::SockAddrV4;
use crate::codec::{decode_header, encode_source, header_addr, header_bytes};
use crate::MESSAGE_LENGTH;

verus! {

/// One directed link between two socket addresses.
#[derive(Clone, Copy, PartialEq, Eq, Structural, Debug)]
pub struct LinkEntry {
    /// The sending endpoint.
    pub src: SockAddrV4,
    /// The receiving endpoint.
    pub dst: SockAddrV4,
    /// The link's bandwidth; zero refuses every packet.
    pub bw: usize,
}

/// The index of the first entry for the pair, or -1 if none.
pub open spec fn find_pair_index(s: Seq<LinkEntry>, src: SockAddrV4, dst: SockAddrV4) -> int
    decreases s.len(),
{
    if s.len() == 0 {
        -1
    } else if s[0].src == src && s[0].dst == dst {
        0
    } else {
        let r = find_pair_index(s.drop_first(), src, dst);
        if r < 0 {
            -1
        } else {
            r + 1
        }
    }
}

/// The bandwidth stored for the pair, if any.
pub open spec fn pair_bw(s: Seq<LinkEntry>, src: SockAddrV4, dst: SockAddrV4) -> Option<usize> {
    let i = find_pair_index(s, src, dst);
    if i >= 0 {
        Some(s[i].bw)
    } else {
        None
    }
}

/// No two entries share an endpoint pair.
pub open spec fn unique_pairs(s: Seq<LinkEntry>) -> bool {
    forall|i: int, j: int|
        0 <= i < j < s.len() ==> ((#[trigger] s[i]).src != (#[trigger] s[j]).src || s[i].dst
            != s[j].dst)
}

/// What `find_pair_index` returns: a valid index of the first entry
/// for the pair, or -1 when there is none.
pub proof fn lemma_find_pair_index(s: Seq<LinkEntry>, src: SockAddrV4, dst: SockAddrV4)
    ensures
        find_pair_index(s, src, dst) >= 0 ==> {
            &&& 0 <= find_pair_index(s, src, dst) < s.len()
            &&& s[find_pair_index(s, src, dst)].src == src
            &&& s[find_pair_index(s, src, dst)].dst == dst
            &&& forall|j: int|
                0 <= j < find_pair_index(s, src, dst) ==> ((#[trigger] s[j]).src != src || s[j].dst
                    != dst)
        },
        find_pair_index(s, src, dst) < 0 ==> forall|j: int|
            0 <= j < s.len() ==> ((#[trigger] s[j]).src != src || s[j].dst != dst),
    decreases s.len(),
{
    if s.len() > 0 && !(s[0].src == src && s[0].dst == dst) {
        lemma_find_pair_index(s.drop_first(), src, dst);
        assert forall|j: int|
            0 <= j < s.len() && (#[trigger] s[j]).src == src && s[j].dst
                == dst implies find_pair_index(s, src, dst) >= 0 by {
            if j > 0 {
                assert(s.drop_first()[j - 1] == s[j]);
            }
        }
        if find_pair_index(s, src, dst) >= 0 {
            assert forall|j: int| 0 <= j < find_pair_index(s, src, dst) implies ((
            #[trigger] s[j]).src != src || s[j].dst != dst) by {
                if j > 0 {
                    assert(s.drop_first()[j - 1] == s[j]);
                }
            }
        }
    }
}

/// The process-wide table of directed links and their bandwidths.
pub struct LinkMap {
    /// The entries, pairwise-distinct endpoint pairs.
    pub entries: Vec<LinkEntry>,
}

impl LinkMap {
    /// No endpoint pair appears twice.
    pub open spec fn wf(self) -> bool {
        unique_pairs(self.entries@)
    }

    /// An empty link table.
    pub fn new() -> (r: LinkMap)
        ensures
            r.wf(),
            r.entries@.len() == 0,
    {
        LinkMap { entries: Vec::new() }
    }

    /// Create or reset one directed link: the pair now has bandwidth
    /// `bw`, every other pair is untouched.
    pub fn set(&mut self, src: SockAddrV4, dst: SockAddrV4, bw: usize)
        requires
            old(self).wf(),
        ensures
            final(self).wf(),
            pair_bw(final(self).entries@, src, dst) == Some(bw),
            forall|s2: SockAddrV4, d2: SockAddrV4|
                (s2 != src || d2 != dst) ==> #[trigger] pair_bw(final(self).entries@, s2, d2)
                    == pair_bw(old(self).entries@, s2, d2),
    {
        let ghost e0 = self.entries@;
        let n = self.entries.len();
        let mut k: usize = 0;
        while k < n
            invariant
                self.entries@ == e0,
                n == e0.len(),
                k <= n,
                find_pair_index(e0, src, dst) >= 0 ==> find_pair_index(e0, src, dst) >= k,
                find_pair_index(e0, src, dst) < 0 ==> forall|j: int|
                    0 <= j < k ==> ((#[trigger] e0[j]).src != src || e0[j].dst != dst),
            decreases n - k,
        {
            proof {
                lemma_find_pair_index(e0, src, dst);
            }
            if self.entries[k].src == src && self.entries[k].dst == dst {
                proof {
                    assert(find_pair_index(e0, src, dst) == k);
                }
                self.entries[k] = LinkEntry { src, dst, bw };
                proof {
                    lemma_pair_update(e0, k as int, LinkEntry { src, dst, bw }, src, dst);
                    assert forall|s2: SockAddrV4, d2: SockAddrV4|
                        (s2 != src || d2 != dst) implies #[trigger] pair_bw(self.entries@, s2, d2)
                        == pair_bw(e0, s2, d2) by {
                        lemma_pair_update(e0, k as int, LinkEntry { src, dst, bw }, s2, d2);
                        lemma_find_pair_index(e0, s2, d2);
                        if find_pair_index(e0, s2, d2) >= 0 && find_pair_index(e0, s2, d2) != k {
                            assert(self.entries@[find_pair_index(e0, s2, d2)] == e0[find_pair_index(
                                e0,
                                s2,
                                d2,
                            )]);
                        }
                    }
                    assert forall|p: int, q: int|
                        0 <= p < q < self.entries@.len() implies ((#[trigger] self.entries@[p]).src
                        != (#[trigger] self.entries@[q]).src || self.entries@[p].dst
                        != self.entries@[q].dst) by {
                        assert(self.entries@[p].src == e0[p].src || p == k);
                        assert(e0[p].src == src && e0[p].dst == dst ==> p == k) by {
                            lemma_find_pair_index(e0, src, dst);
                        }
                    }
                }
                return ;
            }
            k = k + 1;
        }
        proof {
            lemma_find_pair_index(e0, src, dst);
        }
        self.entries.push(LinkEntry { src, dst, bw });
        proof {
            lemma_pair_push(e0, LinkEntry { src, dst, bw }, src, dst);
            assert forall|s2: SockAddrV4, d2: SockAddrV4|
                (s2 != src || d2 != dst) implies #[trigger] pair_bw(self.entries@, s2, d2)
                == pair_bw(e0, s2, d2) by {
                lemma_pair_push(e0, LinkEntry { src, dst, bw }, s2, d2);
                lemma_find_pair_index(e0, s2, d2);
            }
            assert forall|p: int, q: int|
                0 <= p < q < self.entries@.len() implies ((#[trigger] self.entries@[p]).src != (
            #[trigger] self.entries@[q]).src || self.entries@[p].dst != self.entries@[q].dst) by {
                if q == e0.len() {
                    assert(self.entries@[q] == (LinkEntry { src, dst, bw }));
                    assert(self.entries@[p] == e0[p]);
                }
            }
        }
    }

    /// The bandwidth of one directed link, if it was declared.
    pub fn get(&self, src: SockAddrV4, dst: SockAddrV4) -> (r: Option<usize>)
        ensures
            r == pair_bw(self.entries@, src, dst),
    {
        let n = self.entries.len();
        let mut k: usize = 0;
        while k < n
            invariant
                k <= n,
                n == self.entries@.len(),
                find_pair_index(self.entries@, src, dst) >= 0 ==> find_pair_index(
                    self.entries@,
                    src,
                    dst,
                ) >= k,
                find_pair_index(self.entries@, src, dst) < 0 ==> forall|j: int|
                    0 <= j < k ==> ((#[trigger] self.entries@[j]).src != src
                        || self.entries@[j].dst != dst),
            decreases n - k,
        {
            proof {
                lemma_find_pair_index(self.entries@, src, dst);
            }
            if self.entries[k].src == src && self.entries[k].dst == dst {
                proof {
                    lemma_find_pair_index(self.entries@, src, dst);
                    assert(self.entries@[k as int].src == src && self.entries@[k as int].dst
                        == dst);
                    assert(find_pair_index(self.entries@, src, dst) == k);
                }
                return Some(self.entries[k].bw);
            }
            k = k + 1;
        }
        proof {
            lemma_find_pair_index(self.entries@, src, dst);
        }
        None
    }
}

/// Replacing an entry in place, pair kept, moves no pair's first index.
proof fn lemma_pair_update(s: Seq<LinkEntry>, i: int, e: LinkEntry, src: SockAddrV4, dst: SockAddrV4)
    requires
        0 <= i < s.len(),
        s[i].src == e.src,
        s[i].dst == e.dst,
    ensures
        find_pair_index(s.update(i, e), src, dst) == find_pair_index(s, src, dst),
    decreases s.len(),
{
    let s2 = s.update(i, e);
    if i == 0 {
        if !(s[0].src == src && s[0].dst == dst) {
            assert(s2.drop_first() =~= s.drop_first());
        }
    } else {
        assert(s2[0] == s[0]);
        if !(s[0].src == src && s[0].dst == dst) {
            assert(s2.drop_first() =~= s.drop_first().update(i - 1, e));
            lemma_pair_update(s.drop_first(), i - 1, e, src, dst);
        }
    }
}

/// Appending an entry changes lookups only for its own pair, and only
/// when that pair was absent.
proof fn lemma_pair_push(s: Seq<LinkEntry>, e: LinkEntry, src: SockAddrV4, dst: SockAddrV4)
    ensures
        find_pair_index(s, src, dst) >= 0 ==> find_pair_index(s.push(e), src, dst)
            == find_pair_index(s, src, dst),
        find_pair_index(s, src, dst) < 0 && e.src == src && e.dst == dst ==> find_pair_index(
            s.push(e),
            src,
            dst,
        ) == s.len(),
        find_pair_index(s, src, dst) < 0 && !(e.src == src && e.dst == dst) ==> find_pair_index(
            s.push(e),
            src,
            dst,
        ) < 0,
    decreases s.len(),
{
    if s.len() == 0 {
        assert(s.push(e)[0] == e);
        assert(s.push(e).drop_first() =~= Seq::<LinkEntry>::empty());
        assert(find_pair_index(Seq::<LinkEntry>::empty(), src, dst) == -1);
    } else if !(s[0].src == src && s[0].dst == dst) {
        assert(s.push(e)[0] == s[0]);
        assert(s.push(e).drop_first() =~= s.drop_first().push(e));
        lemma_pair_push(s.drop_first(), e, src, dst);
    }
}

/// The set of socket addresses whose node service is running.
pub struct ActiveSet {
    /// The active addresses, pairwise distinct.
    pub nodes: Vec<SockAddrV4>,
}

impl ActiveSet {
    /// No address appears twice.
    pub open spec fn wf(self) -> bool {
        forall|i: int, j: int|
            0 <= i < j < self.nodes@.len() ==> #[trigger] self.nodes@[i] != #[trigger] self.nodes@[j]
    }

    /// Whether the address's service is running.
    pub open spec fn spec_active(self, node: SockAddrV4) -> bool {
        self.nodes@.contains(node)
    }

    /// No service running.
    pub fn new() -> (r: ActiveSet)
        ensures
            r.wf(),
            r.nodes@.len() == 0,
    {
        ActiveSet { nodes: Vec::new() }
    }

    /// Start the address's service: returns whether one was already
    /// running, in which case nothing changes; otherwise the address is
    /// now active.
    pub fn activate(&mut self, node: SockAddrV4) -> (existed: bool)
        requires
            old(self).wf(),
        ensures
            final(self).wf(),
            existed == old(self).spec_active(node),
            final(self).spec_active(node),
            forall|x: SockAddrV4| x != node ==> (final(self).spec_active(x) <==> old(
                self,
            ).spec_active(x)),
            existed ==> final(self).nodes == old(self).nodes,
    {
        let n = self.nodes.len();
        let mut k: usize = 0;
        while k < n
            invariant
                k <= n,
                n == self.nodes@.len(),
                forall|j: int| 0 <= j < k ==> self.nodes@[j] != node,
            decreases n - k,
        {
            if self.nodes[k] == node {
                return true;
            }
            k = k + 1;
        }
        let ghost n0 = self.nodes@;
        self.nodes.push(node);
        proof {
            assert(self.nodes@[n0.len() as int] == node);
            assert forall|x: SockAddrV4| x != node implies (self.nodes@.contains(x)
                <==> n0.contains(x)) by {
                if n0.contains(x) {
                    let w = choose|w: int| 0 <= w < n0.len() && n0[w] == x;
                    assert(self.nodes@[w] == x);
                }
                if self.nodes@.contains(x) {
                    let w = choose|w: int| 0 <= w < self.nodes@.len() && self.nodes@[w] == x;
                    assert(n0[w] == x);
                }
            }
            assert forall|i: int, j: int|
                0 <= i < j < self.nodes@.len() implies #[trigger] self.nodes@[i]
                != #[trigger] self.nodes@[j] by {
                if j == n0.len() {
                    assert(self.nodes@[i] == n0[i]);
                }
            }
        }
        false
    }

    /// Stop the address's service: returns whether one was running, in
    /// which case the address is no longer active; otherwise nothing
    /// changes.
    pub fn deactivate(&mut self, node: SockAddrV4) -> (existed: bool)
        requires
            old(self).wf(),
        ensures
            final(self).wf(),
            existed == old(self).spec_active(node),
            !final(self).spec_active(node),
            forall|x: SockAddrV4| x != node ==> (final(self).spec_active(x) <==> old(
                self,
            ).spec_active(x)),
            !existed ==> final(self).nodes@ == old(self).nodes@,
    {
        let n = self.nodes.len();
        let mut k: usize = 0;
        while k < n
            invariant
                k <= n,
                self.nodes@ == old(self).nodes@,
                n == self.nodes@.len(),
                forall|j: int| 0 <= j < k ==> self.nodes@[j] != node,
            decreases n - k,
        {
            if self.nodes[k] == node {
                let ghost n0 = self.nodes@;
                let _ = self.nodes.remove(k);
                proof {
                    n0.remove_ensures(k as int);
                    assert forall|i: int, j: int|
                        0 <= i < j < self.nodes@.len() implies #[trigger] self.nodes@[i]
                        != #[trigger] self.nodes@[j] by {
                        if i < k {
                            assert(self.nodes@[i] == n0[i]);
                        } else {
                            assert(self.nodes@[i] == n0[i + 1]);
                        }
                        if j < k {
                            assert(self.nodes@[j] == n0[j]);
                        } else {
                            assert(self.nodes@[j] == n0[j + 1]);
                        }
                    }
                    assert(!self.nodes@.contains(node)) by {
                        if self.nodes@.contains(node) {
                            let w = choose|w: int|
                                0 <= w < self.nodes@.len() && self.nodes@[w] == node;
                            if w < k {
                                assert(n0[w] == node);
                            } else {
                                assert(n0[w + 1] == node);
                            }
                            assert(n0[k as int] == node);
                            assert(false);
                        }
                    }
                    assert(n0.contains(node)) by {
                        assert(n0[k as int] == node);
                    }
                    assert forall|x: SockAddrV4| x != node implies (self.nodes@.contains(x)
                        <==> n0.contains(x)) by {
                        if n0.contains(x) {
                            let w = choose|w: int| 0 <= w < n0.len() && n0[w] == x;
                            if w < k {
                                assert(self.nodes@[w] == x);
                            } else {
                                assert(w != k);
                                assert(self.nodes@[w - 1] == x);
                            }
                        }
                        if self.nodes@.contains(x) {
                            let w = choose|w: int|
                                0 <= w < self.nodes@.len() && self.nodes@[w] == x;
                            if w < k {
                                assert(n0[w] == x);
                            } else {
                                assert(n0[w + 1] == x);
                            }
                        }
                    }
                }
                return true;
            }
            k = k + 1;
        }
        proof {
            assert(!self.nodes@.contains(node)) by {
                if self.nodes@.contains(node) {
                    let w = choose|w: int| 0 <= w < self.nodes@.len() && self.nodes@[w] == node;
                }
            }
        }
        false
    }
}

/// Why the single-map dataplane refused to forward a packet.
#[derive(Clone, Copy, PartialEq, Eq, Structural, Debug)]
pub enum ForwardError {
    /// The packet has no room for the six-byte header.
    TooShort,
    /// No link is declared between the source and the target.
    NoLink,
    /// The declared link has bandwidth zero.
    ZeroBandwidth,
}

/// The single-map dataplane's forwarding decision for one packet from
/// `src`: read the target from the header, overwrite the header with
/// the source's identity, and look the link up.  Too short a packet, a
/// missing link or a zero bandwidth refuse it; otherwise the target
/// and the pacing delay `(len + 2) * 8 / bw` milliseconds come back,
/// the packet ready to send.  The header is rewritten whenever the
/// packet has one, even when the link then refuses it.
pub fn forward_decision(links: &LinkMap, src: SockAddrV4, buf: &mut Vec<u8>) -> (r: Result<
    (SockAddrV4, u64),
    ForwardError,
>)
    requires
        old(buf)@.len() <= MESSAGE_LENGTH,
    ensures
        old(buf)@.len() < 6 ==> r == Err::<(SockAddrV4, u64), ForwardError>(ForwardError::TooShort)
            && *final(buf) == *old(buf),
        old(buf)@.len() >= 6 ==> {
            &&& final(buf)@.len() == old(buf)@.len()
            &&& final(buf)@.subrange(0, 6) == header_bytes(src)
            &&& forall|i: int| 6 <= i < final(buf)@.len() ==> final(buf)@[i] == old(buf)@[i]
            &&& r == (match pair_bw(links.entries@, src, header_addr(old(buf)@)) {
                None => Err::<(SockAddrV4, u64), ForwardError>(ForwardError::NoLink),
                Some(bw) => if bw == 0 {
                    Err::<(SockAddrV4, u64), ForwardError>(ForwardError::ZeroBandwidth)
                } else {
                    Ok::<(SockAddrV4, u64), ForwardError>(
                        (header_addr(old(buf)@), crate::cost::spec_delay_ms(old(buf)@.len() as usize, bw)),
                    )
                },
            })
        },
{
    let len = buf.len();
    if len < 6 {
        return Err(ForwardError::TooShort);
    }
    let target = decode_header(buf.as_slice());
    encode_source(buf, src);
    match links.get(src, target) {
        None => Err(ForwardError::NoLink),
        Some(bw) => {
            if bw == 0 {
                Err(ForwardError::ZeroBandwidth)
            } else {
                let delay = crate::cost::delay_ms(len, bw);
                Ok((target, delay))
            }
        },
    }
}

} // verus!
