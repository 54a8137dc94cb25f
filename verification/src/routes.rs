//! Links and per-router routing tables.
//!
//! A router's outgoing links carry a declared bandwidth; its routing
//! table maps destinations to a cost and a next hop.  The table is an
//! association list with pairwise-distinct destinations, updated by
//! "insert if missing or strictly cheaper", exactly the relaxation the
//! periodic route update performs.

use vstd::prelude::*;

use crate::addr::Ipv4;
use crate::cost::spec_link_cost;
use crate::sat_add64;

verus! {

/// A directed link to a neighbor with its declared bandwidth in bits
/// per millisecond.
#[derive(Clone, Copy, PartialEq, Eq, Structural, Debug)]
pub struct Link {
    /// The neighbor this link leads to.
    pub to: Ipv4,
    /// The link's bandwidth; zero means the link drops everything.
    pub bw: usize,
}

/// One routing-table row: to reach `dst`, go through neighbor `hop` at
/// total cost `cost`.
#[derive(Clone, Copy, PartialEq, Eq, Structural, Debug)]
pub struct RouteEntry {
    /// The destination this row routes to.
    pub dst: Ipv4,
    /// The path cost in `COST_SCALE`-scaled time-per-bit units.
    pub cost: u64,
    /// The neighbor the packet is handed to next.
    pub hop: Ipv4,
}

/// The index of the first row for destination `d`, or -1 if none.
pub open spec fn find_index(t: Seq<RouteEntry>, d: Ipv4) -> int
    decreases t.len(),
{
    if t.len() == 0 {
        -1
    } else if t[0].dst == d {
        0
    } else {
        let r = find_index(t.drop_first(), d);
        if r < 0 {
            -1
        } else {
            r + 1
        }
    }
}

/// The first row for destination `d`, if the table has one.
pub open spec fn find_route(t: Seq<RouteEntry>, d: Ipv4) -> Option<RouteEntry> {
    let i = find_index(t, d);
    if i >= 0 {
        Some(t[i])
    } else {
        None
    }
}

/// The cost stored for destination `d`: `None` stands for "no route",
/// the infinite cost.
pub open spec fn tbl_cost(t: Seq<RouteEntry>, d: Ipv4) -> Option<u64> {
    match find_route(t, d) {
        Some(e) => Some(e.cost),
        None => None,
    }
}

/// No two rows share a destination.
pub open spec fn unique_dsts(t: Seq<RouteEntry>) -> bool {
    forall|i: int, j: int| 0 <= i < j < t.len() ==> (#[trigger] t[i]).dst != (#[trigger] t[j]).dst
}

/// What `find_index` returns: a valid index of the first row for `d`,
/// or -1 when no row has destination `d`.
pub proof fn lemma_find_index(t: Seq<RouteEntry>, d: Ipv4)
    ensures
        find_index(t, d) >= 0 ==> {
            &&& 0 <= find_index(t, d) < t.len()
            &&& t[find_index(t, d)].dst == d
            &&& forall|j: int| 0 <= j < find_index(t, d) ==> (#[trigger] t[j]).dst != d
        },
        find_index(t, d) < 0 ==> forall|j: int| 0 <= j < t.len() ==> (#[trigger] t[j]).dst != d,
    decreases t.len(),
{
    if t.len() > 0 && t[0].dst != d {
        lemma_find_index(t.drop_first(), d);
        assert forall|j: int| 0 <= j < t.len() && (#[trigger] t[j]).dst == d implies find_index(
            t,
            d,
        ) >= 0 by {
            if j > 0 {
                assert(t.drop_first()[j - 1] == t[j]);
            }
        }
        if find_index(t, d) >= 0 {
            assert forall|j: int| 0 <= j < find_index(t, d) implies (#[trigger] t[j]).dst != d by {
                if j > 0 {
                    assert(t.drop_first()[j - 1] == t[j]);
                }
            }
        }
    }
}

/// A table after "insert `d` if missing or strictly cheaper than the
/// row it already has".
pub open spec fn spec_upsert(t: Seq<RouteEntry>, d: Ipv4, cost: u64, hop: Ipv4) -> Seq<
    RouteEntry,
> {
    let i = find_index(t, d);
    if i < 0 {
        t.push(RouteEntry { dst: d, cost, hop })
    } else if cost < t[i].cost {
        t.update(i, RouteEntry { dst: d, cost, hop })
    } else {
        t
    }
}

/// Updating a row in place does not move any destination, so lookups
/// of every destination find the same index.
pub proof fn lemma_find_index_update(t: Seq<RouteEntry>, i: int, e: RouteEntry, d: Ipv4)
    requires
        0 <= i < t.len(),
        t[i].dst == e.dst,
    ensures
        find_index(t.update(i, e), d) == find_index(t, d),
    decreases t.len(),
{
    let t2 = t.update(i, e);
    if i == 0 {
        if t[0].dst != d {
            assert(t2.drop_first() =~= t.drop_first());
        }
    } else {
        assert(t2[0] == t[0]);
        if t[0].dst != d {
            assert(t2.drop_first() =~= t.drop_first().update(i - 1, e));
            lemma_find_index_update(t.drop_first(), i - 1, e, d);
        }
    }
}

/// Appending a row changes lookups only for destinations the table did
/// not have.
pub proof fn lemma_find_index_push(t: Seq<RouteEntry>, e: RouteEntry, d: Ipv4)
    ensures
        find_index(t, d) >= 0 ==> find_index(t.push(e), d) == find_index(t, d),
        find_index(t, d) < 0 && e.dst == d ==> find_index(t.push(e), d) == t.len(),
        find_index(t, d) < 0 && e.dst != d ==> find_index(t.push(e), d) < 0,
    decreases t.len(),
{
    if t.len() == 0 {
        assert(t.push(e)[0] == e);
        assert(t.push(e).drop_first() =~= Seq::<RouteEntry>::empty());
        assert(find_index(Seq::<RouteEntry>::empty(), d) == -1);
        if e.dst == d {
            assert(find_index(t.push(e), d) == 0);
        } else {
            assert(find_index(t.push(e), d) == -1);
        }
    } else if t[0].dst != d {
        assert(t.push(e)[0] == t[0]);
        assert(t.push(e).drop_first() =~= t.drop_first().push(e));
        lemma_find_index_push(t.drop_first(), e, d);
    }
}

/// How one upsert changes every lookup: destination `d` now costs the
/// cheaper of its old cost and the offered one (with the offered hop if
/// it won), and every other destination is untouched.  Distinctness of
/// destinations is preserved.
pub proof fn lemma_upsert(t: Seq<RouteEntry>, d: Ipv4, cost: u64, hop: Ipv4)
    requires
        unique_dsts(t),
    ensures
        unique_dsts(spec_upsert(t, d, cost, hop)),
        find_route(spec_upsert(t, d, cost, hop), d) == (match find_route(t, d) {
            None => Some(RouteEntry { dst: d, cost, hop }),
            Some(e) => if cost < e.cost {
                Some(RouteEntry { dst: d, cost, hop })
            } else {
                Some(e)
            },
        }),
        forall|x: Ipv4| x != d ==> #[trigger] find_route(spec_upsert(t, d, cost, hop), x)
            == find_route(t, x),
{
    let i = find_index(t, d);
    let e = RouteEntry { dst: d, cost, hop };
    lemma_find_index(t, d);
    if i < 0 {
        let t2 = t.push(e);
        lemma_find_index_push(t, e, d);
        assert forall|x: Ipv4| x != d implies #[trigger] find_route(t2, x) == find_route(t, x) by {
            lemma_find_index_push(t, e, x);
            lemma_find_index(t, x);
        }
        assert(unique_dsts(t2)) by {
            assert forall|p: int, q: int| 0 <= p < q < t2.len() implies (#[trigger] t2[p]).dst != (
            #[trigger] t2[q]).dst by {
                if q == t.len() {
                    assert(t2[q] == e);
                }
            }
        }
    } else if cost < t[i].cost {
        let t2 = t.update(i, e);
        lemma_find_index_update(t, i, e, d);
        assert forall|x: Ipv4| x != d implies #[trigger] find_route(t2, x) == find_route(t, x) by {
            lemma_find_index_update(t, i, e, x);
            lemma_find_index(t, x);
            if find_index(t, x) >= 0 {
                assert(t2[find_index(t, x)] == t[find_index(t, x)]);
            }
        }
        assert(unique_dsts(t2)) by {
            assert forall|p: int, q: int| 0 <= p < q < t2.len() implies (#[trigger] t2[p]).dst != (
            #[trigger] t2[q]).dst by {
                assert(t2[p].dst == t[p].dst);
                assert(t2[q].dst == t[q].dst);
            }
        }
    }
}

/// Look a destination up in a routing table.
pub fn lookup_route(t: &Vec<RouteEntry>, d: Ipv4) -> (r: Option<RouteEntry>)
    ensures
        r == find_route(t@, d),
{
    let n = t.len();
    let mut k: usize = 0;
    while k < n
        invariant
            n == t@.len(),
            k <= n,
            find_index(t@, d) >= 0 ==> find_index(t@, d) >= k,
            find_index(t@, d) < 0 ==> forall|j: int| 0 <= j < k ==> (#[trigger] t@[j]).dst != d,
        decreases n - k,
    {
        proof {
            lemma_find_index(t@, d);
        }
        if t[k].dst == d {
            proof {
                lemma_find_index(t@, d);
                assert(find_index(t@, d) == k);
            }
            return Some(t[k]);
        }
        k = k + 1;
    }
    proof {
        lemma_find_index(t@, d);
    }
    None
}

/// Insert a row for `d` if the table has none, or replace the row it
/// has if the offered cost is strictly cheaper; otherwise leave the
/// table as it is.
pub fn upsert_route(t: &mut Vec<RouteEntry>, d: Ipv4, cost: u64, hop: Ipv4)
    ensures
        final(t)@ == spec_upsert(old(t)@, d, cost, hop),
{
    let ghost t0 = t@;
    let n = t.len();
    let mut k: usize = 0;
    while k < n
        invariant
            t@ == t0,
            n == t0.len(),
            k <= n,
            find_index(t0, d) >= 0 ==> find_index(t0, d) >= k,
            find_index(t0, d) < 0 ==> forall|j: int| 0 <= j < k ==> (#[trigger] t0[j]).dst != d,
        decreases n - k,
    {
        proof {
            lemma_find_index(t0, d);
        }
        if t[k].dst == d {
            proof {
                lemma_find_index(t0, d);
                assert(find_index(t0, d) == k);
            }
            if cost < t[k].cost {
                t[k] = RouteEntry { dst: d, cost, hop };
                proof {
                    assert(t@ =~= t0.update(k as int, RouteEntry { dst: d, cost, hop }));
                }
            }
            return ;
        }
        k = k + 1;
    }
    proof {
        lemma_find_index(t0, d);
    }
    t.push(RouteEntry { dst: d, cost, hop });
}

/// No two links lead to the same neighbor.
pub open spec fn unique_links(s: Seq<Link>) -> bool {
    forall|i: int, j: int| 0 <= i < j < s.len() ==> (#[trigger] s[i]).to != (#[trigger] s[j]).to
}

/// The index of the first link to `to`, or -1 if none.
pub open spec fn find_link_index(s: Seq<Link>, to: Ipv4) -> int
    decreases s.len(),
{
    if s.len() == 0 {
        -1
    } else if s[0].to == to {
        0
    } else {
        let r = find_link_index(s.drop_first(), to);
        if r < 0 {
            -1
        } else {
            r + 1
        }
    }
}

/// The first link to `to`, if there is one.
pub open spec fn find_link(s: Seq<Link>, to: Ipv4) -> Option<Link> {
    let i = find_link_index(s, to);
    if i >= 0 {
        Some(s[i])
    } else {
        None
    }
}

/// What `find_link_index` returns: a valid index of the first link to
/// `to`, or -1 when no link leads there.
pub proof fn lemma_find_link_index(s: Seq<Link>, to: Ipv4)
    ensures
        find_link_index(s, to) >= 0 ==> {
            &&& 0 <= find_link_index(s, to) < s.len()
            &&& s[find_link_index(s, to)].to == to
            &&& forall|j: int| 0 <= j < find_link_index(s, to) ==> (#[trigger] s[j]).to != to
        },
        find_link_index(s, to) < 0 ==> forall|j: int| 0 <= j < s.len() ==> (#[trigger] s[j]).to
            != to,
    decreases s.len(),
{
    if s.len() > 0 && s[0].to != to {
        lemma_find_link_index(s.drop_first(), to);
        assert forall|j: int| 0 <= j < s.len() && (#[trigger] s[j]).to == to implies find_link_index(
            s,
            to,
        ) >= 0 by {
            if j > 0 {
                assert(s.drop_first()[j - 1] == s[j]);
            }
        }
        if find_link_index(s, to) >= 0 {
            assert forall|j: int| 0 <= j < find_link_index(s, to) implies (#[trigger] s[j]).to
                != to by {
                if j > 0 {
                    assert(s.drop_first()[j - 1] == s[j]);
                }
            }
        }
    }
}

/// A link set after "insert or replace the link to `to`".
pub open spec fn spec_set_link(s: Seq<Link>, to: Ipv4, bw: usize) -> Seq<Link> {
    let i = find_link_index(s, to);
    if i < 0 {
        s.push(Link { to, bw })
    } else {
        s.update(i, Link { to, bw })
    }
}

/// How setting one link changes every lookup: the link to `to` now has
/// bandwidth `bw`, every other neighbor's link is untouched, and
/// distinctness of neighbors is preserved.
pub proof fn lemma_set_link(s: Seq<Link>, to: Ipv4, bw: usize)
    requires
        unique_links(s),
    ensures
        unique_links(spec_set_link(s, to, bw)),
        find_link(spec_set_link(s, to, bw), to) == Some(Link { to, bw }),
        forall|x: Ipv4| x != to ==> #[trigger] find_link(spec_set_link(s, to, bw), x) == find_link(
            s,
            x,
        ),
        spec_set_link(s, to, bw).len() == (if find_link_index(s, to) < 0 {
            s.len() + 1
        } else {
            s.len()
        }) as int,
    decreases s.len(),
{
    let i = find_link_index(s, to);
    let e = Link { to, bw };
    lemma_find_link_index(s, to);
    if i < 0 {
        let s2 = s.push(e);
        lemma_find_link_push(s, e, to);
        assert forall|x: Ipv4| x != to implies #[trigger] find_link(s2, x) == find_link(s, x) by {
            lemma_find_link_push(s, e, x);
            lemma_find_link_index(s, x);
        }
        assert forall|p: int, q: int| 0 <= p < q < s2.len() implies (#[trigger] s2[p]).to != (
        #[trigger] s2[q]).to by {
            if q == s.len() {
                assert(s2[q] == e);
            }
        }
    } else {
        let s2 = s.update(i, e);
        lemma_find_link_update(s, i, e, to);
        assert forall|x: Ipv4| x != to implies #[trigger] find_link(s2, x) == find_link(s, x) by {
            lemma_find_link_update(s, i, e, x);
            lemma_find_link_index(s, x);
            if find_link_index(s, x) >= 0 {
                assert(s2[find_link_index(s, x)] == s[find_link_index(s, x)]);
            }
        }
        assert forall|p: int, q: int| 0 <= p < q < s2.len() implies (#[trigger] s2[p]).to != (
        #[trigger] s2[q]).to by {
            assert(s2[p].to == s[p].to);
            assert(s2[q].to == s[q].to);
        }
    }
}

/// Replacing a link in place moves no neighbor, so lookups of every
/// neighbor find the same index.
pub proof fn lemma_find_link_update(s: Seq<Link>, i: int, e: Link, x: Ipv4)
    requires
        0 <= i < s.len(),
        s[i].to == e.to,
    ensures
        find_link_index(s.update(i, e), x) == find_link_index(s, x),
    decreases s.len(),
{
    let s2 = s.update(i, e);
    if i == 0 {
        if s[0].to != x {
            assert(s2.drop_first() =~= s.drop_first());
        }
    } else {
        assert(s2[0] == s[0]);
        if s[0].to != x {
            assert(s2.drop_first() =~= s.drop_first().update(i - 1, e));
            lemma_find_link_update(s.drop_first(), i - 1, e, x);
        }
    }
}

/// Appending a link changes lookups only for the neighbor it leads to,
/// and only when no link led there before.
pub proof fn lemma_find_link_push(s: Seq<Link>, e: Link, x: Ipv4)
    ensures
        find_link_index(s, x) >= 0 ==> find_link_index(s.push(e), x) == find_link_index(s, x),
        find_link_index(s, x) < 0 && e.to == x ==> find_link_index(s.push(e), x) == s.len(),
        find_link_index(s, x) < 0 && e.to != x ==> find_link_index(s.push(e), x) < 0,
    decreases s.len(),
{
    if s.len() == 0 {
        assert(s.push(e)[0] == e);
        assert(s.push(e).drop_first() =~= Seq::<Link>::empty());
        assert(find_link_index(Seq::<Link>::empty(), x) == -1);
    } else if s[0].to != x {
        assert(s.push(e)[0] == s[0]);
        assert(s.push(e).drop_first() =~= s.drop_first().push(e));
        lemma_find_link_push(s.drop_first(), e, x);
    }
}

/// Look a neighbor up in a link set.
pub fn lookup_link(s: &Vec<Link>, to: Ipv4) -> (r: Option<Link>)
    ensures
        r == find_link(s@, to),
{
    let n = s.len();
    let mut k: usize = 0;
    while k < n
        invariant
            k <= n,
            find_link_index(s@, to) >= 0 ==> find_link_index(s@, to) >= k,
            find_link_index(s@, to) < 0 ==> forall|j: int| 0 <= j < k ==> (#[trigger] s@[j]).to
                != to,
        decreases n - k,
    {
        proof {
            lemma_find_link_index(s@, to);
        }
        if s[k].to == to {
            proof {
                assert(find_link_index(s@, to) == k);
            }
            return Some(s[k]);
        }
        k = k + 1;
    }
    proof {
        lemma_find_link_index(s@, to);
    }
    None
}

/// Insert a link to `to`, or replace the one already there.
pub fn set_link_in(s: &mut Vec<Link>, to: Ipv4, bw: usize)
    ensures
        final(s)@ == spec_set_link(old(s)@, to, bw),
{
    let ghost s0 = s@;
    let n = s.len();
    let mut k: usize = 0;
    while k < n
        invariant
            s@ == s0,
            n == s0.len(),
            k <= n,
            find_link_index(s0, to) >= 0 ==> find_link_index(s0, to) >= k,
            find_link_index(s0, to) < 0 ==> forall|j: int| 0 <= j < k ==> (#[trigger] s0[j]).to
                != to,
        decreases n - k,
    {
        proof {
            lemma_find_link_index(s0, to);
        }
        if s[k].to == to {
            proof {
                assert(find_link_index(s0, to) == k);
            }
            s[k] = Link { to, bw };
            return ;
        }
        k = k + 1;
    }
    proof {
        lemma_find_link_index(s0, to);
    }
    s.push(Link { to, bw });
}

/// The smaller of two costs, `None` standing for "unreachable".
pub open spec fn min_opt(a: Option<u64>, b: Option<u64>) -> Option<u64> {
    match (a, b) {
        (Option::None, _) => b,
        (_, Option::None) => a,
        (Option::Some(x), Option::Some(y)) => if x <= y {
            Option::Some(x)
        } else {
            Option::Some(y)
        },
    }
}

/// A link cost added in front of a possibly missing onward cost.
pub open spec fn add_opt(lc: u64, c: Option<u64>) -> Option<u64> {
    match c {
        Option::Some(x) => Option::Some(sat_add64(lc, x)),
        Option::None => Option::None,
    }
}

/// Cost order with `None` as the top: `a` reaches at least as cheaply
/// as `b` everywhere `b` reaches at all.
pub open spec fn opt_le(a: Option<u64>, b: Option<u64>) -> bool {
    b is Some ==> (a is Some && a.unwrap() <= b.unwrap())
}

/// The first relaxation pass: one direct entry per positive-bandwidth
/// link, cheapest kept.  This step handles one link.
pub open spec fn pass1_step(t: Seq<RouteEntry>, l: Link) -> Seq<RouteEntry> {
    if l.bw > 0 {
        spec_upsert(t, l.to, spec_link_cost(l.bw), l.to)
    } else {
        t
    }
}

/// The first relaxation pass over all links, in order.
pub open spec fn pass1(t: Seq<RouteEntry>, outers: Seq<Link>) -> Seq<RouteEntry>
    decreases outers.len(),
{
    if outers.len() == 0 {
        t
    } else {
        pass1(pass1_step(t, outers[0]), outers.drop_first())
    }
}

/// Relaxation through one row of a neighbor's table: offer the link
/// cost plus the neighbor's cost, with the neighbor as next hop, unless
/// the row leads back to this router.
pub open spec fn relax_step(
    t: Seq<RouteEntry>,
    self_addr: Ipv4,
    nbr: Ipv4,
    lc: u64,
    e: RouteEntry,
) -> Seq<RouteEntry> {
    if e.dst == self_addr {
        t
    } else {
        spec_upsert(t, e.dst, sat_add64(lc, e.cost), nbr)
    }
}

/// Relaxation through a whole neighbor table, row by row.
pub open spec fn relax_nbr(
    t: Seq<RouteEntry>,
    self_addr: Ipv4,
    nbr: Ipv4,
    lc: u64,
    ntbl: Seq<RouteEntry>,
) -> Seq<RouteEntry>
    decreases ntbl.len(),
{
    if ntbl.len() == 0 {
        t
    } else {
        relax_nbr(relax_step(t, self_addr, nbr, lc, ntbl[0]), self_addr, nbr, lc, ntbl.drop_first())
    }
}

/// The second relaxation pass, one link: if the link has bandwidth and
/// its far end is a registered router, relax through that router's
/// current table.
pub open spec fn pass2_step(
    t: Seq<RouteEntry>,
    self_addr: Ipv4,
    l: Link,
    reg: Map<Ipv4, Seq<RouteEntry>>,
) -> Seq<RouteEntry> {
    if l.bw > 0 && reg.dom().contains(l.to) {
        relax_nbr(t, self_addr, l.to, spec_link_cost(l.bw), reg[l.to])
    } else {
        t
    }
}

/// The second relaxation pass over all links, in order.
pub open spec fn pass2(
    t: Seq<RouteEntry>,
    self_addr: Ipv4,
    outers: Seq<Link>,
    reg: Map<Ipv4, Seq<RouteEntry>>,
) -> Seq<RouteEntry>
    decreases outers.len(),
{
    if outers.len() == 0 {
        t
    } else {
        pass2(pass2_step(t, self_addr, outers[0], reg), self_addr, outers.drop_first(), reg)
    }
}

/// A router's whole periodic route recomputation: direct entries for
/// its positive-bandwidth links, then relaxation through each such
/// neighbor's table, first-seen rows winning ties.
pub open spec fn spec_recompute(
    self_addr: Ipv4,
    outers: Seq<Link>,
    reg: Map<Ipv4, Seq<RouteEntry>>,
) -> Seq<RouteEntry> {
    pass2(pass1(Seq::empty(), outers), self_addr, outers, reg)
}

/// The cheapest single-link cost the links offer to `d`.
pub open spec fn direct_cost(outers: Seq<Link>, d: Ipv4) -> Option<u64>
    decreases outers.len(),
{
    if outers.len() == 0 {
        Option::None
    } else {
        let rest = direct_cost(outers.drop_first(), d);
        if outers[0].to == d && outers[0].bw > 0 {
            min_opt(Option::Some(spec_link_cost(outers[0].bw)), rest)
        } else {
            rest
        }
    }
}

/// The cost one neighbor's table offers for `d`: link cost plus the
/// neighbor's stored cost, unless `d` is this router itself.
pub open spec fn nbr_cost(
    l: Link,
    self_addr: Ipv4,
    reg: Map<Ipv4, Seq<RouteEntry>>,
    d: Ipv4,
) -> Option<u64> {
    if l.bw > 0 && reg.dom().contains(l.to) && d != self_addr {
        add_opt(spec_link_cost(l.bw), tbl_cost(reg[l.to], d))
    } else {
        Option::None
    }
}

/// The cheapest two-hop cost the neighbors' tables offer for `d`.
pub open spec fn via_cost(
    outers: Seq<Link>,
    self_addr: Ipv4,
    reg: Map<Ipv4, Seq<RouteEntry>>,
    d: Ipv4,
) -> Option<u64>
    decreases outers.len(),
{
    if outers.len() == 0 {
        Option::None
    } else {
        min_opt(
            nbr_cost(outers[0], self_addr, reg, d),
            via_cost(outers.drop_first(), self_addr, reg, d),
        )
    }
}

/// What a recomputed table costs to each destination: the cheaper of
/// the best direct link and the best offer through a neighbor's table.
pub open spec fn best_cost(
    self_addr: Ipv4,
    outers: Seq<Link>,
    reg: Map<Ipv4, Seq<RouteEntry>>,
    d: Ipv4,
) -> Option<u64> {
    min_opt(direct_cost(outers, d), via_cost(outers, self_addr, reg, d))
}

/// Every table in a registry snapshot has pairwise-distinct
/// destinations.
pub open spec fn reg_unique(reg: Map<Ipv4, Seq<RouteEntry>>) -> bool {
    forall|ip: Ipv4| reg.dom().contains(ip) ==> unique_dsts(#[trigger] reg[ip])
}

/// What the first pass leaves for each destination: the cheaper of what
/// the table already had and the best direct link.
pub proof fn lemma_pass1_cost(t: Seq<RouteEntry>, outers: Seq<Link>, d: Ipv4)
    requires
        unique_dsts(t),
    ensures
        unique_dsts(pass1(t, outers)),
        tbl_cost(pass1(t, outers), d) == min_opt(tbl_cost(t, d), direct_cost(outers, d)),
    decreases outers.len(),
{
    if outers.len() > 0 {
        let l = outers[0];
        let t2 = pass1_step(t, l);
        if l.bw > 0 {
            lemma_upsert(t, l.to, spec_link_cost(l.bw), l.to);
        }
        lemma_pass1_cost(t2, outers.drop_first(), d);
    }
}

/// What relaxing through one neighbor table leaves for each
/// destination: the cheaper of what the table had and the neighbor's
/// offer, with rows back to this router ignored.
pub proof fn lemma_relax_cost(
    t: Seq<RouteEntry>,
    self_addr: Ipv4,
    nbr: Ipv4,
    lc: u64,
    ntbl: Seq<RouteEntry>,
    d: Ipv4,
)
    requires
        unique_dsts(t),
        unique_dsts(ntbl),
    ensures
        unique_dsts(relax_nbr(t, self_addr, nbr, lc, ntbl)),
        tbl_cost(relax_nbr(t, self_addr, nbr, lc, ntbl), d) == (if d != self_addr {
            min_opt(tbl_cost(t, d), add_opt(lc, tbl_cost(ntbl, d)))
        } else {
            tbl_cost(t, d)
        }),
    decreases ntbl.len(),
{
    if ntbl.len() > 0 {
        let e = ntbl[0];
        let rest = ntbl.drop_first();
        let t2 = relax_step(t, self_addr, nbr, lc, e);
        assert(unique_dsts(rest)) by {
            assert(forall|j: int| 0 <= j < rest.len() ==> rest[j] == ntbl[j + 1]);
        }
        if e.dst != self_addr {
            lemma_upsert(t, e.dst, sat_add64(lc, e.cost), nbr);
        }
        lemma_relax_cost(t2, self_addr, nbr, lc, rest, d);
        lemma_find_index(ntbl, d);
        lemma_find_index(rest, d);
        if d == e.dst {
            assert(find_index(ntbl, d) == 0);
            if find_index(rest, d) >= 0 {
                assert(rest[find_index(rest, d)] == ntbl[find_index(rest, d) + 1]);
                assert(false);
            }
            assert(tbl_cost(rest, d) is None);
        } else {
            if find_index(rest, d) >= 0 {
                assert(rest[find_index(rest, d)] == ntbl[find_index(rest, d) + 1]);
            }
            assert(tbl_cost(ntbl, d) == tbl_cost(rest, d));
        }
    }
}

/// What the second pass leaves for each destination: the cheaper of
/// what the first pass left and the best neighbor offer.
pub proof fn lemma_pass2_cost(
    t: Seq<RouteEntry>,
    self_addr: Ipv4,
    outers: Seq<Link>,
    reg: Map<Ipv4, Seq<RouteEntry>>,
    d: Ipv4,
)
    requires
        unique_dsts(t),
        reg_unique(reg),
    ensures
        unique_dsts(pass2(t, self_addr, outers, reg)),
        tbl_cost(pass2(t, self_addr, outers, reg), d) == (if d != self_addr {
            min_opt(tbl_cost(t, d), via_cost(outers, self_addr, reg, d))
        } else {
            tbl_cost(t, d)
        }),
    decreases outers.len(),
{
    if outers.len() > 0 {
        let l = outers[0];
        let t2 = pass2_step(t, self_addr, l, reg);
        if l.bw > 0 && reg.dom().contains(l.to) {
            lemma_relax_cost(t, self_addr, l.to, spec_link_cost(l.bw), reg[l.to], d);
        }
        lemma_pass2_cost(t2, self_addr, outers.drop_first(), reg, d);
    }
}

/// The recomputed table's cost to each destination is exactly the
/// cheapest candidate: the best direct link, or the best offer through
/// a neighbor's table; for the router's own address, only a direct
/// link counts.
pub proof fn lemma_recompute_cost(
    self_addr: Ipv4,
    outers: Seq<Link>,
    reg: Map<Ipv4, Seq<RouteEntry>>,
    d: Ipv4,
)
    requires
        reg_unique(reg),
    ensures
        unique_dsts(spec_recompute(self_addr, outers, reg)),
        tbl_cost(spec_recompute(self_addr, outers, reg), d) == (if d != self_addr {
            best_cost(self_addr, outers, reg, d)
        } else {
            direct_cost(outers, d)
        }),
{
    let t1 = pass1(Seq::empty(), outers);
    lemma_pass1_cost(Seq::empty(), outers, d);
    lemma_pass2_cost(t1, self_addr, outers, reg, d);
}

/// Some link in `outers` leads to `h` with positive bandwidth.
pub open spec fn has_pos_link(outers: Seq<Link>, h: Ipv4) -> bool {
    exists|j: int| 0 <= j < outers.len() && (#[trigger] outers[j]).to == h && outers[j].bw > 0
}

/// Every next hop the table names is reachable over some
/// positive-bandwidth link.
pub open spec fn hops_valid(t: Seq<RouteEntry>, outers: Seq<Link>) -> bool {
    forall|i: int| 0 <= i < t.len() ==> has_pos_link(outers, (#[trigger] t[i]).hop)
}

/// An upsert whose hop some positive-bandwidth link reaches keeps every
/// hop in the table valid.
pub proof fn lemma_upsert_hops(
    t: Seq<RouteEntry>,
    d: Ipv4,
    cost: u64,
    hop: Ipv4,
    outers: Seq<Link>,
)
    requires
        hops_valid(t, outers),
        has_pos_link(outers, hop),
    ensures
        hops_valid(spec_upsert(t, d, cost, hop), outers),
{
    let t2 = spec_upsert(t, d, cost, hop);
    let i = find_index(t, d);
    lemma_find_index(t, d);
    assert forall|p: int| 0 <= p < t2.len() implies has_pos_link(outers, (#[trigger] t2[p]).hop) by {
        if i < 0 {
            if p < t.len() {
                assert(t2[p] == t[p]);
            } else {
                assert(t2[p].hop == hop);
            }
        } else if cost < t[i].cost {
            if p != i {
                assert(t2[p] == t[p]);
            } else {
                assert(t2[p].hop == hop);
            }
        } else {
            assert(t2[p] == t[p]);
        }
    }
}

/// The first pass only adds hops that a positive-bandwidth link
/// reaches.  `outers` is a suffix of `full`, starting at `k`.
pub proof fn lemma_pass1_hops(t: Seq<RouteEntry>, full: Seq<Link>, k: int)
    requires
        0 <= k <= full.len(),
        hops_valid(t, full),
    ensures
        hops_valid(pass1(t, full.skip(k)), full),
    decreases full.len() - k,
{
    let outers = full.skip(k);
    if outers.len() > 0 {
        let l = outers[0];
        assert(l == full[k]);
        let t2 = pass1_step(t, l);
        if l.bw > 0 {
            assert(has_pos_link(full, l.to));
            lemma_upsert_hops(t, l.to, spec_link_cost(l.bw), l.to, full);
        }
        assert(outers.drop_first() =~= full.skip(k + 1));
        lemma_pass1_hops(t2, full, k + 1);
    }
}

/// Relaxation through one neighbor only adds that neighbor as a hop.
pub proof fn lemma_relax_hops(
    t: Seq<RouteEntry>,
    self_addr: Ipv4,
    nbr: Ipv4,
    lc: u64,
    ntbl: Seq<RouteEntry>,
    full: Seq<Link>,
)
    requires
        hops_valid(t, full),
        has_pos_link(full, nbr),
    ensures
        hops_valid(relax_nbr(t, self_addr, nbr, lc, ntbl), full),
    decreases ntbl.len(),
{
    if ntbl.len() > 0 {
        let e = ntbl[0];
        let t2 = relax_step(t, self_addr, nbr, lc, e);
        if e.dst != self_addr {
            lemma_upsert_hops(t, e.dst, sat_add64(lc, e.cost), nbr, full);
        }
        lemma_relax_hops(t2, self_addr, nbr, lc, ntbl.drop_first(), full);
    }
}

/// The second pass only adds hops that a positive-bandwidth link
/// reaches.  `outers` is a suffix of `full`, starting at `k`.
pub proof fn lemma_pass2_hops(
    t: Seq<RouteEntry>,
    self_addr: Ipv4,
    full: Seq<Link>,
    k: int,
    reg: Map<Ipv4, Seq<RouteEntry>>,
)
    requires
        0 <= k <= full.len(),
        hops_valid(t, full),
    ensures
        hops_valid(pass2(t, self_addr, full.skip(k), reg), full),
    decreases full.len() - k,
{
    let outers = full.skip(k);
    if outers.len() > 0 {
        let l = outers[0];
        assert(l == full[k]);
        let t2 = pass2_step(t, self_addr, l, reg);
        if l.bw > 0 && reg.dom().contains(l.to) {
            assert(has_pos_link(full, l.to));
            lemma_relax_hops(t, self_addr, l.to, spec_link_cost(l.bw), reg[l.to], full);
        }
        assert(outers.drop_first() =~= full.skip(k + 1));
        lemma_pass2_hops(t2, self_addr, full, k + 1, reg);
    }
}

/// Every next hop a recomputed table names is reachable over one of the
/// router's own positive-bandwidth links: the routing invariant the
/// forwarding path relies on.
pub proof fn lemma_recompute_hops(
    self_addr: Ipv4,
    outers: Seq<Link>,
    reg: Map<Ipv4, Seq<RouteEntry>>,
)
    ensures
        hops_valid(spec_recompute(self_addr, outers, reg), outers),
{
    assert(outers.skip(0) =~= outers);
    lemma_pass1_hops(Seq::empty(), outers, 0);
    lemma_pass2_hops(pass1(Seq::empty(), outers), self_addr, outers, 0, reg);
}

/// Table order: `t1` reaches everything `t2` reaches, at most as
/// expensively.
pub open spec fn tbl_le(t1: Seq<RouteEntry>, t2: Seq<RouteEntry>) -> bool {
    forall|d: Ipv4|
        #![trigger tbl_cost(t1, d)]
        #![trigger tbl_cost(t2, d)]
        opt_le(tbl_cost(t1, d), tbl_cost(t2, d))
}

/// Registry order: the same routers, each with a table at most as
/// expensive everywhere.
pub open spec fn reg_le(r1: Map<Ipv4, Seq<RouteEntry>>, r2: Map<Ipv4, Seq<RouteEntry>>) -> bool {
    &&& r1.dom() =~= r2.dom()
    &&& forall|ip: Ipv4|
        r1.dom().contains(ip) ==> tbl_le(#[trigger] r1[ip], #[trigger] r2[ip])
}

/// The best neighbor offers never get worse when every neighbor table
/// gets cheaper.
pub proof fn lemma_via_monotone(
    outers: Seq<Link>,
    self_addr: Ipv4,
    r1: Map<Ipv4, Seq<RouteEntry>>,
    r2: Map<Ipv4, Seq<RouteEntry>>,
    d: Ipv4,
)
    requires
        reg_le(r1, r2),
    ensures
        opt_le(via_cost(outers, self_addr, r1, d), via_cost(outers, self_addr, r2, d)),
    decreases outers.len(),
{
    if outers.len() > 0 {
        let l = outers[0];
        if l.bw > 0 && r1.dom().contains(l.to) && d != self_addr {
            assert(opt_le(tbl_cost(r1[l.to], d), tbl_cost(r2[l.to], d)));
        }
        lemma_via_monotone(outers.drop_first(), self_addr, r1, r2, d);
    }
}

/// Recomputation is monotone in the neighbors' tables: cheaper
/// neighbor tables can only make the recomputed table cheaper.
pub proof fn lemma_recompute_monotone(
    self_addr: Ipv4,
    outers: Seq<Link>,
    r1: Map<Ipv4, Seq<RouteEntry>>,
    r2: Map<Ipv4, Seq<RouteEntry>>,
)
    requires
        reg_unique(r1),
        reg_unique(r2),
        reg_le(r1, r2),
    ensures
        tbl_le(spec_recompute(self_addr, outers, r1), spec_recompute(self_addr, outers, r2)),
{
    let n1 = spec_recompute(self_addr, outers, r1);
    let n2 = spec_recompute(self_addr, outers, r2);
    assert forall|d: Ipv4| opt_le(#[trigger] tbl_cost(n1, d), #[trigger] tbl_cost(n2, d)) by {
        lemma_recompute_cost(self_addr, outers, r1, d);
        lemma_recompute_cost(self_addr, outers, r2, d);
        lemma_via_monotone(outers, self_addr, r1, r2, d);
    }
}

/// One synchronous route-update tick over a static topology: every
/// router recomputes its table from the other routers' current tables
/// (its own mid-rebuild table takes no part).
pub open spec fn spec_tick(topo: Map<Ipv4, Seq<Link>>, reg: Map<Ipv4, Seq<RouteEntry>>) -> Map<
    Ipv4,
    Seq<RouteEntry>,
> {
    Map::new(
        |ip: Ipv4| topo.dom().contains(ip),
        |ip: Ipv4| spec_recompute(ip, topo[ip], reg.remove(ip)),
    )
}

/// The registry after `k` synchronous ticks, starting from all tables
/// empty.
pub open spec fn spec_ticks(topo: Map<Ipv4, Seq<Link>>, k: nat) -> Map<Ipv4, Seq<RouteEntry>>
    decreases k,
{
    if k == 0 {
        Map::new(|ip: Ipv4| topo.dom().contains(ip), |ip: Ipv4| Seq::<RouteEntry>::empty())
    } else {
        spec_tick(topo, spec_ticks(topo, (k - 1) as nat))
    }
}

/// After any number of ticks every table still has pairwise-distinct
/// destinations.
pub proof fn lemma_ticks_unique(topo: Map<Ipv4, Seq<Link>>, k: nat)
    ensures
        reg_unique(spec_ticks(topo, k)),
    decreases k,
{
    if k > 0 {
        let prev = spec_ticks(topo, (k - 1) as nat);
        lemma_ticks_unique(topo, (k - 1) as nat);
        assert forall|ip: Ipv4| spec_ticks(topo, k).dom().contains(ip) implies unique_dsts(
            #[trigger] spec_ticks(topo, k)[ip],
        ) by {
            assert(reg_unique(prev.remove(ip)));
            lemma_recompute_cost(ip, topo[ip], prev.remove(ip), ip);
        }
    }
}

/// A tick is monotone: if every table in `r1` is at most as expensive
/// as in `r2`, the same holds after one tick from each.
pub proof fn lemma_tick_monotone(
    topo: Map<Ipv4, Seq<Link>>,
    r1: Map<Ipv4, Seq<RouteEntry>>,
    r2: Map<Ipv4, Seq<RouteEntry>>,
)
    requires
        reg_unique(r1),
        reg_unique(r2),
        reg_le(r1, r2),
    ensures
        reg_le(spec_tick(topo, r1), spec_tick(topo, r2)),
{
    assert forall|ip: Ipv4| spec_tick(topo, r1).dom().contains(ip) implies tbl_le(
        #[trigger] spec_tick(topo, r1)[ip],
        #[trigger] spec_tick(topo, r2)[ip],
    ) by {
        assert(reg_unique(r1.remove(ip)));
        assert(reg_unique(r2.remove(ip)));
        assert(r1.remove(ip).dom() =~= r2.remove(ip).dom());
        lemma_recompute_monotone(ip, topo[ip], r1.remove(ip), r2.remove(ip));
    }
}

/// Monotone routing convergence, the per-tick half: with a static
/// topology, every router's cost to every destination it reaches is
/// non-increasing from each synchronous update tick to the next, and no
/// destination once reached is ever lost.
pub proof fn lemma_routes_non_increasing(topo: Map<Ipv4, Seq<Link>>, k: nat)
    ensures
        reg_le(spec_ticks(topo, (k + 1) as nat), spec_ticks(topo, k)),
    decreases k,
{
    lemma_ticks_unique(topo, k);
    lemma_ticks_unique(topo, (k + 1) as nat);
    if k == 0 {
        assert forall|ip: Ipv4| spec_ticks(topo, 1).dom().contains(ip) implies tbl_le(
            #[trigger] spec_ticks(topo, 1)[ip],
            #[trigger] spec_ticks(topo, 0)[ip],
        ) by {
            assert(forall|d: Ipv4| tbl_cost(spec_ticks(topo, 0)[ip], d) is None);
        }
    } else {
        lemma_routes_non_increasing(topo, (k - 1) as nat);
        lemma_ticks_unique(topo, (k - 1) as nat);
        lemma_tick_monotone(topo, spec_ticks(topo, k), spec_ticks(topo, (k - 1) as nat));
    }
}

/// Every link set in a topology has pairwise-distinct neighbors.
pub open spec fn topo_wf(topo: Map<Ipv4, Seq<Link>>) -> bool {
    forall|ip: Ipv4| topo.dom().contains(ip) ==> unique_links(#[trigger] topo[ip])
}

/// The node sequence is a walk over the topology's positive-bandwidth
/// links.
pub open spec fn is_path(topo: Map<Ipv4, Seq<Link>>, p: Seq<Ipv4>) -> bool {
    forall|i: int|
        0 <= i < p.len() - 1 ==> {
            &&& topo.dom().contains(#[trigger] p[i])
            &&& find_link(topo[p[i]], p[i + 1]) matches Some(l) && l.bw > 0
        }
}

/// The cost of a walk: its links' costs added front to back, with
/// saturation.
pub open spec fn path_cost(topo: Map<Ipv4, Seq<Link>>, p: Seq<Ipv4>) -> u64
    recommends
        is_path(topo, p),
    decreases p.len(),
{
    if p.len() <= 1 {
        0
    } else {
        sat_add64(
            spec_link_cost(find_link(topo[p[0]], p[1]).unwrap().bw),
            path_cost(topo, p.drop_first()),
        )
    }
}

/// With distinct neighbors, the best direct cost is the one link's, if
/// it has bandwidth.
proof fn lemma_direct_cost_char(outers: Seq<Link>, d: Ipv4)
    requires
        unique_links(outers),
    ensures
        direct_cost(outers, d) == (match find_link(outers, d) {
            Some(l) => if l.bw > 0 {
                Some(spec_link_cost(l.bw))
            } else {
                None::<u64>
            },
            None => None::<u64>,
        }),
    decreases outers.len(),
{
    if outers.len() > 0 {
        let rest = outers.drop_first();
        assert(unique_links(rest)) by {
            assert(forall|j: int| 0 <= j < rest.len() ==> rest[j] == outers[j + 1]);
        }
        lemma_direct_cost_char(rest, d);
        lemma_find_link_index(outers, d);
        lemma_find_link_index(rest, d);
        if outers[0].to == d {
            assert(find_link_index(outers, d) == 0);
            if find_link_index(rest, d) >= 0 {
                assert(rest[find_link_index(rest, d)] == outers[find_link_index(rest, d) + 1]);
                assert(false);
            }
            assert(direct_cost(rest, d) is None);
        } else {
            if find_link_index(rest, d) >= 0 {
                assert(rest[find_link_index(rest, d)] == outers[find_link_index(rest, d) + 1]);
            }
            assert(find_link(outers, d) == find_link(rest, d));
        }
    }
}

/// The best neighbor offer is at most each single neighbor's offer.
proof fn lemma_via_cost_le(
    outers: Seq<Link>,
    self_addr: Ipv4,
    reg: Map<Ipv4, Seq<RouteEntry>>,
    d: Ipv4,
    j: int,
)
    requires
        0 <= j < outers.len(),
    ensures
        opt_le(via_cost(outers, self_addr, reg, d), nbr_cost(outers[j], self_addr, reg, d)),
    decreases outers.len(),
{
    if j > 0 {
        lemma_via_cost_le(outers.drop_first(), self_addr, reg, d, j - 1);
        assert(outers.drop_first()[j - 1] == outers[j]);
    }
}

/// A finite best neighbor offer is some single neighbor's offer.
proof fn lemma_via_cost_some(
    outers: Seq<Link>,
    self_addr: Ipv4,
    reg: Map<Ipv4, Seq<RouteEntry>>,
    d: Ipv4,
)
    requires
        via_cost(outers, self_addr, reg, d) is Some,
    ensures
        exists|j: int|
            0 <= j < outers.len() && nbr_cost(#[trigger] outers[j], self_addr, reg, d) == via_cost(
                outers,
                self_addr,
                reg,
                d,
            ),
    decreases outers.len(),
{
    let v = via_cost(outers, self_addr, reg, d);
    let rest = outers.drop_first();
    if nbr_cost(outers[0], self_addr, reg, d) == v {
        assert(0 <= 0 < outers.len() && nbr_cost(outers[0], self_addr, reg, d) == v);
    } else {
        lemma_via_cost_some(rest, self_addr, reg, d);
        let w = choose|w: int|
            0 <= w < rest.len() && nbr_cost(#[trigger] rest[w], self_addr, reg, d) == via_cost(
                rest,
                self_addr,
                reg,
                d,
            );
        assert(outers[w + 1] == rest[w]);
        assert(nbr_cost(outers[w + 1], self_addr, reg, d) == v);
    }
}

/// With distinct neighbors, a link in the set is the link the lookup
/// finds.
proof fn lemma_unique_link_found(outers: Seq<Link>, j: int)
    requires
        unique_links(outers),
        0 <= j < outers.len(),
    ensures
        find_link(outers, outers[j].to) == Some(outers[j]),
{
    lemma_find_link_index(outers, outers[j].to);
    let fi = find_link_index(outers, outers[j].to);
    if fi < 0 {
        assert(outers[j].to != outers[j].to);
    }
    if fi != j {
        assert(outers[fi].to == outers[j].to);
    }
}

/// Soundness of convergence: every route a table holds after any number
/// of ticks is witnessed by a real walk of at most the stored cost, so
/// no stored cost ever undercuts the true shortest-path cost.
pub proof fn lemma_ticks_sound(topo: Map<Ipv4, Seq<Link>>, k: nat, ip: Ipv4, dst: Ipv4)
    requires
        topo_wf(topo),
        topo.dom().contains(ip),
        tbl_cost(spec_ticks(topo, k)[ip], dst) is Some,
    ensures
        exists|p: Seq<Ipv4>|
            {
                &&& #[trigger] is_path(topo, p)
                &&& p.len() >= 2
                &&& p[0] == ip
                &&& p.last() == dst
                &&& path_cost(topo, p) <= tbl_cost(spec_ticks(topo, k)[ip], dst).unwrap()
            },
    decreases k,
{
    let tbl = spec_ticks(topo, k)[ip];
    let c = tbl_cost(tbl, dst).unwrap();
    if k == 0 {
        lemma_find_index(tbl, dst);
        assert(false);
    } else {
        let prev = spec_ticks(topo, (k - 1) as nat).remove(ip);
        let outers = topo[ip];
        lemma_ticks_unique(topo, (k - 1) as nat);
        assert(reg_unique(prev));
        lemma_recompute_cost(ip, outers, prev, dst);
        let dc = direct_cost(outers, dst);
        let vc = via_cost(outers, ip, prev, dst);
        lemma_direct_cost_char(outers, dst);
        let use_direct = dst == ip || (dc is Some && (vc is None || dc.unwrap() <= vc.unwrap()));
        if use_direct {
            assert(dc is Some && c == dc.unwrap());
            let l = find_link(outers, dst).unwrap();
            let p = seq![ip, dst];
            assert(p.drop_first() =~= seq![dst]);
            assert(path_cost(topo, p.drop_first()) == 0);
            assert(is_path(topo, p)) by {
                assert(p[0] == ip && p[1] == dst);
            }
            assert(path_cost(topo, p) == sat_add64(spec_link_cost(l.bw), 0));
            assert(path_cost(topo, p) == spec_link_cost(l.bw));
            assert(path_cost(topo, p) <= c);
        } else {
            assert(vc is Some && c == vc.unwrap());
            lemma_via_cost_some(outers, ip, prev, dst);
            let j = choose|j: int|
                0 <= j < outers.len() && nbr_cost(#[trigger] outers[j], ip, prev, dst) == vc;
            let l = outers[j];
            assert(l.bw > 0 && prev.dom().contains(l.to) && dst != ip);
            let c2 = tbl_cost(prev[l.to], dst).unwrap();
            assert(c == sat_add64(spec_link_cost(l.bw), c2));
            lemma_ticks_sound(topo, (k - 1) as nat, l.to, dst);
            let q = choose|q: Seq<Ipv4>|
                {
                    &&& #[trigger] is_path(topo, q)
                    &&& q.len() >= 2
                    &&& q[0] == l.to
                    &&& q.last() == dst
                    &&& path_cost(topo, q) <= c2
                };
            let p = seq![ip] + q;
            assert(p.drop_first() =~= q);
            assert(p[0] == ip && p[1] == l.to && p.last() == q.last());
            lemma_unique_link_found(outers, j);
            assert(is_path(topo, p)) by {
                assert forall|i: int|
                    0 <= i < p.len() - 1 implies {
                    &&& topo.dom().contains(#[trigger] p[i])
                    &&& find_link(topo[p[i]], p[i + 1]) matches Some(l2) && l2.bw > 0
                } by {
                    if i > 0 {
                        assert(p[i] == q[i - 1]);
                        assert(p[i + 1] == q[i]);
                        assert(topo.dom().contains(q[i - 1]) && (find_link(topo[q[i - 1]], q[i])
                            matches Some(l2) && l2.bw > 0));
                    }
                }
            }
            assert(path_cost(topo, p) == sat_add64(spec_link_cost(l.bw), path_cost(topo, q)));
            assert(path_cost(topo, p) <= c);
        }
    }
}

/// Completeness of convergence: after `k` ticks, a router's stored cost
/// to each destination a walk of at most `k` links reaches is at most
/// that walk's cost.  With soundness and per-tick monotonicity, once
/// `k` covers the longest shortest path the stored costs have converged
/// from above onto the true shortest-path costs.
pub proof fn lemma_ticks_complete(topo: Map<Ipv4, Seq<Link>>, k: nat, p: Seq<Ipv4>)
    requires
        topo_wf(topo),
        is_path(topo, p),
        2 <= p.len() <= k + 1,
        p.last() != p[0],
    ensures
        tbl_cost(spec_ticks(topo, k)[p[0]], p.last()) is Some,
        tbl_cost(spec_ticks(topo, k)[p[0]], p.last()).unwrap() <= path_cost(topo, p),
    decreases k, p.len(),
{
    let ip = p[0];
    let dst = p.last();
    let nbr = p[1];
    assert(topo.dom().contains(ip) && (find_link(topo[ip], nbr) matches Some(l) && l.bw > 0)) by {
        assert(0 <= 0 < p.len() - 1);
    }
    let prev = spec_ticks(topo, (k - 1) as nat).remove(ip);
    let outers = topo[ip];
    let l = find_link(outers, nbr).unwrap();
    lemma_find_link_index(outers, nbr);
    let li = find_link_index(outers, nbr);
    lemma_ticks_unique(topo, (k - 1) as nat);
    assert(reg_unique(prev));
    lemma_recompute_cost(ip, outers, prev, dst);
    let dc = direct_cost(outers, dst);
    let vc = via_cost(outers, ip, prev, dst);
    let rest = p.drop_first();
    assert(is_path(topo, rest)) by {
        assert forall|i: int|
            0 <= i < rest.len() - 1 implies {
            &&& topo.dom().contains(#[trigger] rest[i])
            &&& find_link(topo[rest[i]], rest[i + 1]) matches Some(l2) && l2.bw > 0
        } by {
            assert(rest[i] == p[i + 1]);
            assert(rest[i + 1] == p[i + 2]);
        }
    }
    assert(rest.last() == dst);
    if nbr == ip {
        // a self-loop first hop adds cost and reaches nothing new
        assert(rest.len() >= 2) by {
            if rest.len() == 1 {
                assert(p[1] == p.last());
            }
        }
        assert(rest[0] == ip);
        lemma_ticks_complete(topo, k, rest);
        assert(path_cost(topo, p) == sat_add64(spec_link_cost(l.bw), path_cost(topo, rest)));
        assert(path_cost(topo, rest) <= path_cost(topo, p));
    } else if nbr == dst {
        lemma_direct_cost_char(outers, dst);
        assert(dc == Some(spec_link_cost(l.bw)));
        assert(path_cost(topo, p) == sat_add64(spec_link_cost(l.bw), path_cost(topo, rest)));
        assert(spec_link_cost(l.bw) <= path_cost(topo, p));
        assert(tbl_cost(spec_ticks(topo, k)[ip], dst) is Some);
        assert(tbl_cost(spec_ticks(topo, k)[ip], dst).unwrap() <= spec_link_cost(l.bw));
    } else {
        assert(rest.len() >= 2) by {
            if rest.len() == 1 {
                assert(p[1] == p.last());
            }
        }
        assert(rest[0] == nbr);
        lemma_ticks_complete(topo, (k - 1) as nat, rest);
        let c2 = tbl_cost(prev[nbr], dst).unwrap();
        assert(c2 <= path_cost(topo, rest));
        assert(prev.dom().contains(nbr)) by {
            assert(topo.dom().contains(rest[0])) by {
                assert(0 <= 0 < rest.len() - 1);
            }
            assert(nbr != ip);
        }
        assert(nbr_cost(l, ip, prev, dst) == Some(sat_add64(spec_link_cost(l.bw), c2)));
        lemma_via_cost_le(outers, ip, prev, dst, li);
        assert(outers[li] == l);
        assert(vc is Some && vc.unwrap() <= sat_add64(spec_link_cost(l.bw), c2));
        assert(path_cost(topo, p) == sat_add64(spec_link_cost(l.bw), path_cost(topo, rest)));
        assert(sat_add64(spec_link_cost(l.bw), c2) <= path_cost(topo, p));
        assert(tbl_cost(spec_ticks(topo, k)[ip], dst) is Some);
        assert(tbl_cost(spec_ticks(topo, k)[ip], dst).unwrap() <= vc.unwrap());
    }
}

} // verus!
