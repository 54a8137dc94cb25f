//! The controller's line-oriented command grammar.
//!
//! A controller datagram is newline-separated ASCII.  Each line is one
//! command: `ROUTER <ipv4>` focuses (and creates) a router, `VALUE
//! <integer>` sets the pending bandwidth (zero counts as unset), `LINK
//! <ipv4>` binds a link from the focused router at the pending
//! bandwidth, and `QUEUE <integer>` bounds the focused router's queue.
//! Anything else is ignored.  An invalid address after `ROUTER` clears
//! the focus so later `LINK`s fail rather than misbind.

use vstd::prelude::*;

use crate::addr::Ipv4;

verus! {

/// One parsed controller line.
#[derive(Clone, Copy, PartialEq, Eq, Structural, Debug)]
pub enum Command {
    /// `ROUTER <ipv4>` with a valid address: focus (and create) it.
    Router(Ipv4),
    /// `ROUTER` with an unparsable address: clear the focus.
    RouterInvalid,
    /// `VALUE <integer>` with a positive value: set the pending bandwidth.
    Value(usize),
    /// `VALUE` with zero or an unparsable value: clear the pending bandwidth.
    ValueInvalid,
    /// `LINK <ipv4>` with a valid address: bind a link to it.
    Link(Ipv4),
    /// `LINK` with an unparsable address: no effect.
    LinkInvalid,
    /// `QUEUE <integer>`: bound the focused router's queue.
    Queue(usize),
    /// `QUEUE` with an unparsable value: no effect.
    QueueInvalid,
    /// Any other line: ignored.
    Unknown,
}

/// Whether a byte is an ASCII decimal digit.
pub open spec fn is_digit(b: u8) -> bool {
    48 <= b <= 57
}

/// Every byte of the sequence is a decimal digit.
pub open spec fn all_digits(s: Seq<u8>) -> bool {
    forall|i: int| 0 <= i < s.len() ==> is_digit(#[trigger] s[i])
}

/// The number a digit sequence denotes, most significant digit first.
pub open spec fn digits_value(s: Seq<u8>) -> int
    decreases s.len(),
{
    if s.len() == 0 {
        0
    } else {
        digits_value(s.drop_last()) * 10 + (s.last() - 48)
    }
}

/// What `usize` text parses to: a nonempty, all-digit sequence whose
/// value fits the type; anything else is rejected.
pub open spec fn spec_parse_usize(s: Seq<u8>) -> Option<usize> {
    if s.len() > 0 && all_digits(s) && digits_value(s) <= usize::MAX {
        Some(digits_value(s) as usize)
    } else {
        None
    }
}

/// A longer digit string never denotes a smaller number.
proof fn lemma_digits_value_grows(s: Seq<u8>, k: int)
    requires
        0 <= k <= s.len(),
        all_digits(s),
    ensures
        digits_value(s) >= digits_value(s.take(k)),
        digits_value(s) >= 0,
    decreases s.len() - k,
{
    if k == s.len() {
        assert(s.take(k) =~= s);
        lemma_digits_value_nonneg(s);
    } else {
        lemma_digits_value_grows(s, k + 1);
        assert(s.take(k + 1).drop_last() =~= s.take(k));
        assert(s.take(k + 1).last() == s[k]);
        lemma_digits_value_nonneg(s.take(k));
    }
}

/// A digit string never denotes a negative number.
proof fn lemma_digits_value_nonneg(s: Seq<u8>)
    requires
        all_digits(s),
    ensures
        digits_value(s) >= 0,
    decreases s.len(),
{
    if s.len() > 0 {
        assert(all_digits(s.drop_last())) by {
            assert(forall|i: int| 0 <= i < s.len() - 1 ==> s.drop_last()[i] == s[i]);
        }
        lemma_digits_value_nonneg(s.drop_last());
    }
}

/// Parse an unsigned decimal integer, exactly as `spec_parse_usize`
/// states: accepted only when the text is nonempty, all digits, and in
/// range.
pub fn parse_usize(s: &[u8]) -> (r: Option<usize>)
    ensures
        r == spec_parse_usize(s@),
{
    let n = s.len();
    if n == 0 {
        return None;
    }
    let mut acc: usize = 0;
    let mut k: usize = 0;
    while k < n
        invariant
            k <= n,
            n == s@.len(),
            all_digits(s@.take(k as int)),
            acc == digits_value(s@.take(k as int)),
            digits_value(s@.take(k as int)) <= usize::MAX,
        decreases n - k,
    {
        let b = s[k];
        if b < 48 || b > 57 {
            proof {
                assert(!all_digits(s@));
            }
            return None;
        }
        let d = (b - 48) as usize;
        proof {
            assert(s@.take(k + 1).drop_last() =~= s@.take(k as int));
            assert(s@.take(k + 1).last() == s@[k as int]);
            assert(all_digits(s@.take(k + 1))) by {
                assert(forall|i: int| 0 <= i < k + 1 ==> s@.take(k + 1)[i] == s@[i]);
            }
        }
        let acc2 = match acc.checked_mul(10) {
            Some(v) => v,
            None => {
                proof {
                    lemma_digits_value_nonneg(s@.take(k + 1));
                    if all_digits(s@) {
                        lemma_digits_value_grows(s@, k + 1);
                    }
                }
                return None;
            },
        };
        let acc3 = match acc2.checked_add(d) {
            Some(v) => v,
            None => {
                proof {
                    if all_digits(s@) {
                        lemma_digits_value_grows(s@, k + 1);
                    }
                }
                return None;
            },
        };
        acc = acc3;
        k = k + 1;
    }
    proof {
        assert(s@.take(n as int) =~= s@);
    }
    Some(acc)
}

/// The canonical decimal rendering of one octet: no leading zeros, one
/// to three digits.
pub open spec fn octet_bytes(n: u8) -> Seq<u8> {
    if n < 10 {
        seq![(48 + n) as u8]
    } else if n < 100 {
        seq![(48 + n / 10) as u8, (48 + n % 10) as u8]
    } else {
        seq![(48 + n / 100) as u8, (48 + (n / 10) % 10) as u8, (48 + n % 10) as u8]
    }
}

/// The canonical text of an IPv4 address: four octets, dotted.
pub open spec fn ipv4_bytes(ip: Ipv4) -> Seq<u8> {
    octet_bytes(ip.a) + seq![46u8] + octet_bytes(ip.b) + seq![46u8] + octet_bytes(ip.c)
        + seq![46u8] + octet_bytes(ip.d)
}

/// A valid octet text: one to three digits, no leading zero unless the
/// octet is exactly "0", value at most 255.  Exactly the texts
/// `octet_bytes` produces.
pub open spec fn valid_octet(s: Seq<u8>) -> bool {
    &&& 1 <= s.len() <= 3
    &&& all_digits(s)
    &&& (s.len() > 1 ==> s[0] != 48)
    &&& digits_value(s) <= 255
}

/// The octet a valid octet text denotes.
pub open spec fn octet_value(s: Seq<u8>) -> u8 {
    digits_value(s) as u8
}

/// Valid octet texts are exactly the canonical renderings.
pub proof fn lemma_octet_canonical(s: Seq<u8>)
    requires
        valid_octet(s),
    ensures
        octet_bytes(octet_value(s)) == s,
        0 <= digits_value(s) <= 255,
{
    lemma_digits_value_nonneg(s);
    assert(digits_value(Seq::<u8>::empty()) == 0);
    assert(is_digit(s[0]));
    if s.len() == 1 {
        assert(s.drop_last() =~= Seq::<u8>::empty());
        assert(digits_value(s) == s[0] - 48);
        assert(octet_bytes(octet_value(s)) =~= s);
    } else if s.len() == 2 {
        let h = s.drop_last();
        assert(h.drop_last() =~= Seq::<u8>::empty());
        assert(h.last() == s[0]);
        assert(digits_value(h) == s[0] - 48);
        assert(digits_value(s) == (s[0] - 48) * 10 + (s[1] - 48));
        assert(s[0] != 48 && is_digit(s[0]) && is_digit(s[1]));
        let v = octet_value(s);
        assert(10 <= digits_value(s) < 100);
        assert(v / 10 == s[0] - 48 && v % 10 == s[1] - 48) by (nonlinear_arith)
            requires
                v == (s[0] - 48) * 10 + (s[1] - 48),
                48 < s[0] <= 57,
                48 <= s[1] <= 57,
        ;
        assert(octet_bytes(v) =~= s);
    } else {
        let h = s.drop_last();
        let h2 = h.drop_last();
        assert(h2.drop_last() =~= Seq::<u8>::empty());
        assert(h2.last() == s[0] && h.last() == s[1]);
        assert(is_digit(s[1]) && is_digit(s[2]));
        assert(digits_value(h2) == s[0] - 48);
        assert(digits_value(h) == (s[0] - 48) * 10 + (s[1] - 48));
        assert(digits_value(s) == ((s[0] - 48) * 10 + (s[1] - 48)) * 10 + (s[2] - 48));
        let v = octet_value(s);
        assert(100 <= digits_value(s));
        assert(v / 100 == s[0] - 48 && (v / 10) % 10 == s[1] - 48 && v % 10 == s[2] - 48)
            by (nonlinear_arith)
            requires
                v == ((s[0] - 48) * 10 + (s[1] - 48)) * 10 + (s[2] - 48),
                48 < s[0] <= 57,
                48 <= s[1] <= 57,
                48 <= s[2] <= 57,
                v <= 255,
        ;
        assert(octet_bytes(v) =~= s);
    }
}

/// The canonical rendering of an octet is a valid octet text denoting
/// that octet.
pub proof fn lemma_octet_bytes_valid(n: u8)
    ensures
        valid_octet(octet_bytes(n)),
        octet_value(octet_bytes(n)) == n,
{
    let s = octet_bytes(n);
    assert(digits_value(Seq::<u8>::empty()) == 0);
    if n < 10 {
        assert(s.drop_last() =~= Seq::<u8>::empty());
        assert(digits_value(s) == n);
    } else if n < 100 {
        let h = s.drop_last();
        assert(h.drop_last() =~= Seq::<u8>::empty());
        assert(h.last() == s[0]);
        assert(n / 10 >= 1 && n / 10 <= 9 && n % 10 <= 9);
        assert(digits_value(h) == n / 10);
        assert(digits_value(s) == (n / 10) * 10 + n % 10);
        assert((n / 10) * 10 + n % 10 == n) by (nonlinear_arith);
    } else {
        let h = s.drop_last();
        let h2 = h.drop_last();
        assert(h2.drop_last() =~= Seq::<u8>::empty());
        assert(h2.last() == s[0] && h.last() == s[1]);
        assert(n / 100 >= 1 && n / 100 <= 9 && (n / 10) % 10 <= 9 && n % 10 <= 9);
        assert(digits_value(h2) == n / 100);
        assert(digits_value(h) == (n / 100) * 10 + (n / 10) % 10);
        assert(digits_value(s) == ((n / 100) * 10 + (n / 10) % 10) * 10 + n % 10);
        assert(((n / 100) * 10 + (n / 10) % 10) * 10 + n % 10 == n) by (nonlinear_arith);
    }
}

/// Where the structure of a canonical IPv4 text lies: its length, its
/// three dots — the only dots — and the four octet renderings between
/// them.
pub proof fn lemma_ipv4_bytes_parts(ip: Ipv4)
    ensures
        ({
            let s = ipv4_bytes(ip);
            let la = octet_bytes(ip.a).len() as int;
            let lb = octet_bytes(ip.b).len() as int;
            let lc = octet_bytes(ip.c).len() as int;
            let ld = octet_bytes(ip.d).len() as int;
            let p1 = la;
            let p2 = la + 1 + lb;
            let p3 = la + lb + 2 + lc;
            &&& s.len() == la + lb + lc + ld + 3
            &&& 0 < p1 < p2 < p3 < s.len() - 1
            &&& s.subrange(0, p1) == octet_bytes(ip.a)
            &&& s.subrange(p1 + 1, p2) == octet_bytes(ip.b)
            &&& s.subrange(p2 + 1, p3) == octet_bytes(ip.c)
            &&& s.subrange(p3 + 1, s.len() as int) == octet_bytes(ip.d)
            &&& forall|x: int| 0 <= x < s.len() ==> (s[x] == 46 <==> (x == p1 || x == p2 || x == p3))
        }),
{
    let s = ipv4_bytes(ip);
    let oa = octet_bytes(ip.a);
    let ob = octet_bytes(ip.b);
    let oc = octet_bytes(ip.c);
    let od = octet_bytes(ip.d);
    let la = oa.len() as int;
    let lb = ob.len() as int;
    let lc = oc.len() as int;
    let ld = od.len() as int;
    let p1 = la;
    let p2 = la + 1 + lb;
    let p3 = la + lb + 2 + lc;
    lemma_octet_bytes_valid(ip.a);
    lemma_octet_bytes_valid(ip.b);
    lemma_octet_bytes_valid(ip.c);
    lemma_octet_bytes_valid(ip.d);
    assert(s.subrange(0, p1) =~= oa);
    assert(s.subrange(p1 + 1, p2) =~= ob);
    assert(s.subrange(p2 + 1, p3) =~= oc);
    assert(s.subrange(p3 + 1, s.len() as int) =~= od);
    assert forall|x: int| 0 <= x < s.len() implies (s[x] == 46 <==> (x == p1 || x == p2 || x
        == p3)) by {
        if x < p1 {
            assert(s[x] == oa[x]);
            assert(is_digit(oa[x]));
        } else if p1 < x < p2 {
            assert(s[x] == ob[x - p1 - 1]);
            assert(is_digit(ob[x - p1 - 1]));
        } else if p2 < x < p3 {
            assert(s[x] == oc[x - p2 - 1]);
            assert(is_digit(oc[x - p2 - 1]));
        } else if p3 < x {
            assert(s[x] == od[x - p3 - 1]);
            assert(is_digit(od[x - p3 - 1]));
        }
    }
}

/// Two addresses with the same canonical text are the same address.
pub proof fn lemma_ipv4_bytes_injective(ip1: Ipv4, ip2: Ipv4)
    requires
        ipv4_bytes(ip1) == ipv4_bytes(ip2),
    ensures
        ip1 == ip2,
{
    let s = ipv4_bytes(ip1);
    lemma_ipv4_bytes_parts(ip1);
    lemma_ipv4_bytes_parts(ip2);
    let la1 = octet_bytes(ip1.a).len() as int;
    let lb1 = octet_bytes(ip1.b).len() as int;
    let lc1 = octet_bytes(ip1.c).len() as int;
    let la2 = octet_bytes(ip2.a).len() as int;
    let lb2 = octet_bytes(ip2.b).len() as int;
    let lc2 = octet_bytes(ip2.c).len() as int;
    assert(la1 == la2) by {
        if la1 < la2 {
            assert(s[la1] == 46);
        }
        if la2 < la1 {
            assert(s[la2] == 46);
        }
    }
    assert(la1 + 1 + lb1 == la2 + 1 + lb2) by {
        if la1 + 1 + lb1 < la2 + 1 + lb2 {
            assert(s[la1 + 1 + lb1] == 46);
        }
        if la2 + 1 + lb2 < la1 + 1 + lb1 {
            assert(s[la2 + 1 + lb2] == 46);
        }
    }
    assert(la1 + lb1 + 2 + lc1 == la2 + lb2 + 2 + lc2) by {
        if la1 + lb1 + 2 + lc1 < la2 + lb2 + 2 + lc2 {
            assert(s[la1 + lb1 + 2 + lc1] == 46);
        }
        if la2 + lb2 + 2 + lc2 < la1 + lb1 + 2 + lc1 {
            assert(s[la2 + lb2 + 2 + lc2] == 46);
        }
    }
    lemma_octet_bytes_valid(ip1.a);
    lemma_octet_bytes_valid(ip1.b);
    lemma_octet_bytes_valid(ip1.c);
    lemma_octet_bytes_valid(ip1.d);
    lemma_octet_bytes_valid(ip2.a);
    lemma_octet_bytes_valid(ip2.b);
    lemma_octet_bytes_valid(ip2.d);
    lemma_octet_bytes_valid(ip2.c);
    assert(octet_bytes(ip1.a) == octet_bytes(ip2.a));
    assert(octet_bytes(ip1.b) == octet_bytes(ip2.b));
    assert(octet_bytes(ip1.c) == octet_bytes(ip2.c));
    assert(octet_bytes(ip1.d) == octet_bytes(ip2.d));
}

/// Parse the text between `start` and `end` as one octet: accepted
/// exactly when it is a valid octet text.
fn parse_octet(s: &[u8], start: usize, end: usize) -> (r: Option<u8>)
    requires
        start <= end <= s@.len(),
    ensures
        r is Some <==> valid_octet(s@.subrange(start as int, end as int)),
        r is Some ==> r.unwrap() == octet_value(s@.subrange(start as int, end as int)),
{
    let ghost o = s@.subrange(start as int, end as int);
    let len = end - start;
    if len == 0 || len > 3 {
        return None;
    }
    let mut acc: u32 = 0;
    let mut k: usize = 0;
    while k < len
        invariant
            k <= len,
            len == o.len(),
            len <= 3,
            start + len <= s@.len(),
            all_digits(o.take(k as int)),
            acc == digits_value(o.take(k as int)),
            k == 0 ==> acc == 0,
            k == 1 ==> acc <= 9,
            k == 2 ==> acc <= 99,
            k == 3 ==> acc <= 999,
        decreases len - k,
    {
        let b = s[start + k];
        proof {
            assert(o[k as int] == s@[start + k]);
        }
        if b < 48 || b > 57 {
            proof {
                assert(!all_digits(o));
            }
            return None;
        }
        proof {
            assert(o.take(k + 1).drop_last() =~= o.take(k as int));
            assert(o.take(k + 1).last() == o[k as int]);
            assert(all_digits(o.take(k + 1))) by {
                assert(forall|i: int| 0 <= i < k + 1 ==> o.take(k + 1)[i] == o[i]);
            }
            lemma_digits_value_nonneg(o.take(k as int));
        }
        acc = acc * 10 + (b - 48) as u32;
        k = k + 1;
    }
    proof {
        assert(o.take(len as int) =~= o);
    }
    if len > 1 && s[start] == 48 {
        proof {
            assert(o[0] == 48);
        }
        return None;
    }
    if acc > 255 {
        return None;
    }
    proof {
        lemma_digits_value_nonneg(o);
    }
    Some(acc as u8)
}

/// Parse an IPv4 address.  Exactly the canonical dotted-decimal texts —
/// four octets, no leading zeros — are accepted, and such a text parses
/// to the address it renders.
#[verifier::rlimit(30)]
pub fn parse_ipv4(s: &[u8]) -> (r: Option<Ipv4>)
    ensures
        r is Some ==> s@ == ipv4_bytes(r.unwrap()),
        forall|ip: Ipv4| s@ == ipv4_bytes(ip) ==> r is Some,
{
    let n = s.len();
    let mut d0: usize = 0;
    let mut d1: usize = 0;
    let mut d2: usize = 0;
    let mut count: usize = 0;
    let mut k: usize = 0;
    while k < n
        invariant
            k <= n,
            n == s@.len(),
            count <= 3,
            count >= 1 ==> d0 < k && s@[d0 as int] == 46,
            count >= 2 ==> d0 < d1 < k && s@[d1 as int] == 46,
            count == 3 ==> d1 < d2 < k && s@[d2 as int] == 46,
            forall|x: int|
                0 <= x < k && s@[x] == 46 ==> ((count >= 1 && x == d0) || (count >= 2 && x == d1)
                    || (count == 3 && x == d2)),
        decreases n - k,
    {
        if s[k] == 46 {
            if count == 3 {
                proof {
                    assert forall|ip: Ipv4| s@ != ipv4_bytes(ip) by {
                        if s@ == ipv4_bytes(ip) {
                            lemma_ipv4_bytes_parts(ip);
                            let la = octet_bytes(ip.a).len() as int;
                            let lb = octet_bytes(ip.b).len() as int;
                            let lc = octet_bytes(ip.c).len() as int;
                            let p1 = la;
                            let p2 = la + 1 + lb;
                            let p3 = la + lb + 2 + lc;
                            assert(s@[k as int] == 46);
                            assert(k as int == p1 || k as int == p2 || k as int == p3);
                            assert(d0 as int == p1 || d0 as int == p2 || d0 as int == p3);
                            assert(d1 as int == p1 || d1 as int == p2 || d1 as int == p3);
                            assert(d2 as int == p1 || d2 as int == p2 || d2 as int == p3);
                            assert(false);
                        }
                    }
                }
                return None;
            }
            if count == 0 {
                d0 = k;
            } else if count == 1 {
                d1 = k;
            } else {
                d2 = k;
            }
            count = count + 1;
        }
        k = k + 1;
    }
    if count != 3 {
        proof {
            assert forall|ip: Ipv4| s@ != ipv4_bytes(ip) by {
                if s@ == ipv4_bytes(ip) {
                    lemma_ipv4_bytes_parts(ip);
                    let la = octet_bytes(ip.a).len() as int;
                    let lb = octet_bytes(ip.b).len() as int;
                    let lc = octet_bytes(ip.c).len() as int;
                    let p1 = la;
                    let p2 = la + 1 + lb;
                    let p3 = la + lb + 2 + lc;
                    assert(s@[p1] == 46 && s@[p2] == 46 && s@[p3] == 46);
                    assert(false);
                }
            }
        }
        return None;
    }
    let pa = parse_octet(s, 0, d0);
    let pb = parse_octet(s, d0 + 1, d1);
    let pc = parse_octet(s, d1 + 1, d2);
    let pd = parse_octet(s, d2 + 1, n);
    proof {
        assert forall|ip: Ipv4|
            s@ == ipv4_bytes(ip) implies (pa is Some && pb is Some && pc is Some
            && pd is Some) by {
            lemma_ipv4_bytes_parts(ip);
            let la = octet_bytes(ip.a).len() as int;
            let lb = octet_bytes(ip.b).len() as int;
            let lc = octet_bytes(ip.c).len() as int;
            let p1 = la;
            let p2 = la + 1 + lb;
            let p3 = la + lb + 2 + lc;
            assert(s@[p1] == 46 && s@[p2] == 46 && s@[p3] == 46);
            assert(d0 == p1 && d1 == p2 && d2 == p3) by {
                assert(d0 == p1 || d0 == p2 || d0 == p3);
                assert(d1 == p1 || d1 == p2 || d1 == p3);
                assert(d2 == p1 || d2 == p2 || d2 == p3);
            }
            lemma_octet_bytes_valid(ip.a);
            lemma_octet_bytes_valid(ip.b);
            lemma_octet_bytes_valid(ip.c);
            lemma_octet_bytes_valid(ip.d);
        }
    }
    match (pa, pb, pc, pd) {
        (Some(a), Some(b), Some(c), Some(d)) => {
            let ip = Ipv4 { a, b, c, d };
            proof {
                lemma_octet_canonical(s@.subrange(0, d0 as int));
                lemma_octet_canonical(s@.subrange(d0 + 1, d1 as int));
                lemma_octet_canonical(s@.subrange(d1 + 1, d2 as int));
                lemma_octet_canonical(s@.subrange(d2 + 1, n as int));
                assert(s@ =~= ipv4_bytes(ip));
            }
            Some(ip)
        },
        _ => None,
    }
}

/// What IPv4 text denotes: the address whose canonical dotted-decimal
/// rendering the text is, if it is one.
pub open spec fn spec_parse_ipv4(s: Seq<u8>) -> Option<Ipv4> {
    if exists|ip: Ipv4| s == ipv4_bytes(ip) {
        Some(choose|ip: Ipv4| s == ipv4_bytes(ip))
    } else {
        None
    }
}

/// A parse that is sound (whatever it accepts is the text's address)
/// and complete (every canonical text is accepted) returns exactly
/// `spec_parse_ipv4` — the contract of `parse_ipv4` pins its result.
pub proof fn lemma_parse_ipv4_pins(s: Seq<u8>, r: Option<Ipv4>)
    requires
        r is Some ==> s == ipv4_bytes(r.unwrap()),
        forall|ip: Ipv4| s == ipv4_bytes(ip) ==> r is Some,
    ensures
        r == spec_parse_ipv4(s),
{
    if r is Some {
        assert(s == ipv4_bytes(r.unwrap()));
        let c = choose|ip: Ipv4| s == ipv4_bytes(ip);
        lemma_ipv4_bytes_injective(c, r.unwrap());
    } else {
        if exists|ip: Ipv4| s == ipv4_bytes(ip) {
            let c = choose|ip: Ipv4| s == ipv4_bytes(ip);
            assert(s == ipv4_bytes(c));
            assert(false);
        }
    }
}

/// The bytes of `"ROUTER "`.
pub open spec fn router_prefix() -> Seq<u8> {
    seq![82u8, 79u8, 85u8, 84u8, 69u8, 82u8, 32u8]
}

/// The bytes of `"VALUE "`.
pub open spec fn value_prefix() -> Seq<u8> {
    seq![86u8, 65u8, 76u8, 85u8, 69u8, 32u8]
}

/// The bytes of `"LINK "`.
pub open spec fn link_prefix() -> Seq<u8> {
    seq![76u8, 73u8, 78u8, 75u8, 32u8]
}

/// The bytes of `"QUEUE "`.
pub open spec fn queue_prefix() -> Seq<u8> {
    seq![81u8, 85u8, 69u8, 85u8, 69u8, 32u8]
}

/// `s` begins with `p`.
pub open spec fn has_prefix(s: Seq<u8>, p: Seq<u8>) -> bool {
    s.len() >= p.len() && s.subrange(0, p.len() as int) == p
}

/// Whether the first `p.len()` bytes of `s` are `p`.
fn check_prefix(s: &[u8], p: &[u8]) -> (r: bool)
    ensures
        r == has_prefix(s@, p@),
{
    let m = p.len();
    if s.len() < m {
        proof {
            assert(!has_prefix(s@, p@));
        }
        return false;
    }
    let mut k: usize = 0;
    while k < m
        invariant
            k <= m,
            m == p@.len(),
            m <= s@.len(),
            forall|x: int| 0 <= x < k ==> s@[x] == p@[x],
        decreases m - k,
    {
        if s[k] != p[k] {
            proof {
                assert(s@.subrange(0, m as int)[k as int] != p@[k as int]);
            }
            return false;
        }
        k = k + 1;
    }
    proof {
        assert(s@.subrange(0, m as int) =~= p@);
    }
    true
}

/// The command one controller line denotes.  Each keyword's argument is
/// the rest of the line: a canonical IPv4 text for `ROUTER` and `LINK`,
/// a decimal integer for `VALUE` (zero counting as unset) and `QUEUE`;
/// any other line is unknown.
pub open spec fn spec_parse_line(line: Seq<u8>) -> Command {
    if has_prefix(line, router_prefix()) {
        match spec_parse_ipv4(line.skip(7)) {
            Some(ip) => Command::Router(ip),
            None => Command::RouterInvalid,
        }
    } else if has_prefix(line, value_prefix()) {
        match spec_parse_usize(line.skip(6)) {
            Some(v) => if v > 0 {
                Command::Value(v)
            } else {
                Command::ValueInvalid
            },
            None => Command::ValueInvalid,
        }
    } else if has_prefix(line, link_prefix()) {
        match spec_parse_ipv4(line.skip(5)) {
            Some(ip) => Command::Link(ip),
            None => Command::LinkInvalid,
        }
    } else if has_prefix(line, queue_prefix()) {
        match spec_parse_usize(line.skip(6)) {
            Some(v) => Command::Queue(v),
            None => Command::QueueInvalid,
        }
    } else {
        Command::Unknown
    }
}

/// Parse one controller line into its command, exactly as
/// `spec_parse_line` states it.
pub fn parse_line(line: &[u8]) -> (c: Command)
    ensures
        c == spec_parse_line(line@),
        has_prefix(line@, router_prefix()) ==> {
            &&& forall|ip: Ipv4|
                line@.skip(7) == ipv4_bytes(ip) ==> c == Command::Router(ip)
            &&& (forall|ip: Ipv4| line@.skip(7) != ipv4_bytes(ip)) ==> c == Command::RouterInvalid
        },
        !has_prefix(line@, router_prefix()) && has_prefix(line@, value_prefix()) ==> c == (
        match spec_parse_usize(line@.skip(6)) {
            Some(v) => if v > 0 {
                Command::Value(v)
            } else {
                Command::ValueInvalid
            },
            None => Command::ValueInvalid,
        }),
        !has_prefix(line@, router_prefix()) && !has_prefix(line@, value_prefix()) && has_prefix(
            line@,
            link_prefix(),
        ) ==> {
            &&& forall|ip: Ipv4| line@.skip(5) == ipv4_bytes(ip) ==> c == Command::Link(ip)
            &&& (forall|ip: Ipv4| line@.skip(5) != ipv4_bytes(ip)) ==> c == Command::LinkInvalid
        },
        !has_prefix(line@, router_prefix()) && !has_prefix(line@, value_prefix()) && !has_prefix(
            line@,
            link_prefix(),
        ) && has_prefix(line@, queue_prefix()) ==> c == (match spec_parse_usize(line@.skip(6)) {
            Some(v) => Command::Queue(v),
            None => Command::QueueInvalid,
        }),
        !has_prefix(line@, router_prefix()) && !has_prefix(line@, value_prefix()) && !has_prefix(
            line@,
            link_prefix(),
        ) && !has_prefix(line@, queue_prefix()) ==> c == Command::Unknown,
{
    let router_p: [u8; 7] = [82, 79, 85, 84, 69, 82, 32];
    let value_p: [u8; 6] = [86, 65, 76, 85, 69, 32];
    let link_p: [u8; 5] = [76, 73, 78, 75, 32];
    let queue_p: [u8; 6] = [81, 85, 69, 85, 69, 32];
    proof {
        assert(router_p@ =~= router_prefix());
        assert(value_p@ =~= value_prefix());
        assert(link_p@ =~= link_prefix());
        assert(queue_p@ =~= queue_prefix());
    }
    if check_prefix(line, router_p.as_slice()) {
        let rest = slice_suffix(line, 7);
        let parsed = parse_ipv4(rest);
        proof {
            lemma_parse_ipv4_pins(rest@, parsed);
        }
        match parsed {
            Some(ip) => {
                proof {
                    assert forall|ip2: Ipv4| line@.skip(7) == ipv4_bytes(ip2) implies ip2 == ip by {
                        lemma_ipv4_bytes_injective(ip2, ip);
                    }
                }
                Command::Router(ip)
            },
            None => Command::RouterInvalid,
        }
    } else if check_prefix(line, value_p.as_slice()) {
        let rest = slice_suffix(line, 6);
        match parse_usize(rest) {
            Some(v) => if v > 0 {
                Command::Value(v)
            } else {
                Command::ValueInvalid
            },
            None => Command::ValueInvalid,
        }
    } else if check_prefix(line, link_p.as_slice()) {
        let rest = slice_suffix(line, 5);
        let parsed = parse_ipv4(rest);
        proof {
            lemma_parse_ipv4_pins(rest@, parsed);
        }
        match parsed {
            Some(ip) => {
                proof {
                    assert forall|ip2: Ipv4| line@.skip(5) == ipv4_bytes(ip2) implies ip2 == ip by {
                        lemma_ipv4_bytes_injective(ip2, ip);
                    }
                }
                Command::Link(ip)
            },
            None => Command::LinkInvalid,
        }
    } else if check_prefix(line, queue_p.as_slice()) {
        let rest = slice_suffix(line, 6);
        match parse_usize(rest) {
            Some(v) => Command::Queue(v),
            None => Command::QueueInvalid,
        }
    } else {
        Command::Unknown
    }
}

/// The index of the first occurrence of byte `b`, or -1 if none.
pub open spec fn find_byte(s: Seq<u8>, b: u8) -> int
    decreases s.len(),
{
    if s.len() == 0 {
        -1
    } else if s[0] == b {
        0
    } else {
        let r = find_byte(s.drop_first(), b);
        if r < 0 {
            -1
        } else {
            r + 1
        }
    }
}

/// What `find_byte` returns: a valid index of the first occurrence, or
/// -1 when the byte does not occur.
pub proof fn lemma_find_byte(s: Seq<u8>, b: u8)
    ensures
        find_byte(s, b) >= 0 ==> {
            &&& 0 <= find_byte(s, b) < s.len()
            &&& s[find_byte(s, b)] == b
            &&& forall|j: int| 0 <= j < find_byte(s, b) ==> s[j] != b
        },
        find_byte(s, b) < 0 ==> forall|j: int| 0 <= j < s.len() ==> s[j] != b,
    decreases s.len(),
{
    if s.len() > 0 && s[0] != b {
        lemma_find_byte(s.drop_first(), b);
        assert forall|j: int| 0 <= j < s.len() && s[j] == b implies find_byte(s, b) >= 0 by {
            if j > 0 {
                assert(s.drop_first()[j - 1] == s[j]);
            }
        }
        if find_byte(s, b) >= 0 {
            assert forall|j: int| 0 <= j < find_byte(s, b) implies s[j] != b by {
                if j > 0 {
                    assert(s.drop_first()[j - 1] == s[j]);
                }
            }
        }
    }
}

/// A line with one trailing carriage return removed.
pub open spec fn spec_strip_cr(line: Seq<u8>) -> Seq<u8> {
    if line.len() > 0 && line.last() == 13 {
        line.drop_last()
    } else {
        line
    }
}

/// A controller datagram's lines: the newline-separated segments, each
/// with a trailing carriage return stripped; a final newline produces
/// no empty last line.
pub open spec fn spec_lines(s: Seq<u8>) -> Seq<Seq<u8>>
    decreases s.len(),
{
    let i = find_byte(s, 10);
    if 0 <= i < s.len() {
        seq![spec_strip_cr(s.take(i))] + spec_lines(s.skip(i + 1))
    } else if s.len() == 0 {
        Seq::empty()
    } else {
        seq![spec_strip_cr(s)]
    }
}

/// The tail of a byte slice from `start` on.
fn slice_suffix(s: &[u8], start: usize) -> (r: &[u8])
    requires
        start <= s@.len(),
    ensures
        r@ == s@.skip(start as int),
{
    let (_, suffix) = s.split_at(start);
    proof {
        assert(suffix@ =~= s@.skip(start as int));
    }
    suffix
}

} // verus!
