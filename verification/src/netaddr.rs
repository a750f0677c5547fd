//! IP address literals: the dotted-quad IPv4 and colon-hex IPv6 forms, and
//! the network groups used to spread peers across buckets.
use vstd::prelude::*;

verus! {

/// An IPv4 address (four octets) or an IPv6 address (eight 16-bit groups).
#[derive(Debug)]
pub enum IpAddr {
    V4(Vec<u8>),
    V6(Vec<u16>),
}

/// Mathematical form of an address.
pub enum IpView {
    V4(Seq<u8>),
    V6(Seq<u16>),
}

impl View for IpAddr {
    type V = IpView;

    open spec fn view(&self) -> IpView {
        match self {
            IpAddr::V4(o) => IpView::V4(o@),
            IpAddr::V6(g) => IpView::V6(g@),
        }
    }
}

/// Value of `c` as a digit in base `radix` (10 or 16), if it is one.
pub open spec fn digit_value(c: u8, radix: int) -> Option<int> {
    if 48 <= c <= 57 {
        Some(c - 48)
    } else if radix == 16 && 97 <= c <= 102 {
        Some(c - 87)
    } else if radix == 16 && 65 <= c <= 70 {
        Some(c - 55)
    } else {
        None
    }
}

/// Digits from `pos` on, accumulated onto `acc` (after `count` digits):
/// `(value, digits, end)`, or `None` past `max_digits` digits or `max_value`.
pub open spec fn scan_digits(s: Seq<u8>, pos: int, radix: int, max_digits: int, max_value: int, count: int, acc: int) -> Option<(int, int, int)>
    decreases s.len() - pos,
{
    if 0 <= pos < s.len() && digit_value(s[pos], radix) is Some {
        let a = acc * radix + digit_value(s[pos], radix)->0;
        if count == max_digits || a > max_value {
            None
        } else {
            scan_digits(s, pos + 1, radix, max_digits, max_value, count + 1, a)
        }
    } else {
        Some((acc, count, pos))
    }
}

/// A number at `pos`: at least one digit; without `allow_zero_prefix`, no
/// leading zero before further digits. `(value, end)`.
pub open spec fn read_number(s: Seq<u8>, pos: int, radix: int, max_digits: int, max_value: int, allow_zero_prefix: bool) -> Option<(int, int)> {
    match scan_digits(s, pos, radix, max_digits, max_value, 0, 0) {
        None => None,
        Some((v, c, e)) => if c == 0 {
            None
        } else if !allow_zero_prefix && s[pos] == 48 && c > 1 {
            None
        } else {
            Some((v, e))
        },
    }
}

/// A decimal octet at `pos` (up to three digits, at most 255, no leading zero).
pub open spec fn read_octet(s: Seq<u8>, pos: int) -> Option<(int, int)> {
    read_number(s, pos, 10, 3, 255, false)
}

/// `c` at `pos`, then the rest at `pos + 1`.
pub open spec fn is_char_at(s: Seq<u8>, pos: int, c: u8) -> bool {
    0 <= pos < s.len() && s[pos] == c
}

/// A dotted-quad IPv4 address at `pos`: `(octets, end)`.
pub open spec fn read_ipv4(s: Seq<u8>, pos: int) -> Option<(Seq<u8>, int)> {
    match read_octet(s, pos) {
        None => None,
        Some((a, e1)) => if !is_char_at(s, e1, 46) {
            None
        } else {
            match read_octet(s, e1 + 1) {
                None => None,
                Some((b, e2)) => if !is_char_at(s, e2, 46) {
                    None
                } else {
                    match read_octet(s, e2 + 1) {
                        None => None,
                        Some((c, e3)) => if !is_char_at(s, e3, 46) {
                            None
                        } else {
                            match read_octet(s, e3 + 1) {
                                None => None,
                                Some((d, e4)) => Some((seq![a as u8, b as u8, c as u8, d as u8], e4)),
                            }
                        },
                    }
                },
            }
        },
    }
}

/// The item read by `inner` at `pos`, after a `:` separator unless it is the
/// first item.
pub open spec fn after_colon(s: Seq<u8>, pos: int, first: bool) -> Option<int> {
    if first {
        Some(pos)
    } else if is_char_at(s, pos, 58) {
        Some(pos + 1)
    } else {
        None
    }
}

/// IPv6 groups from `pos`: up to `limit - i` more groups of one to four hex
/// digits separated by `:`, where an IPv4 address may stand for the last two.
/// `(groups, end, ended_with_ipv4)`.
pub open spec fn read_groups(s: Seq<u8>, pos: int, i: int, limit: int, acc: Seq<u16>) -> (Seq<u16>, int, bool)
    decreases limit - i,
{
    if i >= limit {
        (acc, pos, false)
    } else {
        let v4 = if i < limit - 1 {
            match after_colon(s, pos, i == 0) {
                Some(p) => read_ipv4(s, p),
                None => None,
            }
        } else {
            None
        };
        match v4 {
            Some((o, e)) => (acc.push((o[0] as int * 256 + o[1]) as u16).push((o[2] as int * 256 + o[3]) as u16), e, true),
            None => match after_colon(s, pos, i == 0) {
                None => (acc, pos, false),
                Some(p) => match read_number(s, p, 16, 4, 65535, true) {
                    None => (acc, pos, false),
                    Some((g, e)) => read_groups(s, e, i + 1, limit, acc.push(g as u16)),
                },
            },
        }
    }
}

/// An IPv6 address at `pos`: eight groups, or fewer around one `::`.
pub open spec fn read_ipv6(s: Seq<u8>, pos: int) -> Option<(Seq<u16>, int)> {
    let (head, e1, v4) = read_groups(s, pos, 0, 8, Seq::empty());
    if head.len() == 8 {
        Some((head, e1))
    } else if v4 || !is_char_at(s, e1, 58) || !is_char_at(s, e1 + 1, 58) {
        None
    } else {
        let (tail, e2, _) = read_groups(s, e1 + 2, 0, 8 - (head.len() + 1), Seq::empty());
        Some((head + Seq::new((8 - head.len() - tail.len()) as nat, |k: int| 0u16) + tail, e2))
    }
}

/// The address spelled by all of `s`: IPv4 when an IPv4 address starts it,
/// otherwise IPv6.
pub open spec fn spec_parse_ip(s: Seq<u8>) -> Option<IpView> {
    match read_ipv4(s, 0) {
        Some((o, e)) => if e == s.len() { Some(IpView::V4(o)) } else { None },
        None => match read_ipv6(s, 0) {
            Some((g, e)) => if e == s.len() { Some(IpView::V6(g)) } else { None },
            None => None,
        },
    }
}

fn digit_of(c: u8, radix: u32) -> (r: Option<u32>)
    requires
        radix == 10 || radix == 16,
    ensures
        match digit_value(c, radix as int) {
            Some(d) => r == Some(d as u32),
            None => r is None,
        },
{
    if 48 <= c && c <= 57 {
        Some((c - 48) as u32)
    } else if radix == 16 && 97 <= c && c <= 102 {
        Some((c - 87) as u32)
    } else if radix == 16 && 65 <= c && c <= 70 {
        Some((c - 55) as u32)
    } else {
        None
    }
}

fn parse_number(s: &[u8], pos: usize, radix: u32, max_digits: u32, max_value: u32, allow_zero_prefix: bool) -> (r: Option<(u32, usize)>)
    requires
        radix == 10 || radix == 16,
        max_digits <= 4,
        max_value <= 65535,
        pos <= s@.len(),
    ensures
        match read_number(s@, pos as int, radix as int, max_digits as int, max_value as int, allow_zero_prefix) {
            Some((v, e)) => r == Some((v as u32, e as usize)) && pos <= e <= s@.len() && 0 <= v <= max_value,
            None => r is None,
        },
{
    let mut acc: u32 = 0;
    let mut count: u32 = 0;
    let mut p: usize = pos;
    while p < s.len()
        invariant_except_break
            pos <= p <= s@.len(),
            count <= max_digits,
            acc <= max_value,
            p == pos + count,
            radix == 10 || radix == 16,
            max_digits <= 4,
            max_value <= 65535,
            scan_digits(s@, pos as int, radix as int, max_digits as int, max_value as int, 0, 0)
                == scan_digits(s@, p as int, radix as int, max_digits as int, max_value as int, count as int, acc as int),
        ensures
            pos <= p <= s@.len(),
            acc <= max_value,
            p == pos + count,
            scan_digits(s@, pos as int, radix as int, max_digits as int, max_value as int, 0, 0)
                == Some((acc as int, count as int, p as int)),
        decreases s@.len() - p,
    {
        match digit_of(s[p], radix) {
            Some(d) => {
                let a: u32 = acc * radix + d;
                if count == max_digits || a > max_value {
                    return None;
                }
                acc = a;
                count = count + 1;
                p = p + 1;
            },
            None => {
                break;
            },
        }
    }
    if count == 0 {
        return None;
    }
    if !allow_zero_prefix && s[pos] == 48 && count > 1 {
        return None;
    }
    Some((acc, p))
}

/// `c` at `pos`.
fn char_at(s: &[u8], pos: usize, c: u8) -> (r: bool)
    ensures
        r == is_char_at(s@, pos as int, c),
{
    pos < s.len() && s[pos] == c
}

fn parse_ipv4_at(s: &[u8], pos: usize) -> (r: Option<(Vec<u8>, usize)>)
    requires
        pos <= s@.len(),
    ensures
        match read_ipv4(s@, pos as int) {
            Some((o, e)) => r matches Some((v, x)) && v@ == o && x == e && pos <= x <= s@.len(),
            None => r is None,
        },
{
    let n = s.len();
    let (a, e1) = match parse_number(s, pos, 10, 3, 255, false) {
        Some(x) => x,
        None => {
            return None;
        },
    };
    if !char_at(s, e1, 46) {
        return None;
    }
    let (b, e2) = match parse_number(s, e1 + 1, 10, 3, 255, false) {
        Some(x) => x,
        None => {
            return None;
        },
    };
    if !char_at(s, e2, 46) {
        return None;
    }
    let (c, e3) = match parse_number(s, e2 + 1, 10, 3, 255, false) {
        Some(x) => x,
        None => {
            return None;
        },
    };
    if !char_at(s, e3, 46) {
        return None;
    }
    let (d, e4) = match parse_number(s, e3 + 1, 10, 3, 255, false) {
        Some(x) => x,
        None => {
            return None;
        },
    };
    let mut out: Vec<u8> = Vec::new();
    out.push(a as u8);
    out.push(b as u8);
    out.push(c as u8);
    out.push(d as u8);
    proof {
        assert(out@ =~= seq![a as u8, b as u8, c as u8, d as u8]);
    }
    Some((out, e4))
}

/// Position after the separator before item `first`/later, per `after_colon`.
fn colon_step(s: &[u8], pos: usize, first: bool) -> (r: Option<usize>)
    requires
        pos <= s@.len(),
    ensures
        match after_colon(s@, pos as int, first) {
            Some(p) => (r matches Some(x) && x as int == p) && 0 <= p <= s@.len(),
            None => r is None,
        },
{
    let n = s.len();
    if first {
        Some(pos)
    } else if char_at(s, pos, 58) {
        Some(pos + 1)
    } else {
        None
    }
}

fn parse_groups(s: &[u8], pos: usize, limit: usize) -> (r: (Vec<u16>, usize, bool))
    requires
        pos <= s@.len(),
        limit <= 8,
    ensures
        read_groups(s@, pos as int, 0, limit as int, Seq::empty()) == (r.0@, r.1 as int, r.2),
        r.1 <= s@.len(),
        r.0@.len() <= limit,
{
    let n = s.len();
    let mut acc: Vec<u16> = Vec::new();
    let mut p: usize = pos;
    let mut i: usize = 0;
    while i < limit
        invariant
            i <= limit <= 8,
            p <= s@.len(),
            n == s@.len(),
            acc@.len() == i,
            read_groups(s@, pos as int, 0, limit as int, Seq::empty()) == read_groups(s@, p as int, i as int, limit as int, acc@),
        decreases limit - i,
    {
        if i + 1 < limit {
            let v4 = match colon_step(s, p, i == 0) {
                Some(q) => parse_ipv4_at(s, q),
                None => None,
            };
            match v4 {
                Some((o, e)) => {
                    let ghost a0 = acc@;
                    let x: u16 = (o[0] as u16) * 256 + o[1] as u16;
                    let y: u16 = (o[2] as u16) * 256 + o[3] as u16;
                    acc.push(x);
                    acc.push(y);
                    proof {
                        let ov = o@;
                        assert(x == (ov[0] as int * 256 + ov[1]) as u16);
                        assert(y == (ov[2] as int * 256 + ov[3]) as u16);
                        assert(acc@ =~= a0.push((ov[0] as int * 256 + ov[1]) as u16).push((ov[2] as int * 256 + ov[3]) as u16));
                    }
                    return (acc, e, true);
                },
                None => {},
            }
        }
        let first = i == 0;
        let cq = colon_step(s, p, first);
        let q = match cq {
            Some(q) => q,
            None => {
                return (acc, p, false);
            },
        };

        match parse_number(s, q, 16, 4, 65535, true) {
            Some((g, e)) => {
                acc.push(g as u16);
                p = e;
            },
            None => {
                return (acc, p, false);
            },
        }
        i = i + 1;
    }
    (acc, p, false)
}

fn parse_ipv6_at(s: &[u8], pos: usize) -> (r: Option<(Vec<u16>, usize)>)
    requires
        pos <= s@.len(),
    ensures
        match read_ipv6(s@, pos as int) {
            Some((g, e)) => r matches Some((v, x)) && v@ == g && x == e && x <= s@.len(),
            None => r is None,
        },
{
    let n = s.len();
    let (head, e1, v4) = parse_groups(s, pos, 8);
    if head.len() == 8 {
        return Some((head, e1));
    }
    if v4 || !char_at(s, e1, 58) || !char_at(s, e1 + 1, 58) {
        return None;
    }
    let limit = 8 - (head.len() + 1);
    let (tail, e2, _) = parse_groups(s, e1 + 2, limit);
    let mut out = head;
    let gap = 8 - out.len() - tail.len();
    let ghost h = out@;
    let mut k: usize = 0;
    while k < gap
        invariant
            k <= gap,
            out@ == h + Seq::new(k as nat, |q: int| 0u16),
        decreases gap - k,
    {
        out.push(0);
        proof {
            assert(out@ =~= h + Seq::new((k + 1) as nat, |q: int| 0u16));
        }
        k = k + 1;
    }
    let ghost mid = out@;
    let mut t: usize = 0;
    while t < tail.len()
        invariant
            t <= tail@.len(),
            out@ == mid + tail@.take(t as int),
        decreases tail@.len() - t,
    {
        out.push(tail[t]);
        proof {
            assert(out@ =~= mid + tail@.take(t + 1));
        }
        t = t + 1;
    }
    proof {
        assert(tail@.take(tail@.len() as int) =~= tail@);
    }
    Some((out, e2))
}

/// Parse an IP address literal.
pub fn parse_ip(s: &[u8]) -> (r: Option<IpAddr>)
    ensures
        match spec_parse_ip(s@) {
            Some(v) => r matches Some(a) && a@ == v,
            None => r is None,
        },
{
    match parse_ipv4_at(s, 0) {
        Some((o, e)) => {
            if e == s.len() {
                Some(IpAddr::V4(o))
            } else {
                None
            }
        },
        None => match parse_ipv6_at(s, 0) {
            Some((g, e)) => {
                if e == s.len() {
                    Some(IpAddr::V6(g))
                } else {
                    None
                }
            },
            None => None,
        },
    }
}

/// Network group for eclipse resistance: the first two octets of an IPv4
/// address (/16), the first four bytes of an IPv6 address (/32).
pub open spec fn spec_net_group(ip: IpView) -> Seq<u8> {
    match ip {
        IpView::V4(o) => o.take(2),
        IpView::V6(g) => seq![(g[0] / 256) as u8, (g[0] % 256) as u8, (g[1] / 256) as u8, (g[1] % 256) as u8],
    }
}

/// An address is well formed: four octets or eight groups.
pub open spec fn ip_wf(ip: IpView) -> bool {
    match ip {
        IpView::V4(o) => o.len() == 4,
        IpView::V6(g) => g.len() == 8,
    }
}

/// Network group of a well-formed address.
pub fn net_group(ip: &IpAddr) -> (r: Vec<u8>)
    requires
        ip_wf(ip@),
    ensures
        r@ == spec_net_group(ip@),
{
    let mut out: Vec<u8> = Vec::new();
    match ip {
        IpAddr::V4(o) => {
            out.push(o[0]);
            out.push(o[1]);
            proof {
                assert(out@ =~= o@.take(2));
            }
        },
        IpAddr::V6(g) => {
            out.push((g[0] / 256) as u8);
            out.push((g[0] % 256) as u8);
            out.push((g[1] / 256) as u8);
            out.push((g[1] % 256) as u8);
            proof {
                assert(out@ =~= spec_net_group(ip@));
            }
        },
    }
    out
}

/// Position of the last `:` in `s`.
pub open spec fn last_colon(s: Seq<u8>) -> Option<int>
    decreases s.len(),
{
    if s.len() == 0 {
        None
    } else if s.last() == 58 {
        Some(s.len() - 1)
    } else {
        last_colon(s.drop_last())
    }
}

/// `[` or `]`.
pub open spec fn is_bracket(c: u8) -> bool {
    c == 91 || c == 93
}

/// `s` without its leading brackets.
pub open spec fn trim_front(s: Seq<u8>) -> Seq<u8>
    decreases s.len(),
{
    if s.len() > 0 && is_bracket(s[0]) { trim_front(s.drop_first()) } else { s }
}

/// `s` without its trailing brackets.
pub open spec fn trim_back(s: Seq<u8>) -> Seq<u8>
    decreases s.len(),
{
    if s.len() > 0 && is_bracket(s.last()) { trim_back(s.drop_last()) } else { s }
}

/// The host of `host:port` (brackets around it removed), or all of `s`
/// when it holds no `:`.
pub open spec fn host_part(s: Seq<u8>) -> Seq<u8> {
    match last_colon(s) {
        Some(i) => trim_back(trim_front(s.take(i))),
        None => s,
    }
}

/// The IP address spelled by the host part of `s`.
pub open spec fn spec_parse_host(s: Seq<u8>) -> Option<IpView> {
    spec_parse_ip(host_part(s))
}

proof fn lemma_parsed_wf(s: Seq<u8>)
    ensures
        spec_parse_ip(s) matches Some(v) ==> ip_wf(v),
{
    if let Some((o, e)) = read_ipv4(s, 0) {
        assert(o.len() == 4);
    } else if let Some((g, e)) = read_ipv6(s, 0) {
        lemma_groups_len(s, 0, 0, 8, Seq::empty());
        let (head, e1, v4) = read_groups(s, 0, 0, 8, Seq::empty());
        if head.len() != 8 {
            lemma_groups_len(s, e1 + 2, 0, 8 - (head.len() + 1), Seq::empty());
        }
    }
}

proof fn lemma_groups_len(s: Seq<u8>, pos: int, i: int, limit: int, acc: Seq<u16>)
    requires
        0 <= i <= limit,
        acc.len() == i,
    ensures
        read_groups(s, pos, i, limit, acc).0.len() <= limit,
    decreases limit - i,
{
    if i < limit {
        let v4 = if i < limit - 1 {
            match after_colon(s, pos, i == 0) {
                Some(p) => read_ipv4(s, p),
                None => None,
            }
        } else {
            None
        };
        if v4 is None {
            match after_colon(s, pos, i == 0) {
                None => {},
                Some(p) => match read_number(s, p, 16, 4, 65535, true) {
                    None => {},
                    Some((g, e)) => {
                        lemma_groups_len(s, e, i + 1, limit, acc.push(g as u16));
                    },
                },
            }
        }
    }
}

/// The IP address in the host part of `addr` (`host:port`, `[v6]:port` or
/// a bare host), if it is an IP literal.
pub fn parse_host(addr: &[u8]) -> (r: Option<IpAddr>)
    ensures
        match spec_parse_host(addr@) {
            Some(v) => r matches Some(a) && a@ == v && ip_wf(v),
            None => r is None,
        },
{
    let n = addr.len();
    let mut k: usize = n;
    proof {
        assert(addr@.take(n as int) =~= addr@);
    }
    while k > 0 && addr[k - 1] != 58
        invariant
            k <= n == addr@.len(),
            last_colon(addr@) == last_colon(addr@.take(k as int)),
        decreases k,
    {
        proof {
            assert(addr@.take(k as int).drop_last() =~= addr@.take(k - 1));
        }
        k = k - 1;
    }
    proof {
        assert(addr@.take(n as int) =~= addr@);
        lemma_parsed_wf(host_part(addr@));
    }
    if k == 0 {
        proof {
            assert(addr@.take(0) =~= Seq::<u8>::empty());
        }
        return parse_ip(addr);
    }
    let colon = k - 1;
    proof {
        assert(last_colon(addr@.take(k as int)) == Some(colon as int));
    }
    let mut lo: usize = 0;
    while lo < colon && (addr[lo] == 91 || addr[lo] == 93)
        invariant
            lo <= colon < n == addr@.len(),
            trim_front(addr@.take(colon as int)) == trim_front(addr@.subrange(lo as int, colon as int)),
        decreases colon - lo,
    {
        proof {
            assert(addr@.subrange(lo as int, colon as int).drop_first() =~= addr@.subrange(lo + 1, colon as int));
        }
        lo = lo + 1;
    }
    proof {
        assert(addr@.take(colon as int) =~= addr@.subrange(0, colon as int));
    }
    let mut hi: usize = colon;
    while hi > lo && (addr[hi - 1] == 91 || addr[hi - 1] == 93)
        invariant
            lo <= hi <= colon < n == addr@.len(),
            trim_back(addr@.subrange(lo as int, colon as int)) == trim_back(addr@.subrange(lo as int, hi as int)),
        decreases hi,
    {
        proof {
            assert(addr@.subrange(lo as int, hi as int).drop_last() =~= addr@.subrange(lo as int, hi - 1));
        }
        hi = hi - 1;
    }
    let mut host: Vec<u8> = Vec::new();
    let mut j: usize = lo;
    while j < hi
        invariant
            lo <= j <= hi <= colon < n == addr@.len(),
            host@ == addr@.subrange(lo as int, j as int),
        decreases hi - j,
    {
        host.push(addr[j]);
        proof {
            assert(host@ =~= addr@.subrange(lo as int, j + 1));
        }
        j = j + 1;
    }
    proof {
        let sub = addr@.subrange(lo as int, colon as int);
        assert(trim_front(sub) == sub) by {
            if sub.len() > 0 {
                assert(sub[0] == addr@[lo as int]);
            }
        }
        assert(trim_back(addr@.subrange(lo as int, hi as int)) == addr@.subrange(lo as int, hi as int)) by {
            let t = addr@.subrange(lo as int, hi as int);
            if t.len() > 0 {
                assert(t.last() == addr@[hi - 1]);
            }
        }
    }
    parse_ip(host.as_slice())
}

} // verus!
