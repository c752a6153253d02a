//! Address detector: bare IPv4 / IPv6 addresses and `host:port` socket
//! addresses, in the textual forms of the standard address grammar.
//!
//! IPv4 is four decimal octets joined by `.` (at most three digits each, no
//! leading zero, at most 255). IPv6 is up to eight groups of one to four hex
//! digits joined by `:`, where one `::` may stand for a run of zero groups and
//! the last two groups may be written as an embedded IPv4 address. A socket
//! address is `ipv4:port` or `[ipv6]:port`, optionally `[ipv6%scope]:port`.
use vstd::prelude::*;
use crate::text::{decode_digits, digit_run, digit_run_exec, digits_value, lemma_digit_run_digits,
    lemma_digits_value_grows};

verus! {

/// An IP address: four octets, or eight 16-bit groups.
#[derive(Clone, Debug, PartialEq, Eq)]
pub enum IpAddr {
    V4(Vec<u8>),
    V6(Vec<u16>),
}

/// A socket address: an IP address, a port and, for IPv6, a scope id.
#[derive(Clone, Debug, PartialEq, Eq)]
pub struct SocketAddr {
    pub ip: IpAddr,
    pub port: u16,
    pub scope_id: u32,
}

pub enum IpView {
    V4(Seq<u8>),
    V6(Seq<u16>),
}

pub struct SocketView {
    pub ip: IpView,
    pub port: u16,
    pub scope_id: u32,
}

impl View for IpAddr {
    type V = IpView;

    open spec fn view(&self) -> IpView {
        match self {
            IpAddr::V4(o) => IpView::V4(o@),
            IpAddr::V6(g) => IpView::V6(g@),
        }
    }
}

impl View for SocketAddr {
    type V = SocketView;

    open spec fn view(&self) -> SocketView {
        SocketView { ip: self.ip@, port: self.port, scope_id: self.scope_id }
    }
}

pub open spec fn char_at(s: Seq<char>, i: int, c: char) -> bool {
    0 <= i < s.len() && s[i] == c
}

/// A number at `i`: the whole run of digits of base `radix` there, at least
/// one, at most `max_digits` of them (when that is not 0), a value of at most
/// `bound`, and no leading zero unless `zero_prefix`. Gives the value and the
/// position after it.
pub open spec fn number_at(
    s: Seq<char>,
    i: int,
    radix: int,
    max_digits: int,
    zero_prefix: bool,
    bound: int,
) -> Option<(int, int)> {
    let k = digit_run(s, i, radix);
    let v = digits_value(s.subrange(i, i + k), radix);
    if k == 0 || (max_digits > 0 && k > max_digits) || v > bound || (!zero_prefix && s[i] == '0'
        && k > 1) {
        None
    } else {
        Some((v, i + k))
    }
}

pub open spec fn octet_at(s: Seq<char>, i: int) -> Option<(int, int)> {
    number_at(s, i, 10, 3, false, 255)
}

/// The first `k` octets of a dotted address that starts at `i`.
pub open spec fn octets_at(s: Seq<char>, i: int, k: nat) -> Option<(Seq<u8>, int)>
    decreases k,
{
    if k == 0 {
        Some((Seq::empty(), i))
    } else {
        match octets_at(s, i, (k - 1) as nat) {
            None => None,
            Some((g, j)) => if k > 1 && !char_at(s, j, '.') {
                None
            } else {
                match octet_at(s, if k > 1 { j + 1 } else { j }) {
                    None => None,
                    Some((v, e)) => Some((g.push(v as u8), e)),
                }
            },
        }
    }
}

pub open spec fn ipv4_at(s: Seq<char>, i: int) -> Option<(Seq<u8>, int)> {
    octets_at(s, i, 4)
}

/// Where the `idx`-th group of a `:`-joined list begins, when its separator is
/// there.
pub open spec fn after_separator(s: Seq<char>, pos: int, idx: int) -> Option<int> {
    if idx == 0 {
        Some(pos)
    } else if char_at(s, pos, ':') {
        Some(pos + 1)
    } else {
        None
    }
}

pub open spec fn embedded_ipv4(s: Seq<char>, pos: int, idx: int) -> Option<(Seq<u8>, int)> {
    match after_separator(s, pos, idx) {
        None => None,
        Some(p) => ipv4_at(s, p),
    }
}

pub open spec fn hex_group(s: Seq<char>, pos: int, idx: int) -> Option<(int, int)> {
    match after_separator(s, pos, idx) {
        None => None,
        Some(p) => number_at(s, p, 16, 4, true, 0xffff),
    }
}

/// Reads the groups `idx..limit` of an IPv6 address from `pos`, as many as
/// there are: the groups, where reading stopped, and whether the last two came
/// from an embedded IPv4 address (which needs room for two groups).
pub open spec fn ipv6_groups(s: Seq<char>, pos: int, limit: int, idx: int) -> (Seq<u16>, int, bool)
    decreases limit - idx,
{
    if idx >= limit {
        (Seq::empty(), pos, false)
    } else {
        match (if idx + 1 < limit { embedded_ipv4(s, pos, idx) } else { None }) {
            Some((o, e)) => (
                seq![(o[0] as int * 256 + o[1] as int) as u16, (o[2] as int * 256 + o[3] as int) as u16],
                e,
                true,
            ),
            None => match hex_group(s, pos, idx) {
                None => (Seq::empty(), pos, false),
                Some((g, e)) => {
                    let rest = ipv6_groups(s, e, limit, idx + 1);
                    (seq![g as u16] + rest.0, rest.1, rest.2)
                },
            },
        }
    }
}

/// An IPv6 address at `i`: eight groups, or a head, `::`, and a tail, with
/// zero groups in between.
pub open spec fn ipv6_at(s: Seq<char>, i: int) -> Option<(Seq<u16>, int)> {
    let head = ipv6_groups(s, i, 8, 0);
    if head.0.len() == 8 {
        Some((head.0, head.1))
    } else if head.2 || !char_at(s, head.1, ':') || !char_at(s, head.1 + 1, ':') {
        None
    } else {
        let tail = ipv6_groups(s, head.1 + 2, 8 - (head.0.len() + 1), 0);
        Some((
            head.0 + Seq::new((8 - head.0.len() - tail.0.len()) as nat, |j: int| 0u16) + tail.0,
            tail.1,
        ))
    }
}

/// The IP address that the whole of `s` spells: IPv4 first, then IPv6.
pub open spec fn ip_of(s: Seq<char>) -> Option<IpView> {
    match ipv4_at(s, 0) {
        Some((o, e)) => if e == s.len() {
            Some(IpView::V4(o))
        } else {
            None
        },
        None => match ipv6_at(s, 0) {
            Some((g, e)) => if e == s.len() {
                Some(IpView::V6(g))
            } else {
                None
            },
            None => None,
        },
    }
}

pub open spec fn port_at(s: Seq<char>, i: int) -> Option<(int, int)> {
    if char_at(s, i, ':') {
        number_at(s, i + 1, 10, 0, true, 0xffff)
    } else {
        None
    }
}

/// An optional `%` and scope id at `i`: the id (0 when absent) and the
/// position after it.
pub open spec fn scope_at(s: Seq<char>, i: int) -> (int, int) {
    if char_at(s, i, '%') {
        match number_at(s, i + 1, 10, 0, true, 0xffff_ffff) {
            Some((v, e)) => (v, e),
            None => (0, i),
        }
    } else {
        (0, i)
    }
}

pub open spec fn socket_v4_at(s: Seq<char>) -> Option<(SocketView, int)> {
    match ipv4_at(s, 0) {
        None => None,
        Some((o, e)) => match port_at(s, e) {
            None => None,
            Some((p, e2)) => Some((SocketView { ip: IpView::V4(o), port: p as u16, scope_id: 0 }, e2)),
        },
    }
}

pub open spec fn socket_v6_at(s: Seq<char>) -> Option<(SocketView, int)> {
    if !char_at(s, 0, '[') {
        None
    } else {
        match ipv6_at(s, 1) {
            None => None,
            Some((g, e)) => {
                let (scope, e2) = scope_at(s, e);
                if !char_at(s, e2, ']') {
                    None
                } else {
                    match port_at(s, e2 + 1) {
                        None => None,
                        Some((p, e3)) => Some(
                            (SocketView { ip: IpView::V6(g), port: p as u16, scope_id: scope as u32 }, e3),
                        ),
                    }
                }
            },
        }
    }
}

/// The socket address that the whole of `s` spells: IPv4 form first, then
/// the bracketed IPv6 form.
pub open spec fn socket_of(s: Seq<char>) -> Option<SocketView> {
    match socket_v4_at(s) {
        Some((a, e)) => if e == s.len() {
            Some(a)
        } else {
            None
        },
        None => match socket_v6_at(s) {
            Some((a, e)) => if e == s.len() {
                Some(a)
            } else {
                None
            },
            None => None,
        },
    }
}

fn char_at_exec(s: &str, n: usize, i: usize, c: char) -> (r: bool)
    requires
        n == s@.len(),
    ensures
        r == char_at(s@, i as int, c),
{
    i < n && s.get_char(i) == c
}

fn number_at_exec(
    s: &str,
    n: usize,
    i: usize,
    radix: u32,
    max_digits: usize,
    zero_prefix: bool,
    bound: u32,
) -> (r: Option<(u32, usize)>)
    requires
        n == s@.len(),
        i <= n,
        2 <= radix <= 16,
    ensures
        r matches Some((v, e)) ==> e <= n && number_at(s@, i as int, radix as int, max_digits as int,
            zero_prefix, bound as int) == Some((v as int, e as int)),
        r is None ==> number_at(s@, i as int, radix as int, max_digits as int, zero_prefix,
            bound as int) is None,
{
    let k = digit_run_exec(s, n, i, radix);
    if k == 0 || (max_digits > 0 && k > max_digits) {
        return None;
    }
    if !zero_prefix && s.get_char(i) == '0' && k > 1 {
        return None;
    }
    proof {
        lemma_digit_run_digits(s@, i as int, radix as int);
        let t = s@.subrange(i as int, i + k);
        lemma_digits_value_grows(t, radix as int, t.len() as int, t.len() as int);
        assert(t.subrange(0, t.len() as int) =~= t);
    }
    match decode_digits(s, i, i + k, radix) {
        None => None,
        Some(v) => if v > bound as u64 {
            None
        } else {
            Some((v as u32, i + k))
        },
    }
}

fn octets_at_exec(s: &str, n: usize, i: usize, k: usize) -> (r: Option<(Vec<u8>, usize)>)
    requires
        n == s@.len(),
        i <= n,
    ensures
        r matches Some((g, e)) ==> e <= n && g@.len() == k && octets_at(s@, i as int, k as nat) == Some(
            (g@, e as int),
        ),
        r is None ==> octets_at(s@, i as int, k as nat) is None,
    decreases k,
{
    if k == 0 {
        return Some((Vec::new(), i));
    }
    match octets_at_exec(s, n, i, k - 1) {
        None => None,
        Some((g, j)) => {
            if k > 1 && !char_at_exec(s, n, j, '.') {
                return None;
            }
            let start = if k > 1 { j + 1 } else { j };
            match number_at_exec(s, n, start, 10, 3, false, 255) {
                None => None,
                Some((v, e)) => {
                    let mut g = g;
                    g.push(v as u8);
                    Some((g, e))
                },
            }
        },
    }
}

fn after_separator_exec(s: &str, n: usize, pos: usize, idx: usize) -> (r: Option<usize>)
    requires
        n == s@.len(),
        pos <= n,
    ensures
        r matches Some(p) ==> p <= n && after_separator(s@, pos as int, idx as int) == Some(p as int),
        r is None ==> after_separator(s@, pos as int, idx as int) is None,
{
    if idx == 0 {
        Some(pos)
    } else if char_at_exec(s, n, pos, ':') {
        Some(pos + 1)
    } else {
        None
    }
}

fn ipv6_groups_exec(s: &str, n: usize, pos: usize, limit: usize, idx: usize) -> (r: (Vec<u16>, usize, bool))
    requires
        n == s@.len(),
        pos <= n,
        idx <= limit <= 8,
    ensures
        r.1 <= n,
        r.0@.len() <= limit - idx,
        (r.0@, r.1 as int, r.2) == ipv6_groups(s@, pos as int, limit as int, idx as int),
    decreases limit - idx,
{
    if idx >= limit {
        return (Vec::new(), pos, false);
    }
    if idx + 1 < limit {
        if let Some(p) = after_separator_exec(s, n, pos, idx) {
            if let Some((o, e)) = octets_at_exec(s, n, p, 4) {
                let hi: u16 = (o[0] as u16) * 256 + (o[1] as u16);
                let lo: u16 = (o[2] as u16) * 256 + (o[3] as u16);
                let mut out: Vec<u16> = Vec::new();
                out.push(hi);
                out.push(lo);
                proof {
                    assert(out@ =~= seq![(o@[0] as int * 256 + o@[1] as int) as u16, (o@[2] as int * 256 + o@[3] as int) as u16]);
                }
                return (out, e, true);
            }
        }
    }
    let group = match after_separator_exec(s, n, pos, idx) {
        None => None,
        Some(p) => number_at_exec(s, n, p, 16, 4, true, 0xffff),
    };
    match group {
        None => (Vec::new(), pos, false),
        Some((g, e)) => {
            let (rest, e2, v4) = ipv6_groups_exec(s, n, e, limit, idx + 1);
            let mut out: Vec<u16> = Vec::new();
            out.push(g as u16);
            let mut rest = rest;
            out.append(&mut rest);
            proof {
                assert(out@ =~= seq![g as u16] + ipv6_groups(s@, e as int, limit as int, idx + 1).0);
            }
            (out, e2, v4)
        },
    }
}

fn ipv6_at_exec(s: &str, n: usize, i: usize) -> (r: Option<(Vec<u16>, usize)>)
    requires
        n == s@.len(),
        i <= n,
    ensures
        r matches Some((g, e)) ==> e <= n && ipv6_at(s@, i as int) == Some((g@, e as int)),
        r is None ==> ipv6_at(s@, i as int) is None,
{
    let (head, e, v4) = ipv6_groups_exec(s, n, i, 8, 0);
    if head.len() == 8 {
        return Some((head, e));
    }
    if v4 || !char_at_exec(s, n, e, ':') || !char_at_exec(s, n, e + 1, ':') {
        return None;
    }
    let h = head.len();
    let (tail, e2, _) = ipv6_groups_exec(s, n, e + 2, 8 - (h + 1), 0);
    let t = tail.len();
    let mut out = head;
    let mut j: usize = 0;
    while j < 8 - h - t
        invariant
            h + t <= 7,
            out@.len() == h + j,
            j <= 8 - h - t,
            out@ =~= ipv6_groups(s@, i as int, 8, 0).0 + Seq::new(j as nat, |k: int| 0u16),
        decreases 8 - h - t - j,
    {
        out.push(0);
        j = j + 1;
    }
    let mut tail = tail;
    out.append(&mut tail);
    Some((out, e2))
}

fn socket_v4_exec(s: &str, n: usize) -> (r: Option<(SocketAddr, usize)>)
    requires
        n == s@.len(),
    ensures
        r matches Some((a, e)) ==> socket_v4_at(s@) == Some((a@, e as int)),
        r is None ==> socket_v4_at(s@) is None,
{
    match octets_at_exec(s, n, 0, 4) {
        None => None,
        Some((o, e)) => {
            if !char_at_exec(s, n, e, ':') {
                return None;
            }
            match number_at_exec(s, n, e + 1, 10, 0, true, 0xffff) {
                None => None,
                Some((p, e2)) => Some((SocketAddr { ip: IpAddr::V4(o), port: p as u16, scope_id: 0 }, e2)),
            }
        },
    }
}

fn socket_v6_exec(s: &str, n: usize) -> (r: Option<(SocketAddr, usize)>)
    requires
        n == s@.len(),
    ensures
        r matches Some((a, e)) ==> socket_v6_at(s@) == Some((a@, e as int)),
        r is None ==> socket_v6_at(s@) is None,
{
    if !char_at_exec(s, n, 0, '[') {
        return None;
    }
    match ipv6_at_exec(s, n, 1) {
        None => None,
        Some((g, e)) => {
            let mut scope: u32 = 0;
            let mut e2 = e;
            if char_at_exec(s, n, e, '%') {
                if let Some((v, after)) = number_at_exec(s, n, e + 1, 10, 0, true, 0xffff_ffff) {
                    scope = v;
                    e2 = after;
                }
            }
            if !char_at_exec(s, n, e2, ']') {
                return None;
            }
            if !char_at_exec(s, n, e2 + 1, ':') {
                return None;
            }
            match number_at_exec(s, n, e2 + 2, 10, 0, true, 0xffff) {
                None => None,
                Some((p, e3)) => Some((SocketAddr { ip: IpAddr::V6(g), port: p as u16, scope_id: scope }, e3)),
            }
        },
    }
}

/// Parses the whole of `arg` as a socket address.
pub fn parse_socket(arg: &str) -> (r: Option<SocketAddr>)
    ensures
        r matches Some(a) ==> socket_of(arg@) == Some(a@),
        r is None ==> socket_of(arg@) is None,
{
    let n = arg.unicode_len();
    match socket_v4_exec(arg, n) {
        Some((a, e)) => if e == n {
            Some(a)
        } else {
            None
        },
        None => match socket_v6_exec(arg, n) {
            Some((a, e)) => if e == n {
                Some(a)
            } else {
                None
            },
            None => None,
        },
    }
}

/// Parses the whole of `arg` as an IP address.
pub fn parse_ip(arg: &str) -> (r: Option<IpAddr>)
    ensures
        r matches Some(a) ==> ip_of(arg@) == Some(a@),
        r is None ==> ip_of(arg@) is None,
{
    let n = arg.unicode_len();
    match octets_at_exec(arg, n, 0, 4) {
        Some((o, e)) => if e == n {
            Some(IpAddr::V4(o))
        } else {
            None
        },
        None => match ipv6_at_exec(arg, n, 0) {
            Some((g, e)) => if e == n {
                Some(IpAddr::V6(g))
            } else {
                None
            },
            None => None,
        },
    }
}

} // verus!
