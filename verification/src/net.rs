//! IPv4 addresses: the classification the HTTP extension uses to decide
//! whether a `-ip`/`+ip` address from the command line is globally
//! reachable (and so worth binding the HTTP client to), and reading that
//! address from the command line.

use vstd::prelude::*;
use crate::json::pointer::{all_digits, digits_value, parse_digits};
use crate::json::structs::{find_byte, lemma_find_byte_range};

verus! {

/// An IPv4 address by its four octets, most significant first.
#[derive(Clone, Copy, Debug, PartialEq, Eq, Structural)]
pub struct Ipv4 {
    pub a: u8,
    pub b: u8,
    pub c: u8,
    pub d: u8,
}

/// `100.64.0.0/10` (shared address space).
pub open spec fn spec_is_shared(x: Ipv4) -> bool {
    x.a == 100 && 64 <= x.b < 128
}

/// `198.18.0.0/15` (benchmarking).
pub open spec fn spec_is_benchmarking(x: Ipv4) -> bool {
    x.a == 198 && (x.b == 18 || x.b == 19)
}

/// `255.255.255.255`.
pub open spec fn spec_is_broadcast(x: Ipv4) -> bool {
    x.a == 255 && x.b == 255 && x.c == 255 && x.d == 255
}

/// `240.0.0.0/4` but the broadcast address (reserved).
pub open spec fn spec_is_reserved(x: Ipv4) -> bool {
    x.a >= 240 && !spec_is_broadcast(x)
}

/// `10.0.0.0/8`, `172.16.0.0/12`, `192.168.0.0/16`.
pub open spec fn spec_is_private(x: Ipv4) -> bool {
    x.a == 10 || (x.a == 172 && 16 <= x.b < 32) || (x.a == 192 && x.b == 168)
}

/// `127.0.0.0/8`.
pub open spec fn spec_is_loopback(x: Ipv4) -> bool {
    x.a == 127
}

/// `169.254.0.0/16`.
pub open spec fn spec_is_link_local(x: Ipv4) -> bool {
    x.a == 169 && x.b == 254
}

/// `192.0.2.0/24`, `198.51.100.0/24`, `203.0.113.0/24`.
pub open spec fn spec_is_documentation(x: Ipv4) -> bool {
    (x.a == 192 && x.b == 0 && x.c == 2) || (x.a == 198 && x.b == 51 && x.c == 100)
        || (x.a == 203 && x.b == 0 && x.c == 113)
}

/// Globally reachable: none of the special-purpose ranges above, nor
/// `0.0.0.0/8`, nor `192.0.0.0/24` but its `.9` and `.10`.
pub open spec fn spec_is_global(x: Ipv4) -> bool {
    !(x.a == 0 || spec_is_private(x) || spec_is_shared(x) || spec_is_loopback(x) || spec_is_link_local(x)
        || (x.a == 192 && x.b == 0 && x.c == 0 && x.d != 9 && x.d != 10)
        || spec_is_documentation(x) || spec_is_benchmarking(x) || spec_is_reserved(x) || spec_is_broadcast(x))
}

pub fn is_shared(addr: &Ipv4) -> (r: bool)
    ensures
        r == spec_is_shared(*addr),
{
    let b = addr.b;
    assert(((b & 0xc0u8) == 0x40u8) == (64 <= b && b < 128)) by (bit_vector);
    addr.a == 100 && (addr.b & 0b1100_0000u8) == 0b0100_0000u8
}

pub fn is_benchmarking(addr: &Ipv4) -> (r: bool)
    ensures
        r == spec_is_benchmarking(*addr),
{
    let b = addr.b;
    assert(((b & 0xfeu8) == 18u8) == (b == 18 || b == 19)) by (bit_vector);
    addr.a == 198 && (addr.b & 0xfe) == 18
}

fn is_broadcast(addr: &Ipv4) -> (r: bool)
    ensures
        r == spec_is_broadcast(*addr),
{
    addr.a == 255 && addr.b == 255 && addr.c == 255 && addr.d == 255
}

pub fn is_reserved(addr: &Ipv4) -> (r: bool)
    ensures
        r == spec_is_reserved(*addr),
{
    let a = addr.a;
    assert(((a & 240u8) == 240u8) == (a >= 240)) by (bit_vector);
    addr.a & 240 == 240 && !is_broadcast(addr)
}

pub fn is_global(addr: &Ipv4) -> (r: bool)
    ensures
        r == spec_is_global(*addr),
        r ==> !(addr.a == 0 || addr.a == 10 || (addr.a == 100 && 64 <= addr.b <= 127) || addr.a == 127
            || (addr.a == 169 && addr.b == 254) || (addr.a == 172 && 16 <= addr.b <= 31) || (addr.a == 192 && addr.b == 168)
            || addr.a >= 240),
{
    let private = addr.a == 10 || (addr.a == 172 && 16 <= addr.b && addr.b < 32) || (addr.a == 192 && addr.b == 168);
    let documentation = (addr.a == 192 && addr.b == 0 && addr.c == 2) || (addr.a == 198 && addr.b == 51 && addr.c == 100)
        || (addr.a == 203 && addr.b == 0 && addr.c == 113);
    !(addr.a == 0 || private || is_shared(addr) || addr.a == 127 || (addr.a == 169 && addr.b == 254)
        || (addr.a == 192 && addr.b == 0 && addr.c == 0 && addr.d != 9 && addr.d != 10)
        || documentation || is_benchmarking(addr) || is_reserved(addr) || is_broadcast(addr))
}

/// One octet's text: one to three digits, no leading zero, at most 255.
pub open spec fn octet_text_ok(t: Seq<u8>) -> bool {
    &&& 1 <= t.len() <= 3
    &&& all_digits(t)
    &&& (t.len() == 1 || t[0] != 48)
    &&& digits_value(t) <= 255
}

/// `Ipv4Addr::from_str`: four octets separated by dots, nothing else.
pub open spec fn parse_ipv4(s: Seq<u8>) -> Option<Ipv4> {
    let n = s.len() as int;
    let d1 = find_byte(s, 0, n, 46);
    let d2 = find_byte(s, d1 + 1, n, 46);
    let d3 = find_byte(s, d2 + 1, n, 46);
    if d1 < n && d2 < n && d3 < n && find_byte(s, d3 + 1, n, 46) == n
        && octet_text_ok(s.subrange(0, d1)) && octet_text_ok(s.subrange(d1 + 1, d2))
        && octet_text_ok(s.subrange(d2 + 1, d3)) && octet_text_ok(s.subrange(d3 + 1, n)) {
        Some(Ipv4 {
            a: digits_value(s.subrange(0, d1)) as u8,
            b: digits_value(s.subrange(d1 + 1, d2)) as u8,
            c: digits_value(s.subrange(d2 + 1, d3)) as u8,
            d: digits_value(s.subrange(d3 + 1, n)) as u8,
        })
    } else {
        None
    }
}

fn find_dot(s: &[u8], from: usize) -> (r: usize)
    requires
        from <= s@.len(),
    ensures
        r as int == find_byte(s@, from as int, s@.len() as int, 46),
        from <= r <= s@.len(),
{
    let mut i = from;
    while i < s.len() && s[i] != 46
        invariant
            from <= i <= s@.len(),
            find_byte(s@, from as int, s@.len() as int, 46) == find_byte(s@, i as int, s@.len() as int, 46),
        decreases s.len() - i,
    {
        i += 1;
    }
    i
}

/// Reads the octet `s[from..to]`.
fn parse_octet(s: &[u8], from: usize, to: usize) -> (r: Option<u8>)
    requires
        from <= to <= s@.len(),
    ensures
        r matches Some(v) ==> octet_text_ok(s@.subrange(from as int, to as int)) && v == digits_value(s@.subrange(from as int, to as int)),
        r is None ==> !octet_text_ok(s@.subrange(from as int, to as int)),
{
    let t = &s[from..to];
    assert(t@ =~= s@.subrange(from as int, to as int));
    if t.len() < 1 || t.len() > 3 {
        return None;
    }
    if t.len() > 1 && t[0] == 48 {
        return None;
    }
    assert(t@.skip(0) =~= t@);
    match parse_digits(t, 0, 255) {
        Some(v) => Some(v as u8),
        None => None,
    }
}

/// `Ipv4Addr::from_str` computed.
pub fn ipv4_from_str(s: &[u8]) -> (r: Option<Ipv4>)
    ensures
        r == parse_ipv4(s@),
{
    let n = s.len();
    let d1 = find_dot(s, 0);
    if d1 >= n {
        return None;
    }
    let d2 = find_dot(s, d1 + 1);
    if d2 >= n {
        return None;
    }
    let d3 = find_dot(s, d2 + 1);
    if d3 >= n {
        return None;
    }
    if find_dot(s, d3 + 1) != n {
        return None;
    }
    let a = match parse_octet(s, 0, d1) { Some(v) => v, None => { return None; } };
    let b = match parse_octet(s, d1 + 1, d2) { Some(v) => v, None => { return None; } };
    let c = match parse_octet(s, d2 + 1, d3) { Some(v) => v, None => { return None; } };
    let d = match parse_octet(s, d3 + 1, n) { Some(v) => v, None => { return None; } };
    Some(Ipv4 { a, b, c, d })
}

/// The text `-ip` or `+ip`.
pub open spec fn is_ip_flag(a: Seq<u8>) -> bool {
    a == seq![45u8, 105u8, 112u8] || a == seq![43u8, 105u8, 112u8]
}

/// `commandline_bindip` from argument `i` on, `after_flag` telling whether
/// the argument before it was `-ip` or `+ip`: the first argument after such
/// a flag must be an IPv4 address, and it is the answer if it is globally
/// reachable.
pub open spec fn bindip_from(args: Seq<Seq<u8>>, i: int, after_flag: bool) -> Option<Ipv4>
    decreases args.len() - i,
{
    if i >= args.len() || i < 0 {
        None
    } else if after_flag {
        match parse_ipv4(args[i]) {
            Some(ip) => if spec_is_global(ip) { Some(ip) } else { None },
            None => None,
        }
    } else {
        bindip_from(args, i + 1, is_ip_flag(args[i]))
    }
}

/// `commandline_bindip`: the address given with `-ip`/`+ip` on the command
/// line (`args`, the program's own name first), when it is a globally
/// reachable IPv4 address.
pub fn commandline_bindip(args: &Vec<Vec<u8>>) -> (r: Option<Ipv4>)
    ensures
        r == bindip_from(args@.map_values(|a: Vec<u8>| a@), 0, false),
        r matches Some(ip) ==> !((ip.a == 100 && 64 <= ip.b <= 127) || ip.a == 0 || ip.a == 10 || ip.a == 127
            || (ip.a == 172 && 16 <= ip.b <= 31) || (ip.a == 192 && ip.b == 168) || (ip.a == 169 && ip.b == 254)),
{
    let ghost av = args@.map_values(|a: Vec<u8>| a@);
    proof { law_bindip_not_special(av); }
    let mut next_is_ip = false;
    let mut i: usize = 0;
    while i < args.len()
        invariant
            i <= args@.len(),
            av == args@.map_values(|a: Vec<u8>| a@),
            bindip_from(av, 0, false) == bindip_from(av, i as int, next_is_ip),
        decreases args.len() - i,
    {
        let a = args[i].as_slice();
        assert(av[i as int] == a@);
        if next_is_ip {
            let ip = match ipv4_from_str(a) {
                Some(ip) => ip,
                None => { return None; },
            };
            return if is_global(&ip) { Some(ip) } else { None };
        }
        let flag = a.len() == 3 && (a[0] == 45 || a[0] == 43) && a[1] == 105 && a[2] == 112;
        assert(flag == is_ip_flag(a@)) by {
            if a@.len() == 3 {
                assert(flag ==> a@ =~= seq![a[0], 105u8, 112u8]);
            }
        }
        next_is_ip = flag;
        i += 1;
    }
    None
}

/// Binding only to public addresses: whatever the command line holds,
/// the address `commandline_bindip` picks is globally reachable.
pub proof fn law_bindip_is_global(args: Seq<Seq<u8>>, i: int, after_flag: bool)
    ensures
        bindip_from(args, i, after_flag) matches Some(ip) ==> spec_is_global(ip),
    decreases args.len() - i,
{
    if 0 <= i < args.len() && !after_flag {
        law_bindip_is_global(args, i + 1, is_ip_flag(args[i]));
    }
}

/// Which IPv4 addresses are globally reachable, octet by octet: all but
/// `0.0.0.0/8`, `10.0.0.0/8`, `100.64.0.0/10` (shared), `127.0.0.0/8`,
/// `169.254.0.0/16`, `172.16.0.0/12`, `192.0.0.0/24` (except `.9` and
/// `.10`), `192.0.2.0/24`, `192.168.0.0/16`, `198.18.0.0/15`,
/// `198.51.100.0/24`, `203.0.113.0/24` and `240.0.0.0/4` (with the
/// broadcast address).
pub proof fn law_global_ranges(x: Ipv4)
    ensures
        spec_is_global(x) <==> !(
            x.a == 0
            || x.a == 10
            || (x.a == 100 && 64 <= x.b <= 127)
            || x.a == 127
            || (x.a == 169 && x.b == 254)
            || (x.a == 172 && 16 <= x.b <= 31)
            || (x.a == 192 && x.b == 0 && x.c == 0 && x.d != 9 && x.d != 10)
            || (x.a == 192 && x.b == 0 && x.c == 2)
            || (x.a == 192 && x.b == 168)
            || (x.a == 198 && (x.b == 18 || x.b == 19))
            || (x.a == 198 && x.b == 51 && x.c == 100)
            || (x.a == 203 && x.b == 0 && x.c == 113)
            || x.a >= 240
        ),
{
}

/// The bind address is never a special-purpose one: whatever the command
/// line, an address `commandline_bindip` picks lies outside the shared
/// space `100.64.0.0/10`, the private, loopback, link-local, documentation,
/// benchmarking and reserved ranges, and `0.0.0.0/8`.
pub proof fn law_bindip_not_special(args: Seq<Seq<u8>>)
    ensures
        bindip_from(args, 0, false) matches Some(ip) ==> !(
            ip.a == 0
            || ip.a == 10
            || (ip.a == 100 && 64 <= ip.b <= 127)
            || ip.a == 127
            || (ip.a == 169 && ip.b == 254)
            || (ip.a == 172 && 16 <= ip.b <= 31)
            || (ip.a == 192 && ip.b == 168)
            || (ip.a == 192 && ip.b == 0 && ip.c == 2)
            || (ip.a == 198 && (ip.b == 18 || ip.b == 19))
            || (ip.a == 198 && ip.b == 51 && ip.c == 100)
            || (ip.a == 203 && ip.b == 0 && ip.c == 113)
            || ip.a >= 240
        ),
{
    law_bindip_is_global(args, 0, false);
    if let Some(ip) = bindip_from(args, 0, false) {
        law_global_ranges(ip);
    }
}

} // verus!
