//! IPv6 addresses in text, and the address part of a socket address, as
//! the standard library's address grammar reads them: eight groups of one
//! to four hex digits, one "::" that stands for one or more zero groups,
//! and an optional trailing dotted-decimal IPv4 address for the last two
//! groups.

use crate::net::{ipv4_of, octet_of, parse_ipv4, parse_octet, IpAddress};
use crate::text::{
    all_digits, dec_value, digit_value, find_char, find_char_from, is_digit, parse_digits, slice_chars,
};
use vstd::prelude::*;

verus! {

/// The value of a hex digit.
pub open spec fn hex_val(c: char) -> Option<nat> {
    if '0' <= c && c <= '9' {
        Some((c as int - '0' as int) as nat)
    } else if 'a' <= c && c <= 'f' {
        Some((c as int - 'a' as int + 10) as nat)
    } else if 'A' <= c && c <= 'F' {
        Some((c as int - 'A' as int + 10) as nat)
    } else {
        None
    }
}

/// The number of hex digits that follow position `p`.
pub open spec fn hex_run(s: Seq<char>, p: int) -> nat
    decreases s.len() - p,
{
    if 0 <= p < s.len() && hex_val(s[p]) is Some {
        1 + hex_run(s, p + 1)
    } else {
        0
    }
}

/// The number the `n` hex digits at `p` spell.
pub open spec fn hex_num(s: Seq<char>, p: int, n: nat) -> nat
    decreases n,
{
    if n == 0 {
        0
    } else {
        hex_num(s, p, (n - 1) as nat) * 16 + hex_val(s[p + n - 1])->0
    }
}

/// The number of decimal digits that follow position `p`.
pub open spec fn dec_run(s: Seq<char>, p: int) -> nat
    decreases s.len() - p,
{
    if 0 <= p < s.len() && is_digit(s[p]) {
        1 + dec_run(s, p + 1)
    } else {
        0
    }
}

/// A group read at `p`: all the hex digits there, one to four of them, and
/// the position after them.
pub open spec fn read_group(s: Seq<char>, p: int) -> Option<(u16, int)> {
    let n = hex_run(s, p);
    if 1 <= n <= 4 {
        Some((hex_num(s, p, n) as u16, p + n))
    } else {
        None
    }
}

/// An octet read at `p`: all the decimal digits there, read as an IPv4
/// octet, and the position after them.
pub open spec fn read_octet(s: Seq<char>, p: int) -> Option<(u8, int)> {
    let n = dec_run(s, p);
    match octet_of(s.subrange(p, p + n)) {
        Some(o) => Some((o, p + n)),
        None => None,
    }
}

/// Whether `s` holds `c` at `p`.
pub open spec fn at(s: Seq<char>, p: int, c: char) -> bool {
    0 <= p < s.len() && s[p] == c
}

/// A dotted-decimal IPv4 address read at `p`, as two groups, and the
/// position after it.
pub open spec fn read_ipv4(s: Seq<char>, p: int) -> Option<(u16, u16, int)> {
    match read_octet(s, p) {
        None => None,
        Some((a, e1)) => if !at(s, e1, '.') {
            None
        } else {
            match read_octet(s, e1 + 1) {
                None => None,
                Some((b, e2)) => if !at(s, e2, '.') {
                    None
                } else {
                    match read_octet(s, e2 + 1) {
                        None => None,
                        Some((c, e3)) => if !at(s, e3, '.') {
                            None
                        } else {
                            match read_octet(s, e3 + 1) {
                                None => None,
                                Some((d, e4)) => Some(
                                    ((a as int * 256 + b) as u16, (c as int * 256 + d) as u16, e4),
                                ),
                            }
                        },
                    }
                },
            }
        },
    }
}

/// The groups read from `p` as group `i` onward, at most `limit` in all:
/// each after a ':' but the first, a trailing IPv4 address (when two
/// groups are left) ending the run. The groups, the position after them,
/// and whether an IPv4 address ended them.
pub open spec fn groups_from(s: Seq<char>, p: int, i: int, limit: int) -> (Seq<u16>, int, bool)
    decreases limit - i,
{
    if i >= limit {
        (Seq::empty(), p, false)
    } else {
        let q = if i > 0 {
            p + 1
        } else {
            p
        };
        if i > 0 && !at(s, p, ':') {
            (Seq::empty(), p, false)
        } else if i < limit - 1 && read_ipv4(s, q) is Some {
            let v = read_ipv4(s, q)->0;
            (seq![v.0, v.1], v.2, true)
        } else {
            match read_group(s, q) {
                None => (Seq::empty(), p, false),
                Some((g, e)) => {
                    let r = groups_from(s, e, i + 1, limit);
                    (seq![g] + r.0, r.1, r.2)
                },
            }
        }
    }
}

/// The number that the groups spell, the first the most significant.
pub open spec fn pack(g: Seq<u16>) -> nat
    decreases g.len(),
{
    if g.len() == 0 {
        0
    } else {
        pack(g.drop_last()) * 0x10000 + g.last() as nat
    }
}

/// The IPv6 address that `s` spells, as 128 bits, the first group the most
/// significant.
pub open spec fn ipv6_of(s: Seq<char>) -> Option<u128> {
    let h = groups_from(s, 0, 0, 8);
    if h.0.len() == 8 {
        if h.1 == s.len() {
            Some(pack(h.0) as u128)
        } else {
            None
        }
    } else if h.2 {
        None
    } else if at(s, h.1, ':') && at(s, h.1 + 1, ':') {
        let t = groups_from(s, h.1 + 2, 0, 8 - (h.0.len() + 1));
        if t.1 == s.len() {
            Some(pack(h.0 + Seq::new((8 - h.0.len() - t.0.len()) as nat, |i: int| 0u16) + t.0) as u128)
        } else {
            None
        }
    } else {
        None
    }
}

/// Whether `t` is a zone id: decimal digits that fit a `u32`.
pub open spec fn zone_ok(t: Seq<char>) -> bool {
    t.len() > 0 && all_digits(t) && dec_value(t) <= u32::MAX
}

/// The IP address that the address part `a` of a socket address spells:
/// a dotted-decimal IPv4 address, or an IPv6 address in brackets, with an
/// optional zone id after '%' that the address leaves out.
pub open spec fn endpoint_ip_of(a: Seq<char>) -> Option<IpAddress> {
    match ipv4_of(a) {
        Some(ip) => Some(IpAddress::V4(ip)),
        None => if a.len() >= 2 && a[0] == '[' && a.last() == ']' {
            let inner = a.subrange(1, a.len() - 1);
            let k = find_char(inner, '%') as int;
            let x = inner.take(k);
            if (k == inner.len() || zone_ok(inner.skip(k + 1))) && ipv6_of(x) is Some {
                Some(IpAddress::V6(ipv6_of(x)->0))
            } else {
                None
            }
        } else {
            None
        },
    }
}

/// Sixteen to the power `n`.
pub open spec fn pow16(n: nat) -> nat
    decreases n,
{
    if n == 0 {
        1
    } else {
        16 * pow16((n - 1) as nat)
    }
}

/// 2^16 to the power `n`.
pub open spec fn pow_group(n: nat) -> nat
    decreases n,
{
    if n == 0 {
        1
    } else {
        0x10000 * pow_group((n - 1) as nat)
    }
}

proof fn lemma_hex_run_digits(s: Seq<char>, p: int, k: int)
    requires
        0 <= k < hex_run(s, p),
    ensures
        0 <= p + k < s.len(),
        hex_val(s[p + k]) is Some,
    decreases k,
{
    if k > 0 {
        lemma_hex_run_digits(s, p + 1, k - 1);
    }
}

proof fn lemma_dec_run_digits(s: Seq<char>, p: int, k: int)
    requires
        0 <= k < dec_run(s, p),
    ensures
        0 <= p + k < s.len(),
        is_digit(s[p + k]),
    decreases k,
{
    if k > 0 {
        lemma_dec_run_digits(s, p + 1, k - 1);
    }
}

proof fn lemma_hex_num_bound(s: Seq<char>, p: int, n: nat)
    requires
        forall|k: int| 0 <= k < n ==> #[trigger] hex_val(s[p + k]) is Some && hex_val(s[p + k])->0 < 16,
    ensures
        hex_num(s, p, n) < pow16(n),
    decreases n,
{
    if n > 0 {
        lemma_hex_num_bound(s, p, (n - 1) as nat);
        let a = hex_num(s, p, (n - 1) as nat);
        let d = hex_val(s[p + n - 1])->0;
        let b = pow16((n - 1) as nat);
        assert(hex_val(s[p + (n - 1)]) is Some);
        assert(a * 16 + d < 16 * b) by (nonlinear_arith)
            requires
                a < b,
                d < 16,
        ;
    }
}

proof fn lemma_pack_bound(g: Seq<u16>)
    ensures
        pack(g) < pow_group(g.len()),
    decreases g.len(),
{
    if g.len() > 0 {
        lemma_pack_bound(g.drop_last());
        let a = pack(g.drop_last());
        let b = pow_group(g.drop_last().len());
        let d = g.last() as nat;
        assert(a * 0x10000 + d < 0x10000 * b) by (nonlinear_arith)
            requires
                a < b,
                d < 0x10000,
        ;
    }
}

fn hex_val_exec(c: char) -> (r: Option<u32>)
    ensures
        match r {
            Some(x) => hex_val(c) == Some(x as nat) && x < 16,
            None => hex_val(c) is None,
        },
{
    if '0' <= c && c <= '9' {
        Some(c as u32 - '0' as u32)
    } else if 'a' <= c && c <= 'f' {
        Some(c as u32 - 'a' as u32 + 10)
    } else if 'A' <= c && c <= 'F' {
        Some(c as u32 - 'A' as u32 + 10)
    } else {
        None
    }
}

fn hex_run_exec(v: &Vec<char>, p: usize) -> (r: usize)
    requires
        p <= v@.len(),
    ensures
        r == hex_run(v@, p as int),
        p + r <= v@.len(),
{
    let mut q = p;
    while q < v.len() && hex_val_exec(v[q]).is_some()
        invariant
            p <= q <= v@.len(),
            hex_run(v@, p as int) == (q - p) + hex_run(v@, q as int),
        decreases v.len() - q,
    {
        q = q + 1;
    }
    q - p
}

fn dec_run_exec(v: &Vec<char>, p: usize) -> (r: usize)
    requires
        p <= v@.len(),
    ensures
        r == dec_run(v@, p as int),
        p + r <= v@.len(),
{
    let mut q = p;
    while q < v.len() && '0' <= v[q] && v[q] <= '9'
        invariant
            p <= q <= v@.len(),
            dec_run(v@, p as int) == (q - p) + dec_run(v@, q as int),
        decreases v.len() - q,
    {
        q = q + 1;
    }
    q - p
}

fn read_group_exec(v: &Vec<char>, p: usize) -> (r: Option<(u16, usize)>)
    requires
        p <= v@.len(),
    ensures
        match r {
            Some((g, e)) => read_group(v@, p as int) == Some((g, e as int)) && e <= v@.len(),
            None => read_group(v@, p as int) is None,
        },
{
    let n = hex_run_exec(v, p);
    if n < 1 || n > 4 {
        return None;
    }
    let len = v.len();
    assert(p + n <= len);
    let ghost s = v@;
    proof {
        assert forall|k: int| 0 <= k < n implies #[trigger] hex_val(s[p + k]) is Some && hex_val(
            s[p + k],
        )->0 < 16 by {
            lemma_hex_run_digits(s, p as int, k);
        }
        lemma_hex_num_bound(s, p as int, n as nat);
        assert(pow16(4) == 65536) by {
            reveal_with_fuel(pow16, 5);
        }
        lemma_pow16_mono(n as nat, 4);
    }
    let mut acc: u32 = 0;
    let mut k: usize = 0;
    while k < n
        invariant
            k <= n <= 4,
            p + n <= s.len(),
            p + n <= len,
            len == v.len(),
            s == v@,
            forall|j: int| 0 <= j < n ==> #[trigger] hex_val(s[p + j]) is Some && hex_val(
                s[p + j],
            )->0 < 16,
            acc == hex_num(s, p as int, k as nat),
            acc < pow16(k as nat),
            pow16(n as nat) <= 65536,
        decreases n - k,
    {
        proof {
            assert(hex_val(s[p + (k as int)]) is Some);
        }
        let d = match hex_val_exec(v[p + k]) {
            Some(d) => d,
            None => 0,
        };
        proof {
            lemma_pow16_mono(k as nat + 1, n as nat);
            assert(acc * 16 + d < 16 * pow16(k as nat)) by (nonlinear_arith)
                requires
                    acc < pow16(k as nat),
                    d < 16,
            ;
        }
        acc = acc * 16 + d;
        k = k + 1;
    }
    Some((acc as u16, p + n))
}

proof fn lemma_pow16_mono(a: nat, b: nat)
    requires
        a <= b,
    ensures
        pow16(a) <= pow16(b),
    decreases b,
{
    if a < b {
        lemma_pow16_mono(a, (b - 1) as nat);
    }
}

fn read_octet_exec(v: &Vec<char>, p: usize) -> (r: Option<(u8, usize)>)
    requires
        p <= v@.len(),
    ensures
        match r {
            Some((o, e)) => read_octet(v@, p as int) == Some((o, e as int)) && e <= v@.len(),
            None => read_octet(v@, p as int) is None,
        },
{
    let n = dec_run_exec(v, p);
    let len = v.len();
    assert(p + n <= len);
    match parse_octet(&slice_chars(v, p, p + n)) {
        Some(o) => Some((o, p + n)),
        None => None,
    }
}

fn read_ipv4_exec(v: &Vec<char>, p: usize) -> (r: Option<(u16, u16, usize)>)
    requires
        p <= v@.len(),
    ensures
        match r {
            Some((a, b, e)) => read_ipv4(v@, p as int) == Some((a, b, e as int)) && e <= v@.len(),
            None => read_ipv4(v@, p as int) is None,
        },
{
    let (a, e1) = match read_octet_exec(v, p) {
        Some(x) => x,
        None => return None,
    };
    if !(e1 < v.len() && v[e1] == '.') {
        return None;
    }
    let (b, e2) = match read_octet_exec(v, e1 + 1) {
        Some(x) => x,
        None => return None,
    };
    if !(e2 < v.len() && v[e2] == '.') {
        return None;
    }
    let (c, e3) = match read_octet_exec(v, e2 + 1) {
        Some(x) => x,
        None => return None,
    };
    if !(e3 < v.len() && v[e3] == '.') {
        return None;
    }
    let (d, e4) = match read_octet_exec(v, e3 + 1) {
        Some(x) => x,
        None => return None,
    };
    Some(((a as u16) * 256 + (b as u16), (c as u16) * 256 + (d as u16), e4))
}

/// Reads the groups of `groups_from`.
fn groups_from_exec(v: &Vec<char>, p: usize, i: usize, limit: usize) -> (r: (Vec<u16>, usize, bool))
    requires
        p <= v@.len(),
        i <= limit <= 8,
    ensures
        ({
            let g = groups_from(v@, p as int, i as int, limit as int);
            r.0@ == g.0 && r.1 == g.1 && r.2 == g.2
        }),
        p <= r.1 <= v@.len(),
        r.0@.len() <= limit - i,
    decreases limit - i,
{
    if i >= limit {
        return (Vec::new(), p, false);
    }
    if i > 0 && !(p < v.len() && v[p] == ':') {
        return (Vec::new(), p, false);
    }
    let q = if i > 0 {
        p + 1
    } else {
        p
    };
    if i + 1 < limit {
        if let Some((a, b, e)) = read_ipv4_exec(v, q) {
            let mut out: Vec<u16> = Vec::new();
            out.push(a);
            out.push(b);
            assert(out@ =~= seq![a, b]);
            return (out, e, true);
        }
    }
    match read_group_exec(v, q) {
        None => (Vec::new(), p, false),
        Some((g, e)) => {
            let (mut rest, end, v4) = groups_from_exec(v, e, i + 1, limit);
            let ghost tail = rest@;
            rest.insert(0, g);
            assert(rest@ =~= seq![g] + tail);
            (rest, end, v4)
        },
    }
}

fn pack_exec(g: &Vec<u16>) -> (r: u128)
    requires
        g@.len() <= 8,
    ensures
        r == pack(g@),
{
    let mut acc: u128 = 0;
    let mut i: usize = 0;
    proof {
        assert(pow_group(8) == 0x1_0000_0000_0000_0000_0000_0000_0000_0000) by {
            reveal_with_fuel(pow_group, 9);
        }
    }
    while i < g.len()
        invariant
            i <= g@.len() <= 8,
            acc == pack(g@.take(i as int)),
            pow_group(8) == 0x1_0000_0000_0000_0000_0000_0000_0000_0000,
        decreases g.len() - i,
    {
        proof {
            let t = g@.take(i as int + 1);
            assert(t.drop_last() =~= g@.take(i as int));
            lemma_pack_bound(t);
            lemma_pow_group_mono(t.len(), 8);
        }
        acc = acc * 0x10000 + g[i] as u128;
        i = i + 1;
    }
    assert(g@.take(g@.len() as int) =~= g@);
    acc
}

proof fn lemma_pow_group_mono(a: nat, b: nat)
    requires
        a <= b,
    ensures
        pow_group(a) <= pow_group(b),
    decreases b,
{
    if a < b {
        lemma_pow_group_mono(a, (b - 1) as nat);
    }
}

/// Reads an IPv6 address, the whole of `v`.
pub fn parse_ipv6(v: &Vec<char>) -> (r: Option<u128>)
    ensures
        r == ipv6_of(v@),
{
    let (h, e, v4) = groups_from_exec(v, 0, 0, 8);
    if h.len() == 8 {
        proof {
            lemma_pack_bound(h@);
        }
        return if e == v.len() {
            Some(pack_exec(&h))
        } else {
            None
        };
    }
    if v4 {
        return None;
    }
    if !(v.len() >= 2 && e <= v.len() - 2 && v[e] == ':' && v[e + 1] == ':') {
        return None;
    }
    let (t, e2, _) = groups_from_exec(v, e + 2, 0, 8 - (h.len() + 1));
    if e2 != v.len() {
        return None;
    }
    let mut all: Vec<u16> = Vec::new();
    let mut k: usize = 0;
    while k < h.len()
        invariant
            k <= h@.len(),
            all@ == h@.take(k as int),
        decreases h.len() - k,
    {
        all.push(h[k]);
        k = k + 1;
        assert(all@ =~= h@.take(k as int));
    }
    let zeros = 8 - h.len() - t.len();
    let ghost hz = h@ + Seq::new(zeros as nat, |i: int| 0u16);
    let mut z: usize = 0;
    assert(h@.take(h@.len() as int) =~= h@);
    while z < zeros
        invariant
            z <= zeros,
            all@ == h@ + Seq::new(z as nat, |i: int| 0u16),
        decreases zeros - z,
    {
        all.push(0);
        z = z + 1;
        assert(all@ =~= h@ + Seq::new(z as nat, |i: int| 0u16));
    }
    let mut j: usize = 0;
    while j < t.len()
        invariant
            j <= t@.len(),
            hz == h@ + Seq::new(zeros as nat, |i: int| 0u16),
            all@ == hz + t@.take(j as int),
        decreases t.len() - j,
    {
        all.push(t[j]);
        j = j + 1;
        assert(all@ =~= hz + t@.take(j as int));
    }
    assert(t@.take(t@.len() as int) =~= t@);
    Some(pack_exec(&all))
}

/// Reads the address part of a socket address: dotted-decimal IPv4, or
/// IPv6 in brackets with an optional zone id.
pub fn parse_endpoint_ip(v: &Vec<char>) -> (r: Option<IpAddress>)
    ensures
        r == endpoint_ip_of(v@),
{
    if let Some(ip) = parse_ipv4(v) {
        return Some(IpAddress::V4(ip));
    }
    if !(v.len() >= 2 && v[0] == '[' && v[v.len() - 1] == ']') {
        return None;
    }
    let inner = slice_chars(v, 1, v.len() - 1);
    let k = find_char_from(&inner, '%', 0);
    assert(inner@.skip(0) =~= inner@);
    let x = slice_chars(&inner, 0, k);
    assert(x@ =~= inner@.take(k as int));
    if k < inner.len() {
        let zone = slice_chars(&inner, k + 1, inner.len());
        assert(zone@ =~= inner@.skip(k + 1));
        if zone.len() == 0 {
            return None;
        }
        match parse_digits(&zone, 0xffff_ffff) {
            Some(_) => {},
            None => return None,
        }
    }
    match parse_ipv6(&x) {
        Some(a) => Some(IpAddress::V6(a)),
        None => None,
    }
}

} // verus!
