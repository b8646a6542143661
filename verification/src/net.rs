//! IPv4 and socket addresses, and the text forms they are read from.

use crate::text::{
    all_digits, dec_value, find_char, find_char_from, is_digit, parse_digits, slice_chars,
};
use vstd::prelude::*;

verus! {

/// An IPv4 address, by its four octets in network order.
#[derive(Clone, Copy, Debug, PartialEq, Eq, Hash, Structural)]
pub struct Ipv4Address(pub u8, pub u8, pub u8, pub u8);

/// An IP address: IPv4, or IPv6 by its 128 bits.
#[derive(Clone, Copy, Debug, PartialEq, Eq, Hash, Structural)]
pub enum IpAddress {
    V4(Ipv4Address),
    V6(u128),
}

/// An IP address and a port.
#[derive(Clone, Copy, Debug, PartialEq, Eq, Hash, Structural)]
pub struct SocketAddress {
    pub ip: IpAddress,
    pub port: u16,
}

/// Why an address has no raw IPv4 octets.
#[derive(Clone, Copy, Debug, PartialEq, Eq, Structural)]
pub enum NetError {
    /// Only IPv4 addresses have raw octets.
    NotIpv4,
}

/// The byte order of the machine that a number is meant for.
#[derive(Clone, Copy, Debug, PartialEq, Eq, Structural)]
pub enum ByteOrder {
    Little,
    Big,
}

/// The `u32` whose little-endian bytes are the octets of `ip`.
pub open spec fn octets_le(ip: Ipv4Address) -> u32 {
    (ip.0 as int + ip.1 as int * 0x100 + ip.2 as int * 0x1_0000 + ip.3 as int * 0x100_0000) as u32
}

/// The `u32` whose big-endian bytes are the octets of `ip`.
pub open spec fn octets_be(ip: Ipv4Address) -> u32 {
    (ip.3 as int + ip.2 as int * 0x100 + ip.1 as int * 0x1_0000 + ip.0 as int * 0x100_0000) as u32
}

/// The `u32` whose bytes, in the given order, are the octets of `ip`.
pub open spec fn octets_in(ip: Ipv4Address, order: ByteOrder) -> u32 {
    match order {
        ByteOrder::Little => octets_le(ip),
        ByteOrder::Big => octets_be(ip),
    }
}

/// Calls `u32::from_ne_bytes` on the octets of `ip`. Which of the two byte
/// orders it reads them in is the machine's; the contract states only that
/// it is one of them.
#[verifier::external_body]
fn u32_from_ne_bytes(ip: Ipv4Address) -> (r: u32)
    ensures
        r == octets_le(ip) || r == octets_be(ip),
{
    u32::from_ne_bytes([ip.0, ip.1, ip.2, ip.3])
}

/// The `u32` whose bytes, in the given order, are the octets of `ip`.
pub fn octets_u32(ip: Ipv4Address, order: ByteOrder) -> (r: u32)
    ensures
        r == octets_in(ip, order),
{
    let a = ip.0 as u32;
    let b = ip.1 as u32;
    let c = ip.2 as u32;
    let d = ip.3 as u32;
    match order {
        ByteOrder::Little => a + b * 0x100 + c * 0x1_0000 + d * 0x100_0000,
        ByteOrder::Big => d + c * 0x100 + b * 0x1_0000 + a * 0x100_0000,
    }
}

/// Addresses that convert to the raw `u32` of their IPv4 octets, in the
/// machine's byte order.
pub trait TryIntoRawOctets {
    fn try_into_ne_octets(&self) -> Result<u32, NetError>;
}

impl TryIntoRawOctets for Ipv4Address {
    fn try_into_ne_octets(&self) -> (r: Result<u32, NetError>)
        ensures
            r matches Ok(v) && (v == octets_le(*self) || v == octets_be(*self)),
    {
        Ok(u32_from_ne_bytes(*self))
    }
}

impl TryIntoRawOctets for IpAddress {
    fn try_into_ne_octets(&self) -> (r: Result<u32, NetError>)
        ensures
            match *self {
                IpAddress::V4(ip) => r matches Ok(v) && (v == octets_le(ip) || v == octets_be(ip)),
                IpAddress::V6(_) => r == Err::<u32, NetError>(NetError::NotIpv4),
            },
    {
        match self {
            IpAddress::V4(ip) => Ok(u32_from_ne_bytes(*ip)),
            IpAddress::V6(_) => Err(NetError::NotIpv4),
        }
    }
}

impl TryIntoRawOctets for SocketAddress {
    fn try_into_ne_octets(&self) -> (r: Result<u32, NetError>)
        ensures
            match self.ip {
                IpAddress::V4(ip) => r matches Ok(v) && (v == octets_le(ip) || v == octets_be(ip)),
                IpAddress::V6(_) => r == Err::<u32, NetError>(NetError::NotIpv4),
            },
    {
        self.ip.try_into_ne_octets()
    }
}

/// Whether `ip` is a loopback address (127.0.0.0/8).
pub open spec fn is_loopback(ip: Ipv4Address) -> bool {
    ip.0 == 127
}

/// The gateway of the /24 network of `ip`: its first host address, or `ip`
/// itself on loopback.
pub open spec fn gateway_of(ip: Ipv4Address) -> Ipv4Address {
    if is_loopback(ip) {
        ip
    } else {
        Ipv4Address(ip.0, ip.1, ip.2, 1)
    }
}

/// The gateway of the /24 network of `ip`: its first host address, or `ip`
/// itself on loopback.
pub fn get_gw_ip(ip: Ipv4Address) -> (r: Ipv4Address)
    ensures
        r == gateway_of(ip),
{
    if ip.0 == 127 {
        ip
    } else {
        Ipv4Address(ip.0, ip.1, ip.2, 1)
    }
}

/// A decimal octet as the IPv4 address grammar reads it: one to three
/// digits, no leading zero unless the octet is "0", at most 255.
pub open spec fn octet_of(s: Seq<char>) -> Option<u8> {
    if 1 <= s.len() <= 3 && all_digits(s) && (s.len() == 1 || s[0] != '0') && dec_value(s)
        <= 255 {
        Some(dec_value(s) as u8)
    } else {
        None
    }
}

/// The IPv4 address that `s` spells in dotted-decimal form: four octets
/// separated by single dots, nothing else.
pub open spec fn ipv4_of(s: Seq<char>) -> Option<Ipv4Address> {
    let i = find_char(s, '.') as int;
    let s1 = s.skip(i + 1);
    let j = find_char(s1, '.') as int;
    let s2 = s1.skip(j + 1);
    let k = find_char(s2, '.') as int;
    let s3 = s2.skip(k + 1);
    if i < s.len() && j < s1.len() && k < s2.len() && find_char(s3, '.') == s3.len() && octet_of(
        s.take(i),
    ) is Some && octet_of(s1.take(j)) is Some && octet_of(s2.take(k)) is Some && octet_of(
        s3,
    ) is Some {
        Some(
            Ipv4Address(
                octet_of(s.take(i))->0,
                octet_of(s1.take(j))->0,
                octet_of(s2.take(k))->0,
                octet_of(s3)->0,
            ),
        )
    } else {
        None
    }
}

/// What `str::parse::<u32>` gives: an optional '+', then at least one
/// decimal digit, the value in range.
pub open spec fn u32_of(s: Seq<char>) -> Option<u32> {
    let d = if s.len() > 0 && s[0] == '+' {
        s.drop_first()
    } else {
        s
    };
    if d.len() > 0 && all_digits(d) && dec_value(d) <= u32::MAX {
        Some(dec_value(d) as u32)
    } else {
        None
    }
}

/// Reads one octet.
pub fn parse_octet(s: &Vec<char>) -> (r: Option<u8>)
    ensures
        r == octet_of(s@),
{
    if s.len() < 1 || s.len() > 3 {
        return None;
    }
    if s.len() > 1 && s[0] == '0' {
        return None;
    }
    match parse_digits(s, 255) {
        Some(v) => Some(v as u8),
        None => None,
    }
}

/// Reads a dotted-decimal IPv4 address.
#[verifier::rlimit(50)]
pub fn parse_ipv4(s: &Vec<char>) -> (r: Option<Ipv4Address>)
    ensures
        r == ipv4_of(s@),
{
    let i = find_char_from(s, '.', 0);
    assert(s@.skip(0) =~= s@);
    if i >= s.len() {
        return None;
    }
    let j = find_char_from(s, '.', i + 1);
    if j >= s.len() {
        return None;
    }
    assert(s@.skip(i + 1).skip(j - i) =~= s@.skip(j + 1));
    let k = find_char_from(s, '.', j + 1);
    if k >= s.len() {
        return None;
    }
    let l = find_char_from(s, '.', k + 1);
    proof {
        let s1 = s@.skip(i + 1);
        let s2 = s1.skip(j - i);
        let s3 = s2.skip(k - j);
        assert(s@.skip(j + 1) =~= s2);
        assert(s@.skip(k + 1) =~= s3);
        assert(s@.skip(i + 1).take(j - i - 1) =~= s@.subrange(i + 1, j as int));
        assert(s2.take(k - j - 1) =~= s@.subrange(j + 1, k as int));
        assert(s3 =~= s@.subrange(k + 1, s@.len() as int));
        assert(s@.take(i as int) =~= s@.subrange(0, i as int));
    }
    if l < s.len() {
        return None;
    }
    let a = parse_octet(&slice_chars(s, 0, i));
    let b = parse_octet(&slice_chars(s, i + 1, j));
    let c = parse_octet(&slice_chars(s, j + 1, k));
    let d = parse_octet(&slice_chars(s, k + 1, s.len()));
    match (a, b, c, d) {
        (Some(a), Some(b), Some(c), Some(d)) => Some(Ipv4Address(a, b, c, d)),
        _ => None,
    }
}

/// Reads a `u32` as `str::parse::<u32>` does.
pub fn parse_u32(s: &Vec<char>) -> (r: Option<u32>)
    ensures
        r == u32_of(s@),
{
    let digits = if s.len() > 0 && s[0] == '+' {
        slice_chars(s, 1, s.len())
    } else {
        slice_chars(s, 0, s.len())
    };
    proof {
        assert(s@.subrange(0, s@.len() as int) =~= s@);
        assert(s@.len() > 0 ==> s@.subrange(1, s@.len() as int) =~= s@.drop_first());
    }
    if digits.len() == 0 {
        return None;
    }
    match parse_digits(&digits, 0xffff_ffff) {
        Some(v) => Some(v as u32),
        None => None,
    }
}

} // verus!
