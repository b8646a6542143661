use beeline::compiler::sanitize_var_name;
use beeline::ipv6::{parse_endpoint_ip, parse_ipv6};
use beeline::config::beeline::{Cidr, CidrParseRangeError};
use beeline::net::{
    get_gw_ip, octets_u32, parse_ipv4, parse_octet, parse_u32, ByteOrder, IpAddress, Ipv4Address,
    NetError, SocketAddress, TryIntoRawOctets,
};
use beeline::text::{
    eq_ignore_ascii_case, join_strings, replace_str, to_lowercase, utf8_len,
};

fn chars(s: &str) -> Vec<char> {
    s.chars().collect()
}

#[test]
fn cidr_reads_address_and_prefix() {
    let c = Cidr::from_str("10.0.1.0/24").unwrap();
    assert_eq!(c.addr, Ipv4Address(10, 0, 1, 0));
    assert_eq!(c.mask, 24);
    assert_eq!(c.len(), 256);
}

#[test]
fn cidr_text_reads_back() {
    let c = Cidr { addr: Ipv4Address(192, 168, 0, 255), mask: 16 };
    let t = c.to_text();
    assert_eq!(t, "192.168.0.255/16");
    assert_eq!(Cidr::from_str(&t), Ok(c));
}

#[test]
fn cidr_rejects_malformed_text() {
    assert_eq!(Cidr::from_str("10.0.1.0"), Err(CidrParseRangeError));
    assert_eq!(Cidr::from_str("10.0.1/24"), Err(CidrParseRangeError));
    assert_eq!(Cidr::from_str("10.0.1.0/24/1"), Err(CidrParseRangeError));
    assert_eq!(Cidr::from_str("10.0.1.256/24"), Err(CidrParseRangeError));
    assert_eq!(Cidr::from_str("10.0.01.0/24"), Err(CidrParseRangeError));
    assert_eq!(Cidr::from_str("10.0.1.0/x"), Err(CidrParseRangeError));
    assert_eq!(CidrParseRangeError.to_text(), "Invalid CIDR range");
}

#[test]
fn cidr_len_of_prefixes() {
    assert_eq!(Cidr { addr: Ipv4Address(0, 0, 0, 0), mask: 32 }.len(), 1);
    assert_eq!(Cidr { addr: Ipv4Address(0, 0, 0, 0), mask: 1 }.len(), 0x8000_0000);
}

#[test]
fn octets_and_addresses_parse() {
    assert_eq!(parse_octet(&chars("0")), Some(0));
    assert_eq!(parse_octet(&chars("255")), Some(255));
    assert_eq!(parse_octet(&chars("256")), None);
    assert_eq!(parse_octet(&chars("07")), None);
    assert_eq!(parse_octet(&chars("")), None);
    assert_eq!(parse_ipv4(&chars("127.0.0.1")), Some(Ipv4Address(127, 0, 0, 1)));
    assert_eq!(parse_ipv4(&chars("1.2.3")), None);
    assert_eq!(parse_ipv4(&chars("1.2.3.4.5")), None);
    assert_eq!(parse_u32(&chars("4294967295")), Some(u32::MAX));
    assert_eq!(parse_u32(&chars("+7")), Some(7));
    assert_eq!(parse_u32(&chars("4294967296")), None);
    assert_eq!(parse_u32(&chars("-1")), None);
}

#[test]
fn gateway_is_first_host_of_the_network() {
    assert_eq!(get_gw_ip(Ipv4Address(172, 18, 0, 7)), Ipv4Address(172, 18, 0, 1));
    assert_eq!(get_gw_ip(Ipv4Address(127, 0, 0, 5)), Ipv4Address(127, 0, 0, 5));
    let g = get_gw_ip(Ipv4Address(10, 1, 2, 3));
    assert_eq!(get_gw_ip(g), g);
}

#[test]
fn octets_pack_in_either_order() {
    let ip = Ipv4Address(1, 2, 3, 4);
    assert_eq!(octets_u32(ip, ByteOrder::Little), 0x0403_0201);
    assert_eq!(octets_u32(ip, ByteOrder::Big), 0x0102_0304);
    let ne = ip.try_into_ne_octets().unwrap();
    assert_eq!(ne, u32::from_ne_bytes([1, 2, 3, 4]));
    let v6 = SocketAddress { ip: IpAddress::V6(1), port: 80 };
    assert_eq!(v6.try_into_ne_octets(), Err(NetError::NotIpv4));
}

#[test]
fn text_helpers() {
    assert!(eq_ignore_ascii_case("Proxy", "pROXY"));
    assert!(!eq_ignore_ascii_case("proxy", "proxi"));
    assert_eq!(replace_str("a-b-c", "-", "_"), "a_b_c");
    assert_eq!(replace_str("aaa", "aa", "b"), "ba");
    assert_eq!(to_lowercase("ÄbC"), "äbc");
    assert_eq!(utf8_len("aé"), 3);
    let v = vec!["x".to_string(), "y".to_string(), "z".to_string()];
    assert_eq!(join_strings(&v, ", "), "x, y, z");
}

#[test]
fn variable_names_are_sanitized() {
    assert_eq!(sanitize_var_name("Content-Length"), "content_length");
    assert_eq!(sanitize_var_name("X-ÜBER"), "x_über");
}

#[test]
fn ipv6_text_is_read() {
    use_ipv6_cases();
}

fn use_ipv6_cases() {
    let ok: Vec<(&str, u128)> = vec![
        ("::", 0),
        ("::1", 1),
        ("1::", 1u128 << 112),
        ("1:2:3:4:5:6:7:8", 0x0001_0002_0003_0004_0005_0006_0007_0008),
        ("::ffff:1.2.3.4", 0xffff_0102_0304),
        ("1:2:3:4:5:6:1.2.3.4", 0x0001_0002_0003_0004_0005_0006_0102_0304),
        ("FE80::aB", (0xfe80u128 << 112) | 0xab),
        ("1::2:3", (1u128 << 112) | (2 << 16) | 3),
        ("1:2:3:4:5:6:7::", 0x0001_0002_0003_0004_0005_0006_0007_0000),
    ];
    for (text, v) in ok {
        assert_eq!(parse_ipv6(&chars(text)), Some(v), "{text}");
    }
    for bad in ["", ":", "1:::2", "12345::", "1:2:3:4:5:6:7:8:9", "1:2", "1.2.3.4::", "::1::2", "1:2:3:4:5:6:7:1.2.3.4", "::01.2.3.4", "g::"] {
        assert_eq!(parse_ipv6(&chars(bad)), None, "{bad}");
    }
    assert_eq!(parse_endpoint_ip(&chars("10.0.0.1")), Some(IpAddress::V4(Ipv4Address(10, 0, 0, 1))));
    assert_eq!(parse_endpoint_ip(&chars("[::1]")), Some(IpAddress::V6(1)));
    assert_eq!(parse_endpoint_ip(&chars("[::1%25]")), Some(IpAddress::V6(1)));
    assert_eq!(parse_endpoint_ip(&chars("[::1%]")), None);
    assert_eq!(parse_endpoint_ip(&chars("[::1%x]")), None);
    assert_eq!(parse_endpoint_ip(&chars("::1")), None);
    assert_eq!(parse_endpoint_ip(&chars("[10.0.0.1]")), None);
}
