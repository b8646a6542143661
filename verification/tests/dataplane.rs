use beeline::config::beeline::{Cidr, Config, Host, Pattern, Route};
use beeline::dataplane::{fib_queue_keys, init_dataplane, network_range, InitError};
use beeline::net::{ByteOrder, NetError};
use beeline::upstream::AddrKey;
use beeline::net::{IpAddress, Ipv4Address, SocketAddress};
use beeline::transition::{Rodata, Trans};

fn rodata() -> Rodata {
    Rodata { a_start_capture: 0x100, a_end_capture: 0x200, a_done: 0x400, a_id_mask: 0xff }
}

fn config(headers: Vec<(String, String)>, network: Option<Cidr>) -> Config {
    Config {
        socket: None,
        tls: None,
        proxy: None,
        stats: false,
        hosts: vec![Host {
            name: "server1".to_string(),
            load_balancer: None,
            instances: vec![SocketAddress { ip: IpAddress::V4(Ipv4Address(10, 0, 0, 2)), port: 80 }],
        }],
        network,
        policies: vec![],
        routes: vec![Route {
            pattern: Pattern { path: Some("/".to_string()), headers: Some(headers) },
            dest: "server1".to_string(),
            filters: vec![],
        }],
    }
}

#[test]
fn dataplane_tables_hold_the_parsers() {
    let c = config(vec![("host".to_string(), "a".to_string())], None);
    let init = init_dataplane(&c, 0, 1, &rodata(), ByteOrder::Big).unwrap();
    assert!(init.h1.iter().any(|e| e.0 == 1 && e.1 == '\r'));
    assert!(init.h1.iter().any(|e| e.2.action == 0x400));
    assert!(init.h1.iter().any(|e| e.2.action & 0x100 == 0x100));
    assert!(!init.h2.is_empty());
    assert!(init.h2.iter().any(|e| e.2.action & 0x100 == 0x100));
    assert!(init.network.is_none());
    let mut states: Vec<u16> = init.h1.iter().map(|e| e.0).collect();
    states.sort();
    states.dedup();
    assert!(states.contains(&0) && states.contains(&1));
}

#[test]
fn dataplane_network_range() {
    let net = Cidr { addr: Ipv4Address(10, 0, 0, 0), mask: 24 };
    let c = config(vec![], Some(net));
    let init = init_dataplane(&c, 0, 1, &rodata(), ByteOrder::Big).unwrap();
    let (start, end, gw) = init.network.unwrap();
    assert_eq!(start, u32::from_be_bytes([10, 0, 0, 0]));
    assert_eq!(end, start + 256);
    assert_eq!(gw, u32::from_be_bytes([10, 0, 0, 1]));
    let full = Cidr { addr: Ipv4Address(255, 255, 255, 255), mask: 24 };
    let c = config(vec![], Some(full));
    assert_eq!(init_dataplane(&c, 0, 1, &rodata(), ByteOrder::Big).err(), Some(InitError::NetworkRange));
}

#[test]
fn accelerated_network_range() {
    let net = Cidr { addr: Ipv4Address(192, 168, 1, 0), mask: 30 };
    let (start, end, gw) = network_range(&net, ByteOrder::Big).unwrap();
    assert_eq!(start, u32::from_be_bytes([192, 168, 1, 0]));
    assert_eq!(end, start + 4);
    assert_eq!(gw, u32::from_be_bytes([192, 168, 1, 1]));
    let top = Cidr { addr: Ipv4Address(255, 255, 255, 255), mask: 32 };
    assert_eq!(network_range(&top, ByteOrder::Big), Err(InitError::NetworkRange));
    let (start, _, gw) = network_range(&net, ByteOrder::Little).unwrap();
    assert_eq!(start, u32::from_le_bytes([192, 168, 1, 0]));
    assert_eq!(gw, u32::from_le_bytes([192, 168, 1, 1]));
}

#[test]
fn dataplane_refuses_too_many_patterns() {
    let headers: Vec<(String, String)> =
        (0..14).map(|i| (format!("x-h{i}"), "v".to_string())).collect();
    let c = config(headers, None);
    assert_eq!(init_dataplane(&c, 0, 1, &rodata(), ByteOrder::Big).err(), Some(InitError::TooManyPatterns));
    let t = Trans { state: 1, action: 0 };
    assert_eq!(t, Trans { state: 1, action: 0 });
}

#[test]
fn fib_queues_for_instances_proxy_and_tls() {
    let mut c = config(vec![], None);
    c.proxy = Some(SocketAddress { ip: IpAddress::V4(Ipv4Address(10, 0, 0, 9)), port: 9 });
    c.tls = Some(SocketAddress { ip: IpAddress::V4(Ipv4Address(10, 0, 0, 7)), port: 443 });
    let (keys, err) = fib_queue_keys(&c, ByteOrder::Big);
    assert_eq!(err, None);
    let k = |a: u8, port: u32| AddrKey { ip4: u32::from_be_bytes([10, 0, 0, a]), port };
    assert_eq!(
        keys,
        vec![(k(2, 80), 0), (k(2, 80), 1), (k(9, 9), 0), (k(9, 9), 1), (k(7, 443), 0), (k(7, 443), 1)]
    );
    c.proxy = Some(SocketAddress { ip: IpAddress::V6(1), port: 9 });
    // queues were added for the addresses before the one that is not IPv4
    assert_eq!(
        fib_queue_keys(&c, ByteOrder::Big),
        (vec![(k(2, 80), 0), (k(2, 80), 1)], Some(NetError::NotIpv4))
    );
}
