use beeline::config::{Config, Host};
use beeline::forwarding::{Direction, ForwardingDimension};
use beeline::http_head::HeadError;
use beeline::http_head::field_value;
use beeline::naive::{Destination, ForwardingToken, NaiveError, Pipeline};
use beeline::table::LoadState;
use beeline::net::{IpAddress, Ipv4Address, SocketAddress};

fn addr(a: u8, port: u16) -> SocketAddress {
    SocketAddress { ip: IpAddress::V4(Ipv4Address(127, 0, 0, a)), port }
}

fn config() -> Config {
    Config {
        proxy: None,
        hosts: vec![
            Host { name: "server1".to_string(), instances: vec![addr(1, 8001), addr(2, 8002)] },
            Host { name: "server2".to_string(), instances: vec![addr(3, 8003)] },
        ],
        routes: vec![],
    }
}

fn upstream(backend: &str, port: u16) -> ForwardingToken {
    ForwardingToken {
        conn_id: ForwardingDimension::DontCare,
        direction: ForwardingDimension::Concrete(Direction::Upstream),
        backend: ForwardingDimension::Concrete(backend.to_string()),
        instance: ForwardingDimension::Concrete(port),
    }
}

fn group(backend: &str) -> ForwardingToken {
    ForwardingToken { instance: ForwardingDimension::Min, ..upstream(backend, 0) }
}

fn downstream(conn_id: u32) -> ForwardingToken {
    ForwardingToken {
        conn_id: ForwardingDimension::Concrete(conn_id),
        direction: ForwardingDimension::Concrete(Direction::Downstream),
        backend: ForwardingDimension::DontCare,
        instance: ForwardingDimension::DontCare,
    }
}

const REQUEST: &str = "GET / HTTP/1.1\r\nBackend: server1\r\n\r\n";
const RESPONSE: &str = "HTTP/1.1 200 OK\r\nsignature: server1\r\nconn-id: 40000\r\n\r\n";

#[test]
fn new_pipeline_records_first_instance_of_each_host() {
    let p = Pipeline::new(config());
    assert_eq!(p.min_instance, vec![(group("server1"), 8001), (group("server2"), 8003)]);
    assert!(p.fib.is_empty() && p.ds_state.is_empty() && p.us_state.is_empty());
}

#[test]
fn request_opens_connection_to_least_loaded_instance() {
    let mut p = Pipeline::new(config());
    let origin = addr(9, 40000);
    let mut buf = REQUEST.as_bytes().to_vec();
    let d = p.process(&mut buf, origin, true).unwrap();
    assert_eq!(d, Destination::New(addr(1, 8001), upstream("server1", 8001)));
    assert_eq!(
        String::from_utf8(buf).unwrap(),
        "GET / HTTP/1.1\r\nBackend: server1\r\nconn-id: 40000\r\n\r\n"
    );
    assert_eq!(p.ds_state, vec![(origin, LoadState { num_bytes: 1, num_reqs: 1 })]);
    assert_eq!(p.fib, vec![(downstream(40000), vec![origin])]);
}

#[test]
fn response_goes_back_and_frees_its_socket() {
    let mut p = Pipeline::new(config());
    let origin = addr(9, 40000);
    let mut buf = REQUEST.as_bytes().to_vec();
    p.process(&mut buf, origin, true).unwrap();
    p.add_sock(upstream("server1", 8001), addr(1, 8001));

    let mut res = RESPONSE.as_bytes().to_vec();
    let d = p.process(&mut res, addr(1, 8001), false).unwrap();
    assert_eq!(d, Destination::Existing(origin));
    assert_eq!(res, RESPONSE.as_bytes().to_vec());
    assert_eq!(p.us_state, vec![(addr(1, 8001), false)]);
    assert_eq!(
        p.us_load_state,
        vec![("server1".to_string(), 8001, LoadState { num_bytes: 2, num_reqs: 1 })]
    );

    // the freed socket is taken by the next request and reserved
    let mut buf = REQUEST.as_bytes().to_vec();
    let d = p.process(&mut buf, origin, true).unwrap();
    assert_eq!(d, Destination::Existing(addr(1, 8001)));
    assert_eq!(p.us_state, vec![(addr(1, 8001), true)]);

    // while it is reserved, another request opens a new connection
    let mut buf = REQUEST.as_bytes().to_vec();
    let d = p.process(&mut buf, addr(9, 40001), true).unwrap();
    assert_eq!(d, Destination::New(addr(1, 8001), upstream("server1", 8001)));
    assert_eq!(p.ds_state[0].1, LoadState { num_bytes: 2, num_reqs: 2 });
}

#[test]
fn least_loaded_instance_follows_the_counts() {
    let mut p = Pipeline::new(config());
    p.us_load_state.push(("server1".to_string(), 8001, LoadState { num_bytes: 7, num_reqs: 3 }));
    p.us_load_state.push(("server1".to_string(), 8002, LoadState { num_bytes: 5, num_reqs: 9 }));
    p.update_min_instances();
    assert_eq!(p.min_instance, vec![(group("server1"), 8002), (group("server2"), 8003)]);
    p.us_load_state[1].2.num_bytes = 7;
    p.update_min_instances();
    assert_eq!(p.min_instance[0].1, 8001);
}

#[test]
fn counters_wrap_around() {
    let mut p = Pipeline::new(config());
    let origin = addr(9, 1);
    p.ds_state.push((origin, LoadState { num_bytes: u32::MAX, num_reqs: u32::MAX }));
    p.update_ds_conn(origin, 2);
    assert_eq!(p.ds_state, vec![(origin, LoadState { num_bytes: 1, num_reqs: 0 })]);
}

#[test]
fn message_errors() {
    let mut p = Pipeline::new(config());
    let o = addr(9, 40000);
    let mut b = b"GET / HTTP/1.1\r\nBackend: server1\r\n".to_vec();
    assert_eq!(p.process(&mut b, o, true), Err(NaiveError::Head(HeadError::Partial)));
    let mut b = b"\x01\x02 nonsense\r\n\r\n".to_vec();
    assert_eq!(p.process(&mut b, o, true), Err(NaiveError::Head(HeadError::Invalid)));
    let mut b = b"GET / HTTP/1.1\r\nHost: x\r\n\r\n".to_vec();
    assert_eq!(p.process(&mut b, o, true), Err(NaiveError::NoBackend));
    let mut b = b"GET / HTTP/1.1\r\nBackend: nowhere\r\n\r\n".to_vec();
    assert_eq!(p.process(&mut b, o, true), Err(NaiveError::NoMinInstance));
    let mut b = b"HTTP/1.1 200 OK\r\nconn-id: 1\r\n\r\n".to_vec();
    assert_eq!(p.process(&mut b, addr(1, 8001), false), Err(NaiveError::NoSignature));
    let mut b = b"HTTP/1.1 200 OK\r\nsignature: \r\nconn-id: 1\r\n\r\n".to_vec();
    assert_eq!(p.process(&mut b, addr(1, 8001), false), Err(NaiveError::NoSignature));
    let mut b = b"HTTP/1.1 200 OK\r\nsignature: server1\r\n\r\n".to_vec();
    assert_eq!(p.process(&mut b, addr(1, 8001), false), Err(NaiveError::NoConnId));
    let mut b = b"HTTP/1.1 200 OK\r\nsignature: server1\r\nconn-id: x1\r\n\r\n".to_vec();
    assert_eq!(p.process(&mut b, addr(1, 8001), false), Err(NaiveError::InvalidConnId));
    let mut b = b"HTTP/1.1 200 OK\r\nsignature: server1\r\nconn-id: 7\r\n\r\n".to_vec();
    assert_eq!(p.process(&mut b, addr(1, 8001), false), Err(NaiveError::NoDownstreamSocket));
}

#[test]
fn select_sock_errors() {
    let mut p = Pipeline::new(config());
    assert_eq!(p.select_sock(&upstream("server9", 1)), Err(NaiveError::UnresolvedInstance));
    assert_eq!(p.select_sock(&upstream("server1", 9)), Err(NaiveError::UnresolvedInstance));
    assert_eq!(p.select_sock(&group("server9")), Err(NaiveError::NoMinInstance));
    p.add_sock(downstream(5), addr(9, 5));
    assert_eq!(p.select_sock(&downstream(5)), Ok(Destination::Existing(addr(9, 5))));
    p.add_sock(downstream(5), addr(9, 6));
    assert_eq!(p.fib, vec![(downstream(5), vec![addr(9, 5), addr(9, 6)])]);
    assert_eq!(p.select_sock(&downstream(5)), Err(NaiveError::AmbiguousSocket));
}

#[test]
fn forwarding_steps() {
    let mut p = Pipeline::new(config());
    let mut ft = ForwardingToken::dont_care();
    assert_eq!(p.forward_ds_conn(&mut ft, None, addr(9, 1)), Err(NaiveError::NoBackend));
    assert_eq!(ft, ForwardingToken::dont_care());
    p.forward_ds_conn(&mut ft, Some("server2"), addr(9, 1)).unwrap();
    assert_eq!(ft, group("server2"));
    let mut ft = ForwardingToken::dont_care();
    p.forward_us_conn(&mut ft, Some("+42")).unwrap();
    assert_eq!(ft.conn_id, ForwardingDimension::Concrete(42));
    assert_eq!(ft.direction, ForwardingDimension::Concrete(Direction::Downstream));
    assert_eq!(p.update_us_conn(None, addr(1, 8001), 1), Err(NaiveError::NoSignature));
}

#[test]
fn header_values_by_name() {
    let fs = vec![("backend".to_string(), "a".to_string()), ("x".to_string(), "b".to_string())];
    assert_eq!(field_value(&fs, "x"), Some("b"));
    assert_eq!(field_value(&fs, "y"), None);
}

#[test]
fn tokens_compare_by_value() {
    let t = upstream("server1", 1);
    assert!(t.same(&t.copy()));
    assert!(!t.same(&upstream("server2", 1)));
    assert!(!t.same(&group("server1")));
}
