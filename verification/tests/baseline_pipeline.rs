use std::collections::HashMap;

use beeline::baseline::Pipeline;
use beeline::config::{Config, Host};
use beeline::forwarding::{Destination, Direction, ForwardingDimension, ForwardingToken, PipelineError};
use beeline::http_head::HeadError;
use beeline::net::{IpAddress, Ipv4Address, SocketAddress};
use beeline::table::LoadState;
use hmac::{Hmac, Mac};
use jwt::SignWithKey;
use sha2::Sha256;

fn signed_token(secret: &str) -> String {
    let key: Hmac<Sha256> = Hmac::new_from_slice(secret.as_bytes()).unwrap();
    let mut claims = HashMap::new();
    claims.insert("sub", "someone");
    claims.sign_with_key(&key).unwrap()
}

fn addr(a: u8, port: u16) -> SocketAddress {
    SocketAddress { ip: IpAddress::V4(Ipv4Address(127, 0, 0, a)), port }
}

fn config() -> Config {
    Config {
        proxy: None,
        hosts: vec![
            Host { name: "server1".to_string(), instances: vec![addr(1, 8001), addr(2, 8002)] },
            Host { name: "server2".to_string(), instances: vec![addr(3, 8003)] },
        ],
        routes: vec![],
    }
}

fn request(backend: &str, secret: &str) -> Vec<u8> {
    format!(
        "GET / HTTP/1.1\r\nAuthorization: Bearer {}\r\nBackend: {}\r\n\r\n",
        signed_token(secret),
        backend
    )
    .into_bytes()
}

fn upstream(backend: u8, port: u16) -> ForwardingToken {
    ForwardingToken {
        reserved: ForwardingDimension::Concrete(false),
        conn_id: ForwardingDimension::DontCare,
        direction: ForwardingDimension::Concrete(Direction::Upstream),
        backend: ForwardingDimension::Concrete(backend),
        instance: ForwardingDimension::Concrete(port),
    }
}

const SECRET: &str = "testtest12345678";
const RESPONSE: &str = "HTTP/1.1 200 OK\r\nsignature: server1\r\nconn-id: 40000\r\n\r\n";

#[test]
fn baseline_request_response_round_trip() {
    let mut p = Pipeline::new(config());
    let origin = addr(9, 40000);
    let mut buf = request("server1", SECRET);
    let d = p.process(&mut buf, origin, true).unwrap();
    let (inst, token) = match d {
        Destination::New(a, t) => (a, t),
        other => panic!("unexpected {:?}", other),
    };
    assert!(inst == addr(1, 8001) || inst == addr(2, 8002));
    assert_eq!(token, upstream(1, inst.port));
    let text = String::from_utf8(buf).unwrap();
    assert!(text.ends_with("Backend: server1\r\nconn-id: 40000\r\n\r\n"));
    assert_eq!(p.ds_state, vec![(origin, LoadState { num_bytes: 2, num_reqs: 1 })]);

    let local = addr(5, 50000);
    p.add_sock(upstream(1, 8001), local);
    let mut res = RESPONSE.as_bytes().to_vec();
    assert_eq!(p.process(&mut res, local, false), Ok(Destination::Existing(origin)));
    assert_eq!(p.us_state, vec![(local, false)]);
    assert_eq!(p.us_load_state, vec![((1, 50000), LoadState { num_bytes: 2, num_reqs: 1 })]);

    // the least loaded instance of the group is found, and the next request
    // takes its socket and reserves it
    p.update_min_instances();
    let group = ForwardingToken { instance: ForwardingDimension::Min, ..upstream(1, 0) };
    assert_eq!(p.min_instance, vec![(group, 8001)]);
    let mut buf = request("server1", SECRET);
    assert_eq!(p.process(&mut buf, origin, true), Ok(Destination::Existing(local)));
    assert_eq!(p.us_state, vec![(local, true)]);

    // with its only socket reserved, the group keeps what was recorded
    p.update_min_instances();
    assert_eq!(p.min_instance, vec![(group, 8001)]);
}

#[test]
fn baseline_least_loaded_of_two() {
    let mut p = Pipeline::new(config());
    p.add_sock(upstream(1, 8001), addr(5, 1));
    p.add_sock(upstream(1, 8002), addr(5, 2));
    p.us_load_state.push(((1, 8001), LoadState { num_bytes: 9, num_reqs: 1 }));
    p.us_load_state.push(((1, 8002), LoadState { num_bytes: 4, num_reqs: 1 }));
    p.update_min_instances();
    let group = ForwardingToken { instance: ForwardingDimension::Min, ..upstream(1, 0) };
    assert_eq!(p.min_instance, vec![(group, 8002)]);
    p.us_state.push((addr(5, 2), true));
    p.update_min_instances();
    assert_eq!(p.min_instance, vec![(group, 8001)]);
}

#[test]
fn baseline_request_errors() {
    let mut p = Pipeline::new(config());
    let o = addr(9, 1);
    let mut b = b"GET / HTTP/1.1\r\nBackend: server1\r\n\r\n".to_vec();
    assert_eq!(p.process(&mut b, o, true), Err(PipelineError::NoAuthorization));
    let mut b = b"GET / HTTP/1.1\r\nAuthorization: Basic abc\r\n\r\n".to_vec();
    assert_eq!(p.process(&mut b, o, true), Err(PipelineError::NoBearer));
    let mut b = request("server1", "invalid_secret");
    assert_eq!(p.process(&mut b, o, true), Err(PipelineError::InvalidToken));
    assert!(p.ds_state.is_empty());
    let mut b = format!("GET / HTTP/1.1\r\nAuthorization: Bearer {}\r\n\r\n", signed_token(SECRET)).into_bytes();
    assert_eq!(p.process(&mut b, o, true), Err(PipelineError::NoBackend));
    let mut b = request("server9", SECRET);
    assert_eq!(p.process(&mut b, o, true), Err(PipelineError::InvalidBackend));
    let mut b = request("server3", SECRET);
    assert_eq!(p.process(&mut b, o, true), Err(PipelineError::UnresolvedBackend));
    let mut b = b"GET / HTTP/1.1\r\n".to_vec();
    assert_eq!(p.process(&mut b, o, true), Err(PipelineError::Head(HeadError::Partial)));
}

#[test]
fn baseline_response_errors() {
    let mut p = Pipeline::new(config());
    let o = addr(5, 1);
    let mut b = b"HTTP/1.1 200 OK\r\nconn-id: 1\r\n\r\n".to_vec();
    assert_eq!(p.process(&mut b, o, false), Err(PipelineError::NoSignature));
    let mut b = b"HTTP/1.1 200 OK\r\nsignature: serverX\r\nconn-id: 1\r\n\r\n".to_vec();
    assert_eq!(p.process(&mut b, o, false), Err(PipelineError::InvalidSignature));
    let mut b = b"HTTP/1.1 200 OK\r\nsignature: server2\r\n\r\n".to_vec();
    assert_eq!(p.process(&mut b, o, false), Err(PipelineError::NoConnId));
    let mut b = b"HTTP/1.1 200 OK\r\nsignature: server2\r\nconn-id: a\r\n\r\n".to_vec();
    assert_eq!(p.process(&mut b, o, false), Err(PipelineError::InvalidConnId));
    let mut b = b"HTTP/1.1 200 OK\r\nsignature: server2\r\nconn-id: 7\r\n\r\n".to_vec();
    assert_eq!(p.process(&mut b, o, false), Err(PipelineError::NoDownstreamSocket));
    assert_eq!(p.update_us_conn(None, o, 1), Err(PipelineError::NoSignature));
}
