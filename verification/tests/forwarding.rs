use std::collections::HashMap;

use beeline::config::{Config, Host};
use beeline::forwarding::{
    fib_groups, min_instance, authenticate, bearer_token_of, decide_destination, forward_ds_conn, forward_us_conn,
    resolve_preconfigured_instance_rand, select_token, signature_backend, Destination, Direction,
    ForwardingDimension, ForwardingToken, PipelineError,
};
use beeline::net::{IpAddress, Ipv4Address, SocketAddress};
use hmac::{Hmac, Mac};
use jwt::SignWithKey;
use sha2::Sha256;

fn signed_token(secret: &str) -> String {
    let key: Hmac<Sha256> = Hmac::new_from_slice(secret.as_bytes()).unwrap();
    let mut claims = HashMap::new();
    claims.insert("sub", "someone");
    claims.sign_with_key(&key).unwrap()
}

fn addr(a: u8, port: u16) -> SocketAddress {
    SocketAddress { ip: IpAddress::V4(Ipv4Address(127, 0, 0, a)), port }
}

#[test]
fn it_forwards_valid_jwt() {
    let auth = format!("Bearer {}", signed_token("testtest12345678"));
    assert_eq!(authenticate(Some(&auth)), Ok(()));
    let auth = format!("Bearer  {} \r\nbackend: server1", signed_token("testtest12345678"));
    assert_eq!(authenticate(Some(&auth)), Ok(()));
}

#[test]
fn it_drops_invalid_jwt() {
    let auth = format!("Bearer {}", signed_token("invalid_secret"));
    assert_eq!(authenticate(Some(&auth)), Err(PipelineError::InvalidToken));
    assert_eq!(authenticate(Some("Bearer not-a-token")), Err(PipelineError::InvalidToken));
    assert_eq!(authenticate(None), Err(PipelineError::NoAuthorization));
}

#[test]
fn bearer_token_is_first_line_trimmed() {
    assert_eq!(bearer_token_of("Bearer  abc.def \r\nnext"), "abc.def");
    assert_eq!(bearer_token_of("Bearer"), "");
}

#[test]
fn downstream_request_goes_to_named_backend() {
    let mut ft = ForwardingToken::dont_care();
    let back = forward_ds_conn(&mut ft, Some("server2"), 40000).unwrap();
    assert_eq!(ft.backend, ForwardingDimension::Concrete(2));
    assert_eq!(ft.instance, ForwardingDimension::Min);
    assert_eq!(ft.direction, ForwardingDimension::Concrete(Direction::Upstream));
    assert_eq!(ft.reserved, ForwardingDimension::Concrete(false));
    assert_eq!(back.conn_id, ForwardingDimension::Concrete(40000));
    assert_eq!(back.direction, ForwardingDimension::Concrete(Direction::Downstream));
}

#[test]
fn downstream_request_errors() {
    let mut ft = ForwardingToken::dont_care();
    assert_eq!(forward_ds_conn(&mut ft, None, 1), Err(PipelineError::NoBackend));
    assert_eq!(forward_ds_conn(&mut ft, Some("server9"), 1), Err(PipelineError::InvalidBackend));
    assert_eq!(ft, ForwardingToken::dont_care());
}

#[test]
fn conn_id_leads_response_back() {
    let mut ds = ForwardingToken::dont_care();
    let back = forward_ds_conn(&mut ds, Some("server1"), 51234).unwrap();
    let mut us = ForwardingToken::dont_care();
    forward_us_conn(&mut us, Some(&51234u16.to_string())).unwrap();
    assert_eq!(us, back);
}

#[test]
fn upstream_response_errors() {
    let mut ft = ForwardingToken::dont_care();
    assert_eq!(forward_us_conn(&mut ft, None), Err(PipelineError::NoConnId));
    assert_eq!(forward_us_conn(&mut ft, Some("12a")), Err(PipelineError::InvalidConnId));
    assert_eq!(ft, ForwardingToken::dont_care());
}

#[test]
fn signature_names_backend() {
    assert_eq!(signature_backend(Some("sig-3")), Ok(3));
    assert_eq!(signature_backend(Some("")), Err(PipelineError::NoSignature));
    assert_eq!(signature_backend(None), Err(PipelineError::NoSignature));
}

#[test]
fn least_loaded_instance_is_selected() {
    let mut ft = ForwardingToken::dont_care();
    forward_ds_conn(&mut ft, Some("server1"), 7).unwrap();
    let sel = select_token(&ft, Some(8081));
    assert_eq!(sel.instance, ForwardingDimension::Concrete(8081));
    assert_eq!(select_token(&ft, None), ft);
    let concrete = ForwardingToken { instance: ForwardingDimension::Concrete(1), ..ft };
    assert_eq!(select_token(&concrete, Some(9)), concrete);
}

#[test]
fn destination_is_decided() {
    let mut up = ForwardingToken::dont_care();
    forward_ds_conn(&mut up, Some("server1"), 7).unwrap();
    assert_eq!(
        decide_destination(&up, Some(addr(1, 80)), None),
        Ok(Destination::Existing(addr(1, 80)))
    );
    match decide_destination(&up, None, Some(addr(2, 8080))).unwrap() {
        Destination::New(a, t) => {
            assert_eq!(a, addr(2, 8080));
            assert_eq!(t.instance, ForwardingDimension::Concrete(8080));
            assert_eq!(t.backend, ForwardingDimension::Concrete(1));
            assert_eq!(t.conn_id, ForwardingDimension::DontCare);
        }
        Destination::Existing(_) => panic!("expected a new connection"),
    }
    assert_eq!(decide_destination(&up, None, None), Err(PipelineError::UnresolvedBackend));
    let mut down = ForwardingToken::dont_care();
    forward_us_conn(&mut down, Some("5")).unwrap();
    assert_eq!(
        decide_destination(&down, None, Some(addr(2, 1))),
        Err(PipelineError::NoDownstreamSocket)
    );
}

#[test]
fn preconfigured_instance_is_one_of_the_backend() {
    let config = Config {
        proxy: None,
        hosts: vec![
            Host { name: "server1".to_string(), instances: vec![addr(1, 8001), addr(2, 8002)] },
            Host { name: "server2".to_string(), instances: vec![] },
        ],
        routes: vec![],
    };
    for _ in 0..20 {
        let a = resolve_preconfigured_instance_rand(&config, 1).unwrap();
        assert!(a == addr(1, 8001) || a == addr(2, 8002));
    }
    assert_eq!(resolve_preconfigured_instance_rand(&config, 2), None);
    assert_eq!(resolve_preconfigured_instance_rand(&config, 3), None);
}

fn upstream(backend: u8, instance: u16) -> ForwardingToken {
    ForwardingToken {
        reserved: ForwardingDimension::Concrete(false),
        conn_id: ForwardingDimension::DontCare,
        direction: ForwardingDimension::Concrete(Direction::Upstream),
        backend: ForwardingDimension::Concrete(backend),
        instance: ForwardingDimension::Concrete(instance),
    }
}

#[test]
fn least_loaded_instance_of_a_group() {
    let fib = vec![
        (upstream(1, 8001), addr(1, 8001)),
        (upstream(1, 8002), addr(2, 8002)),
        (upstream(1, 8003), addr(3, 8003)),
        (upstream(2, 9001), addr(4, 9001)),
    ];
    let groups = fib_groups(&fib);
    assert_eq!(groups.len(), 2);
    let g1 = ForwardingToken { instance: ForwardingDimension::Min, ..upstream(1, 0) };
    assert_eq!(groups[0], g1);
    let loads = vec![(1, 8001, 500), (1, 8002, 100), (1, 8003, 100), (2, 9001, 7)];
    assert_eq!(min_instance(&fib, &g1, &vec![], &loads), Some(8002));
    assert_eq!(min_instance(&fib, &g1, &vec![addr(2, 8002)], &loads), Some(8003));
    assert_eq!(min_instance(&fib, &g1, &vec![], &vec![(1, 8001, 3)]), Some(8001));
    let all = vec![addr(1, 8001), addr(2, 8002), addr(3, 8003)];
    assert_eq!(min_instance(&fib, &g1, &all, &loads), None);
    let mut down = ForwardingToken::dont_care();
    forward_us_conn(&mut down, Some("1")).unwrap();
    assert!(fib_groups(&vec![(down, addr(9, 1))]).is_empty());
}
