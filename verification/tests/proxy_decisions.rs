use beeline::downstream::{fib_removal_key, grpc_error_reply, h2_conn_mark,
    after_lookup, fib_entry, h1_step, h1_upstream_key, h2_stream_entries, h2_upstream_key,
    sock_map_flag, upstream_bind_addr, wait_keys, DataStream, H1Step, WaitStep,
    H1_ERROR_RESPONSE,
};
use beeline::lb_router::{backend_index, conn_step, leave_backend, ClientRoute, ConnStep, LbRouter, Leave};
use beeline::net::{ByteOrder, IpAddress, Ipv4Address, SocketAddress};
use beeline::upstream::{AddrKey, SockKey};

fn v4(a: u8, b: u8, c: u8, d: u8, port: u16) -> SocketAddress {
    SocketAddress { ip: IpAddress::V4(Ipv4Address(a, b, c, d)), port }
}

fn key(a: u8, b: u8, c: u8, d: u8, port: u16) -> AddrKey {
    AddrKey { ip4: u32::from_be_bytes([a, b, c, d]), port: port as u32 }
}

#[test]
fn h1_handler_waits_for_whole_requests() {
    let req = b"POST /x HTTP/1.1\r\ncontent-length: 3\r\n\r\nabcGET";
    assert_eq!(h1_step(req), H1Step::Forward(req.len() - 3));
    assert_eq!(h1_step(&req[..20]), H1Step::ReadMore);
    assert_eq!(h1_step(&req[..req.len() - 4]), H1Step::ReadMore);
    assert_eq!(h1_step(b"\x00bad\r\n\r\n"), H1Step::Reject);
    assert!(H1_ERROR_RESPONSE.starts_with("HTTP/1.1 500 "));
}

#[test]
fn wait_list_is_searched_directly_then_through_the_gateway() {
    let local = v4(172, 18, 0, 5, 8000);
    let remote = v4(172, 18, 0, 9, 40000);
    let (direct, through) = wait_keys(&local, &remote, 0, ByteOrder::Big);
    assert_eq!(
        direct,
        DataStream { conn: SockKey { local: key(172, 18, 0, 9, 40000), remote: key(172, 18, 0, 5, 8000) }, stream_id: 0 }
    );
    assert_eq!(through.conn.local, key(172, 18, 0, 1, 40000));
    assert_eq!(through.conn.remote, key(172, 18, 0, 5, 8000));
    let up = key(10, 0, 0, 2, 8080);
    assert_eq!(after_lookup(direct, Some(up), Some(through)), WaitStep::Found(direct.conn, up));
    assert_eq!(after_lookup(direct, None, Some(through)), WaitStep::LookUp(through));
    assert_eq!(after_lookup(through, Some(up), None), WaitStep::Found(through.conn, up));
    assert_eq!(after_lookup(through, None, None), WaitStep::Missing);
}

#[test]
fn upstream_connections_are_announced() {
    let remote = v4(10, 0, 1, 7, 8080);
    let bind = upstream_bind_addr(&remote);
    assert_eq!(bind, v4(10, 0, 1, 1, 0));
    let local = v4(10, 0, 1, 1, 51000);
    for tls in [false, true] {
        let k1 = h1_upstream_key(&local, &remote, tls, ByteOrder::Little);
        let k2 = h2_upstream_key(&local, &remote, tls, ByteOrder::Little);
        assert_eq!(k1, k2);
    }
    let plain = h1_upstream_key(&local, &remote, false, ByteOrder::Big);
    assert_eq!(plain.local, key(10, 0, 1, 7, 8080));
    assert_eq!(sock_map_flag(false), 1);
    assert_eq!(sock_map_flag(true), 0);
    let ds = SockKey { local: key(1, 2, 3, 4, 5), remote: key(5, 6, 7, 8, 9) };
    assert_eq!(fib_entry(&local, ds, ByteOrder::Big), (key(10, 0, 1, 1, 51000), ds));
}

#[test]
fn http2_streams_are_mapped_both_ways() {
    let ds_local = v4(172, 18, 0, 5, 8000);
    let ds_remote = v4(172, 18, 0, 9, 40000);
    let us = SockKey { local: key(10, 0, 0, 2, 80), remote: key(10, 0, 0, 1, 5000) };
    let (fwd, back) = h2_stream_entries(&ds_local, &ds_remote, 7, us, ByteOrder::Big);
    assert_eq!(fwd.0.stream_id, 7);
    assert_eq!(fwd.0.conn.local, key(172, 18, 0, 9, 40000));
    assert_eq!(fwd.1, DataStream { conn: us, stream_id: 1 });
    assert_eq!(back, (fwd.1, fwd.0));
}

fn router() -> LbRouter {
    LbRouter::new(vec![
        ("/a".to_string(), "127.0.0.1:9001".to_string()),
        ("/b".to_string(), "127.0.0.1:9002".to_string()),
    ])
}

#[test]
fn requests_are_routed_by_url() {
    let mut r = router();
    assert_eq!(r.read_client_req(5, b"GET /c HTTP/1.1\r\n\r\n"), ClientRoute::Drop);
    assert_eq!(r.read_client_req(5, b"GET /a HTTP/1.1\r\n\r\n"), ClientRoute::Connect(0));
    r.connected(5, 6, "127.0.0.1:9001".to_string());
    assert!(r.is_backend(6));
    assert!(!r.is_backend(5));
    assert_eq!(r.backend_route(6), Some(5));
    assert_eq!(r.read_client_req(5, b"GET /a HTTP/1.1\r\n\r\n"), ClientRoute::Write(6));
    assert_eq!(r.read_client_req(5, b"body bytes"), ClientRoute::Write(6));
    assert_eq!(r.read_client_req(9, b"body bytes"), ClientRoute::Drop);
}

#[test]
fn idle_connections_are_reused() {
    let mut r = router();
    assert_eq!(r.read_client_req(5, b"GET /a HTTP/1.1\r\n\r\n"), ClientRoute::Connect(0));
    r.connected(5, 6, "127.0.0.1:9001".to_string());
    // switching to /b returns the connection to /a's pool
    assert_eq!(r.read_client_req(5, b"GET /b HTTP/1.1\r\n\r\n"), ClientRoute::Connect(1));
    assert_eq!(r.pool[0], vec![6]);
    assert_eq!(r.backend_route(6), None);
    r.connected(5, 7, "127.0.0.1:9002".to_string());
    // another client asking for /a gets the idle connection
    assert_eq!(r.route_client(8, Some("/a")), ClientRoute::Write(6));
    assert!(r.pool[0].is_empty());
    assert_eq!(r.backend_route(6), Some(8));
}

#[test]
fn unknown_peer_is_reported() {
    let mut r = router();
    assert_eq!(r.route_client(5, Some("/a")), ClientRoute::Connect(0));
    r.connected(5, 6, "10.9.9.9:1".to_string());
    assert_eq!(r.route_client(5, Some("/b")), ClientRoute::UnknownPeer);
}


#[test]
fn connection_steps_of_the_multi_threaded_balancer() {
    let backends = vec![
        ("/a".to_string(), "127.0.0.1:9001".to_string()),
        ("/b".to_string(), "127.0.0.1:9002".to_string()),
    ];
    assert_eq!(conn_step(&backends, None, None), ConnStep::Drop);
    assert_eq!(conn_step(&backends, None, Some("127.0.0.1:9001")), ConnStep::Write);
    assert_eq!(conn_step(&backends, Some("/c"), Some("127.0.0.1:9001")), ConnStep::Drop);
    assert_eq!(conn_step(&backends, Some("/a"), Some("127.0.0.1:9001")), ConnStep::Write);
    assert_eq!(conn_step(&backends, Some("/b"), Some("127.0.0.1:9001")), ConnStep::Switch(1));
    assert_eq!(conn_step(&backends, Some("/a"), None), ConnStep::Switch(0));
    assert_eq!(backend_index(&backends, "127.0.0.1:9002", false), Some(1));
    assert_eq!(backend_index(&backends, "/b", true), Some(1));
    assert_eq!(backend_index(&backends, "/b", false), None);
}

#[test]
fn h2_handler_marks_removes_and_answers_errors() {
    let local = v4(10, 0, 0, 1, 40000);
    let key = fib_removal_key(&local, ByteOrder::Big);
    assert_eq!(key, AddrKey { ip4: u32::from_be_bytes([10, 0, 0, 1]), port: 40000 });
    let (added, _) = fib_entry(&local, SockKey { local: key, remote: key }, ByteOrder::Big);
    assert_eq!(added, key);
    let us = SockKey { local: key, remote: AddrKey { ip4: 7, port: 80 } };
    assert_eq!(h2_conn_mark(us), (us, 1));
    let e = grpc_error_reply();
    assert_eq!(e.status, 200);
    assert_eq!(e.headers, vec![("content-type".to_string(), "application/grpc".to_string())]);
    assert_eq!(
        e.trailers,
        vec![
            ("grpc-status".to_string(), "2".to_string()),
            ("grpc-message".to_string(), "Failed to connect to upstream".to_string()),
        ]
    );
}

#[test]
fn left_backend_is_cancelled_or_dropped() {
    let reads = vec![(3usize, 10i32), (5, 11), (8, 11)];
    assert_eq!(leave_backend(&reads, 11), Leave::CancelRead(5));
    assert_eq!(leave_backend(&reads, 12), Leave::Drop);
    assert_eq!(leave_backend(&vec![], 11), Leave::Drop);
}
