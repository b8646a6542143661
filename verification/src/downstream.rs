//! The decisions of the proxy's handlers of downstream connections: when a
//! request has arrived, where to find the upstream that the data plane
//! chose for it, and under which keys the new upstream connection is
//! announced to the data plane. The handlers perform the reads, lookups,
//! connects and map updates; these functions decide between them.

use crate::config::pairs_view;
use crate::http_head::{h1_request_progress, request_progress_of, Progress};
use crate::net::{gateway_of, get_gw_ip, ByteOrder, IpAddress, SocketAddress};
use crate::upstream::{addr_key_of, AddrKey, SockKey};
use vstd::prelude::*;

verus! {

/// What the HTTP/1.1 handler answers a request it cannot forward.
pub const H1_ERROR_RESPONSE: &'static str = "HTTP/1.1 500 Internal Server Error\r\ncontent-length: 0\r\n\r\n";

/// A stream of a connection; an HTTP/1.1 connection has the one stream 0.
#[derive(Clone, Copy, Debug, PartialEq, Eq, Structural)]
pub struct DataStream {
    pub conn: SockKey,
    pub stream_id: u32,
}

/// What the HTTP/1.1 handler does with the bytes that have arrived on a
/// downstream connection.
#[derive(Clone, Copy, Debug, PartialEq, Eq, Structural)]
pub enum H1Step {
    /// Wait for more bytes.
    ReadMore,
    /// Drop the bytes and answer with `H1_ERROR_RESPONSE`.
    Reject,
    /// Forward the first `n` bytes, a whole request.
    Forward(usize),
}

/// The step for a request that has arrived this far. A request that
/// announces more bytes than any buffer holds is rejected.
pub open spec fn h1_step_of(p: Progress) -> H1Step {
    match p {
        Progress::Invalid => H1Step::Reject,
        Progress::TooLarge => H1Step::Reject,
        Progress::Partial => H1Step::ReadMore,
        Progress::Incomplete(_) => H1Step::ReadMore,
        Progress::Complete(n) => H1Step::Forward(n),
    }
}

/// The step of the HTTP/1.1 handler for the bytes in `buf`.
pub fn h1_step(buf: &[u8]) -> (r: H1Step)
    ensures
        r == h1_step_of(request_progress_of(buf@)),
{
    match h1_request_progress(buf) {
        Progress::Invalid => H1Step::Reject,
        Progress::TooLarge => H1Step::Reject,
        Progress::Partial => H1Step::ReadMore,
        Progress::Incomplete(_) => H1Step::ReadMore,
        Progress::Complete(n) => H1Step::Forward(n),
    }
}

/// The key of an IPv4 address.
pub open spec fn v4_key(a: SocketAddress, order: ByteOrder) -> AddrKey {
    addr_key_of(a, order)->Ok_0
}

/// The key of the connection from `local` to `remote`.
pub open spec fn conn_key(local: SocketAddress, remote: SocketAddress, order: ByteOrder) -> SockKey {
    SockKey { local: v4_key(local, order), remote: v4_key(remote, order) }
}

/// `remote`'s port at the gateway of `local`'s network: where a connection
/// that came through the gateway appears to come from.
pub open spec fn via_gateway(local: SocketAddress, remote: SocketAddress) -> SocketAddress {
    SocketAddress { ip: IpAddress::V4(gateway_of(local.ip->V4_0)), port: remote.port }
}

fn key_of(a: &SocketAddress, order: ByteOrder) -> (r: AddrKey)
    requires
        a.ip is V4,
    ensures
        r == v4_key(*a, order),
{
    match AddrKey::try_from_addr(a, order) {
        Ok(k) => k,
        Err(_) => AddrKey { ip4: 0, port: 0 },
    }
}

fn conn_key_of(local: &SocketAddress, remote: &SocketAddress, order: ByteOrder) -> (r: SockKey)
    requires
        local.ip is V4,
        remote.ip is V4,
    ensures
        r == conn_key(*local, *remote, order),
{
    SockKey { local: key_of(local, order), remote: key_of(remote, order) }
}

/// The keys under which the data plane leaves the upstream it chose for
/// stream `stream_id` of the downstream connection from `ds_remote` to
/// `ds_local`: the connection as it is, then as it appears through the
/// gateway.
pub fn wait_keys(ds_local: &SocketAddress, ds_remote: &SocketAddress, stream_id: u32, order: ByteOrder) -> (r: (
    DataStream,
    DataStream,
))
    requires
        ds_local.ip is V4,
        ds_remote.ip is V4,
    ensures
        r.0 == (DataStream { conn: conn_key(*ds_remote, *ds_local, order), stream_id }),
        r.1 == (DataStream {
            conn: conn_key(via_gateway(*ds_local, *ds_remote), *ds_local, order),
            stream_id,
        }),
{
    let direct = DataStream { conn: conn_key_of(ds_remote, ds_local, order), stream_id };
    let gw = match ds_local.ip {
        IpAddress::V4(ip) => get_gw_ip(ip),
        IpAddress::V6(_) => crate::net::Ipv4Address(0, 0, 0, 0),
    };
    let via = SocketAddress { ip: IpAddress::V4(gw), port: ds_remote.port };
    let through = DataStream { conn: conn_key_of(&via, ds_local, order), stream_id };
    (direct, through)
}

/// The next step of looking for the upstream of a stream.
#[derive(Clone, Copy, Debug, PartialEq, Eq, Structural)]
pub enum WaitStep {
    /// The upstream, found under the given downstream connection.
    Found(SockKey, AddrKey),
    /// Look this key up next.
    LookUp(DataStream),
    /// The data plane left no upstream for the stream.
    Missing,
}

/// The step after looking `key` up in the wait list and finding `found`:
/// the upstream found, with the connection it was found under; else the
/// key to look up next, if one is left.
pub fn after_lookup(key: DataStream, found: Option<AddrKey>, next: Option<DataStream>) -> (r: WaitStep)
    ensures
        r == (match found {
            Some(a) => WaitStep::Found(key.conn, a),
            None => match next {
                Some(n) => WaitStep::LookUp(n),
                None => WaitStep::Missing,
            },
        }),
{
    match found {
        Some(a) => WaitStep::Found(key.conn, a),
        None => match next {
            Some(n) => WaitStep::LookUp(n),
            None => WaitStep::Missing,
        },
    }
}

/// Where the socket of a new upstream connection to `us_remote` binds: the
/// gateway of the upstream's network, any port.
pub fn upstream_bind_addr(us_remote: &SocketAddress) -> (r: SocketAddress)
    requires
        us_remote.ip is V4,
    ensures
        r == (SocketAddress { ip: IpAddress::V4(gateway_of(us_remote.ip->V4_0)), port: 0 }),
{
    let gw = match us_remote.ip {
        IpAddress::V4(ip) => get_gw_ip(ip),
        IpAddress::V6(_) => crate::net::Ipv4Address(0, 0, 0, 0),
    };
    SocketAddress { ip: IpAddress::V4(gw), port: 0 }
}

/// The key under which the HTTP/1.1 handler announces an upstream
/// connection: from the local end with TLS, from the remote end without.
pub fn h1_upstream_key(us_local: &SocketAddress, us_remote: &SocketAddress, tls: bool, order: ByteOrder) -> (r:
    SockKey)
    requires
        us_local.ip is V4,
        us_remote.ip is V4,
    ensures
        r == (if tls {
            conn_key(*us_local, *us_remote, order)
        } else {
            conn_key(*us_remote, *us_local, order)
        }),
{
    if tls {
        conn_key_of(us_local, us_remote, order)
    } else {
        conn_key_of(us_remote, us_local, order)
    }
}

/// The key under which the HTTP/2 handler announces an upstream
/// connection: from the remote end, turned around with TLS.
pub fn h2_upstream_key(us_local: &SocketAddress, us_remote: &SocketAddress, tls: bool, order: ByteOrder) -> (r:
    SockKey)
    requires
        us_local.ip is V4,
        us_remote.ip is V4,
    ensures
        r == (if tls {
            conn_key(*us_remote, *us_local, order).inverted()
        } else {
            conn_key(*us_remote, *us_local, order)
        }),
{
    let key = conn_key_of(us_remote, us_local, order);
    if tls {
        key.invert()
    } else {
        key
    }
}

/// The value the socket wait list holds for an upstream connection: 1
/// without TLS, 0 with it.
pub fn sock_map_flag(tls: bool) -> (r: u32)
    ensures
        r == (if tls {
            0u32
        } else {
            1u32
        }),
{
    if tls {
        0
    } else {
        1
    }
}

/// The entry of the downstream FIB for a new upstream connection: its
/// local address leads back to the downstream connection `ds_key`.
pub fn fib_entry(us_local: &SocketAddress, ds_key: SockKey, order: ByteOrder) -> (r: (AddrKey, SockKey))
    requires
        us_local.ip is V4,
    ensures
        r == (v4_key(*us_local, order), ds_key),
{
    (key_of(us_local, order), ds_key)
}

/// The two entries of the stream map for an HTTP/2 request: stream
/// `stream_id` of the downstream connection leads to stream 1 of the
/// upstream connection `us_key`, and back.
pub fn h2_stream_entries(
    ds_local: &SocketAddress,
    ds_remote: &SocketAddress,
    stream_id: u32,
    us_key: SockKey,
    order: ByteOrder,
) -> (r: ((DataStream, DataStream), (DataStream, DataStream)))
    requires
        ds_local.ip is V4,
        ds_remote.ip is V4,
    ensures
        r.0.0 == (DataStream { conn: conn_key(*ds_remote, *ds_local, order), stream_id }),
        r.0.1 == (DataStream { conn: us_key, stream_id: 1 }),
        r.1 == (r.0.1, r.0.0),
{
    let ds = DataStream { conn: conn_key_of(ds_remote, ds_local, order), stream_id };
    let us = DataStream { conn: us_key, stream_id: 1 };
    ((ds, us), (us, ds))
}

/// The mark the HTTP/2 handler puts in the data plane's map of HTTP/2
/// connections for a new upstream connection: its key, with value 1 (the
/// downstream connection is marked by the data plane itself).
pub fn h2_conn_mark(us_key: SockKey) -> (r: (SockKey, u32))
    ensures
        r == (us_key, 1u32),
{
    (us_key, 1)
}

/// The key of the downstream FIB entry the HTTP/2 handler removes once the
/// upstream's response has come: the local address of the upstream
/// connection, the key `fib_entry` added.
pub fn fib_removal_key(us_local: &SocketAddress, order: ByteOrder) -> (r: AddrKey)
    requires
        us_local.ip is V4,
    ensures
        r == v4_key(*us_local, order),
{
    key_of(us_local, order)
}

/// The answer to an HTTP/2 request whose upstream cannot be reached: a
/// gRPC response with status 200, its content type, and trailers that
/// carry the gRPC status and message.
pub struct GrpcError {
    pub status: u16,
    pub headers: Vec<(String, String)>,
    pub trailers: Vec<(String, String)>,
}

/// The gRPC error answer: status 200, content type "application/grpc",
/// trailers grpc-status 2 (unknown) and grpc-message "Failed to connect to
/// upstream".
pub fn grpc_error_reply() -> (r: GrpcError)
    ensures
        r.status == 200,
        pairs_view(r.headers@) == seq![("content-type"@, "application/grpc"@)],
        pairs_view(r.trailers@) == seq![
            ("grpc-status"@, "2"@),
            ("grpc-message"@, "Failed to connect to upstream"@),
        ],
{
    let mut headers: Vec<(String, String)> = Vec::new();
    headers.push(("content-type".to_string(), "application/grpc".to_string()));
    let mut trailers: Vec<(String, String)> = Vec::new();
    trailers.push(("grpc-status".to_string(), "2".to_string()));
    trailers.push(("grpc-message".to_string(), "Failed to connect to upstream".to_string()));
    assert(pairs_view(headers@) =~= seq![("content-type"@, "application/grpc"@)]);
    assert(pairs_view(trailers@) =~= seq![
        ("grpc-status"@, "2"@),
        ("grpc-message"@, "Failed to connect to upstream"@),
    ]);
    GrpcError { status: 200, headers, trailers }
}

} // verus!
