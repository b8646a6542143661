//! The forwarding decisions of the user-space baseline proxy: forwarding
//! tokens that describe where a message may go, JWT authentication of
//! downstream requests, and the choice of a socket.

use crate::config::{Config, Host};
use crate::http_head::HeadError;
use crate::net::SocketAddress;
use crate::text::{chars_of, dec_chars, push_dec, push_str, slice_chars, str_eq};
use crate::net::{parse_u32, u32_of};
use hmac::{Hmac, Mac};
use jwt::VerifyWithKey;
use sha2::Sha256;
use vstd::prelude::*;

verus! {

broadcast use vstd::string::group_string_axioms;

/// The direction of a connection, as seen from the proxy.
#[derive(Clone, Copy, Debug, PartialEq, Eq, Hash, Structural)]
pub enum Direction {
    Downstream,
    Upstream,
}

/// One dimension of a forwarding token: a concrete value, the instance
/// with the least load, or any value.
#[derive(Clone, Copy, Debug, PartialEq, Eq, Hash, Structural)]
pub enum ForwardingDimension<T> {
    Concrete(T),
    Min,
    DontCare,
}

impl<T> ForwardingDimension<T> {
    /// The value of a concrete dimension.
    pub fn concrete_val(&self) -> (r: Option<&T>)
        ensures
            match *self {
                ForwardingDimension::Concrete(v) => r == Some(&v),
                _ => r is None,
            },
    {
        match self {
            ForwardingDimension::Concrete(val) => Some(val),
            _ => None,
        }
    }
}

/// Where a message may be forwarded: a socket is found by the token it was
/// registered under.
#[derive(Clone, Copy, Debug, PartialEq, Eq, Hash, Structural)]
pub struct ForwardingToken {
    pub reserved: ForwardingDimension<bool>,
    pub conn_id: ForwardingDimension<u32>,
    pub direction: ForwardingDimension<Direction>,
    pub backend: ForwardingDimension<u8>,
    pub instance: ForwardingDimension<u16>,
}

impl ForwardingToken {
    /// The token that leaves every dimension open.
    pub fn dont_care() -> (r: ForwardingToken)
        ensures
            r == (ForwardingToken {
                reserved: ForwardingDimension::DontCare,
                conn_id: ForwardingDimension::DontCare,
                direction: ForwardingDimension::DontCare,
                backend: ForwardingDimension::DontCare,
                instance: ForwardingDimension::DontCare,
            }),
    {
        ForwardingToken {
            reserved: ForwardingDimension::DontCare,
            conn_id: ForwardingDimension::DontCare,
            direction: ForwardingDimension::DontCare,
            backend: ForwardingDimension::DontCare,
            instance: ForwardingDimension::DontCare,
        }
    }
}

/// Where a message goes: a socket that exists, or a new connection to an
/// address, to be registered under a token.
#[derive(Clone, Copy, Debug, PartialEq, Eq, Structural)]
pub enum Destination {
    Existing(SocketAddress),
    New(SocketAddress, ForwardingToken),
}

/// Why a message cannot be forwarded.
#[derive(Clone, Copy, Debug, PartialEq, Eq, Structural)]
pub enum PipelineError {
    /// The request has no Authorization header.
    NoAuthorization,
    /// The bearer token does not verify.
    InvalidToken,
    /// The request has no Backend header.
    NoBackend,
    /// The Backend header names no known backend.
    InvalidBackend,
    /// The response has no conn-id header.
    NoConnId,
    /// The conn-id header is not a number.
    InvalidConnId,
    /// The response has no signature header, or an empty one.
    NoSignature,
    /// No socket is registered for a downstream connection.
    NoDownstreamSocket,
    /// No instance of the backend is configured.
    UnresolvedBackend,
    /// The Authorization header holds no bearer token.
    NoBearer,
    /// The signature does not end with the backend's digit.
    InvalidSignature,
    /// The message head cannot be read.
    Head(HeadError),
}

/// The number of a backend by the name a request gives it.
pub open spec fn backend_id(name: Seq<char>) -> Option<u8> {
    if name == "server1"@ {
        Some(1u8)
    } else if name == "server2"@ {
        Some(2u8)
    } else if name == "server3"@ {
        Some(3u8)
    } else if name == "server4"@ {
        Some(4u8)
    } else {
        None
    }
}

fn backend_of(name: &str) -> (r: Option<u8>)
    ensures
        r == backend_id(name@),
{
    if str_eq(name, "server1") {
        Some(1)
    } else if str_eq(name, "server2") {
        Some(2)
    } else if str_eq(name, "server3") {
        Some(3)
    } else if str_eq(name, "server4") {
        Some(4)
    } else {
        None
    }
}

/// The token under which a downstream connection from `port` is registered,
/// so that responses find their way back.
pub open spec fn return_token(port: u16) -> ForwardingToken {
    ForwardingToken {
        reserved: ForwardingDimension::Concrete(false),
        conn_id: ForwardingDimension::Concrete(port as u32),
        direction: ForwardingDimension::Concrete(Direction::Downstream),
        backend: ForwardingDimension::DontCare,
        instance: ForwardingDimension::DontCare,
    }
}

/// Forwards a downstream request to the backend its Backend header names:
/// the token asks for an unreserved upstream connection to the least loaded
/// instance of that backend; the result is the token that leads back to the
/// downstream connection from `origin_port`.
pub fn forward_ds_conn(ft: &mut ForwardingToken, backend: Option<&str>, origin_port: u16) -> (r:
    Result<ForwardingToken, PipelineError>)
    ensures
        match backend {
            None => r == Err::<ForwardingToken, PipelineError>(PipelineError::NoBackend)
                && *final(ft) == *old(ft),
            Some(b) => match backend_id(b@) {
                None => r == Err::<ForwardingToken, PipelineError>(PipelineError::InvalidBackend)
                    && *final(ft) == *old(ft),
                Some(id) => r == Ok::<ForwardingToken, PipelineError>(return_token(origin_port))
                    && *final(ft) == (ForwardingToken {
                    reserved: ForwardingDimension::Concrete(false),
                    conn_id: old(ft).conn_id,
                    direction: ForwardingDimension::Concrete(Direction::Upstream),
                    backend: ForwardingDimension::Concrete(id),
                    instance: ForwardingDimension::Min,
                }),
            },
        },
{
    let b = match backend {
        Some(b) => b,
        None => return Err(PipelineError::NoBackend),
    };
    let id = match backend_of(b) {
        Some(id) => id,
        None => return Err(PipelineError::InvalidBackend),
    };
    ft.reserved = ForwardingDimension::Concrete(false);
    ft.direction = ForwardingDimension::Concrete(Direction::Upstream);
    ft.backend = ForwardingDimension::Concrete(id);
    ft.instance = ForwardingDimension::Min;
    Ok(
        ForwardingToken {
            reserved: ForwardingDimension::Concrete(false),
            conn_id: ForwardingDimension::Concrete(origin_port as u32),
            direction: ForwardingDimension::Concrete(Direction::Downstream),
            backend: ForwardingDimension::DontCare,
            instance: ForwardingDimension::DontCare,
        },
    )
}

/// `ft` turned toward the downstream connection `id`.
pub open spec fn downstream_token(ft: ForwardingToken, id: u32) -> ForwardingToken {
    ForwardingToken {
        reserved: ForwardingDimension::Concrete(false),
        conn_id: ForwardingDimension::Concrete(id),
        direction: ForwardingDimension::Concrete(Direction::Downstream),
        backend: ft.backend,
        instance: ft.instance,
    }
}

/// Forwards an upstream response back to the downstream connection its
/// conn-id header names.
pub fn forward_us_conn(ft: &mut ForwardingToken, conn_id: Option<&str>) -> (r: Result<
    (),
    PipelineError,
>)
    ensures
        match conn_id {
            None => r == Err::<(), PipelineError>(PipelineError::NoConnId) && *final(ft) == *old(ft),
            Some(c) => match u32_of(c@) {
                None => r == Err::<(), PipelineError>(PipelineError::InvalidConnId) && *final(ft)
                    == *old(ft),
                Some(id) => r is Ok && *final(ft) == downstream_token(*old(ft), id),
            },
        },
{
    let c = match conn_id {
        Some(c) => c,
        None => return Err(PipelineError::NoConnId),
    };
    let id = match parse_u32(&chars_of(c)) {
        Some(id) => id,
        None => return Err(PipelineError::InvalidConnId),
    };
    ft.reserved = ForwardingDimension::Concrete(false);
    ft.conn_id = ForwardingDimension::Concrete(id);
    ft.direction = ForwardingDimension::Concrete(Direction::Downstream);
    Ok(())
}

/// The backend that signed a response: the digit its signature ends with.
pub fn signature_backend(sig: Option<&str>) -> (r: Result<u8, PipelineError>)
    requires
        sig matches Some(s) ==> (s@.len() > 0 ==> crate::text::is_digit(s@.last())),
    ensures
        match sig {
            Some(s) => if s@.len() == 0 {
                r == Err::<u8, PipelineError>(PipelineError::NoSignature)
            } else {
                r == Ok::<u8, PipelineError>(crate::text::digit_value(s@.last()) as u8)
            },
            None => r == Err::<u8, PipelineError>(PipelineError::NoSignature),
        },
{
    let s = match sig {
        Some(s) => s,
        None => return Err(PipelineError::NoSignature),
    };
    let v = chars_of(s);
    if v.len() == 0 {
        return Err(PipelineError::NoSignature);
    }
    let c = v[v.len() - 1];
    Ok((c as u32 - '0' as u32) as u8)
}

/// The token a message with token `ft` is looked up under: a request for
/// the least loaded instance asks for the instance found least loaded, when
/// one is known.
pub open spec fn token_for(ft: ForwardingToken, min_instance: Option<u16>) -> ForwardingToken {
    if ft.instance == ForwardingDimension::<u16>::Min && min_instance is Some {
        ForwardingToken { instance: ForwardingDimension::Concrete(min_instance->0), ..ft }
    } else {
        ft
    }
}

/// The token a message is looked up under: a request for the least loaded
/// instance asks for the instance found least loaded, when one is known.
pub fn select_token(ft: &ForwardingToken, min_instance: Option<u16>) -> (r: ForwardingToken)
    ensures
        r == token_for(*ft, min_instance),
{
    match ft.instance {
        ForwardingDimension::Min => match min_instance {
            Some(i) => ForwardingToken { instance: ForwardingDimension::Concrete(i), ..*ft },
            None => *ft,
        },
        _ => *ft,
    }
}

/// The token of a new upstream connection to instance `port` of the backend.
pub open spec fn upstream_token(backend: ForwardingDimension<u8>, port: u16) -> ForwardingToken {
    ForwardingToken {
        reserved: ForwardingDimension::Concrete(false),
        conn_id: ForwardingDimension::DontCare,
        direction: ForwardingDimension::Concrete(Direction::Upstream),
        backend,
        instance: ForwardingDimension::Concrete(port),
    }
}

/// Where a message with token `ft` goes: the socket `found` under its
/// token when there is one; otherwise, for a message not to downstream, a
/// new connection to the instance `resolved`.
pub open spec fn destination_for(ft: ForwardingToken, found: Option<SocketAddress>, resolved: Option<SocketAddress>) -> Result<Destination, PipelineError> {
    match found {
        Some(a) => Ok(Destination::Existing(a)),
        None => if ft.direction == ForwardingDimension::Concrete(Direction::Downstream) {
            Err(PipelineError::NoDownstreamSocket)
        } else {
            match resolved {
                Some(a) => Ok(Destination::New(a, upstream_token(ft.backend, a.port))),
                None => Err(PipelineError::UnresolvedBackend),
            }
        },
    }
}

/// Where a message with token `ft` goes: the socket registered under the
/// token when there is one; otherwise, for an upstream message, a new
/// connection to the instance the backend resolved to.
pub fn decide_destination(
    ft: &ForwardingToken,
    found: Option<SocketAddress>,
    resolved: Option<SocketAddress>,
) -> (r: Result<Destination, PipelineError>)
    ensures
        r == destination_for(*ft, found, resolved),
{
    if let Some(a) = found {
        return Ok(Destination::Existing(a));
    }
    if let ForwardingDimension::Concrete(Direction::Downstream) = ft.direction {
        return Err(PipelineError::NoDownstreamSocket);
    }
    match resolved {
        Some(a) => Ok(
            Destination::New(
                a,
                ForwardingToken {
                    reserved: ForwardingDimension::Concrete(false),
                    conn_id: ForwardingDimension::DontCare,
                    direction: ForwardingDimension::Concrete(Direction::Upstream),
                    backend: ft.backend,
                    instance: ForwardingDimension::Concrete(a.port),
                },
            ),
        ),
        None => Err(PipelineError::UnresolvedBackend),
    }
}

/// The name the configuration gives backend `backend`: "server" and its number.
pub open spec fn backend_name(backend: u8) -> Seq<char> {
    "server"@ + dec_chars(backend as nat)
}

/// Whether `r` can be the random choice of an instance of backend
/// `backend`: one of the instances of the first host with its name; none
/// when there is no such host or it has no instances.
pub open spec fn random_instance_ok(hosts: Seq<Host>, backend: u8, r: Option<SocketAddress>) -> bool {
    match r {
        Some(a) => exists|i: int, k: int|
            crate::config::first_named(hosts, backend_name(backend), i) && 0 <= k
                < hosts[i].instances@.len() && (#[trigger] hosts[i].instances@[k]) == a,
        None => crate::config::none_named(hosts, backend_name(backend)) || exists|i: int|
            crate::config::first_named(hosts, backend_name(backend), i) && (
            #[trigger] hosts[i]).instances@.len() == 0,
    }
}

/// A random instance of backend `backend`, as the configuration names it.
pub fn resolve_preconfigured_instance_rand(config: &Config, backend: u8) -> (r: Option<SocketAddress>)
    ensures
        random_instance_ok(config.hosts@, backend, r),
{
    let mut name = String::new();
    push_str(&mut name, "server");
    push_dec(&mut name, backend as u128);
    match config.select_backend_instance(name.as_str()) {
        Some(a) => Some(*a),
        None => None,
    }
}

/// Whether `c` is white space by Unicode's White_Space property, as
/// `char::is_whitespace` tells it.
pub open spec fn is_white(c: char) -> bool {
    ('\u{9}' <= c && c <= '\u{d}') || c == ' ' || c == '\u{85}' || c == '\u{a0}' || c == '\u{1680}'
        || ('\u{2000}' <= c && c <= '\u{200a}') || c == '\u{2028}' || c == '\u{2029}' || c
        == '\u{202f}' || c == '\u{205f}' || c == '\u{3000}'
}

fn is_white_exec(c: char) -> (r: bool)
    ensures
        r == is_white(c),
{
    ('\u{9}' <= c && c <= '\u{d}') || c == ' ' || c == '\u{85}' || c == '\u{a0}' || c == '\u{1680}'
        || ('\u{2000}' <= c && c <= '\u{200a}') || c == '\u{2028}' || c == '\u{2029}' || c
        == '\u{202f}' || c == '\u{205f}' || c == '\u{3000}'
}

/// The number of white-space characters `s` starts with.
pub open spec fn lead_white(s: Seq<char>) -> nat
    decreases s.len(),
{
    if s.len() > 0 && is_white(s[0]) {
        1 + lead_white(s.drop_first())
    } else {
        0
    }
}

/// The number of white-space characters `s` ends with.
pub open spec fn trail_white(s: Seq<char>) -> nat
    decreases s.len(),
{
    if s.len() > 0 && is_white(s.last()) {
        1 + trail_white(s.drop_last())
    } else {
        0
    }
}

/// `s` without the white space it starts and ends with, as `str::trim` gives it.
pub open spec fn trim(s: Seq<char>) -> Seq<char> {
    let t = s.skip(lead_white(s) as int);
    t.take(t.len() - trail_white(t))
}

/// The text before the first "\r\n" of `s`, or all of `s`.
pub open spec fn first_line(s: Seq<char>) -> Seq<char> {
    s.take(crate::compiler::find_seq(s, seq!['\r', '\n']) as int)
}

/// The bearer token of an Authorization header: what follows "Bearer" on
/// its first line, trimmed.
pub open spec fn bearer_token(auth: Seq<char>) -> Seq<char> {
    trim(first_line(auth.skip(6)))
}

/// What `VerifyWithKey::verify_with_key` decides for a token and an
/// HMAC-SHA256 key: whether the token is signed with the key and its claims
/// are a map of strings.
pub uninterp spec fn hs256_verifies(token: Seq<char>, key: Seq<u8>) -> bool;

/// Calls `jwt::VerifyWithKey::verify_with_key` on `token` with the
/// HMAC-SHA256 key made from `key` by `Mac::new_from_slice`, asking for
/// claims that map strings to strings; the contract names its verdict, a
/// function of the token and the key alone.
#[verifier::external_body]
fn verify_hs256(token: &str, key: &[u8]) -> (r: bool)
    ensures
        r == hs256_verifies(token@, key@),
{
    let key: Hmac<Sha256> = match Hmac::new_from_slice(key) {
        Ok(k) => k,
        Err(_) => return false,
    };
    let claims: Result<std::collections::BTreeMap<String, String>, jwt::Error> =
        token.verify_with_key(&key);
    claims.is_ok()
}

proof fn lemma_lead_white(s: Seq<char>, i: int)
    requires
        0 <= i <= s.len(),
        forall|j: int| 0 <= j < i ==> is_white(s[j]),
        i == s.len() || !is_white(s[i]),
    ensures
        lead_white(s) == i,
    decreases s.len(),
{
    if i > 0 {
        let t = s.drop_first();
        assert forall|j: int| 0 <= j < i - 1 implies is_white(t[j]) by {
            assert(t[j] == s[j + 1]);
        }
        if i < s.len() {
            assert(t[i - 1] == s[i]);
        }
        lemma_lead_white(t, i - 1);
    }
}

proof fn lemma_trail_white(s: Seq<char>, i: int)
    requires
        0 <= i <= s.len(),
        forall|j: int| s.len() - i <= j < s.len() ==> is_white(s[j]),
        i == s.len() || !is_white(s[s.len() - 1 - i]),
    ensures
        trail_white(s) == i,
    decreases s.len(),
{
    if i > 0 {
        let t = s.drop_last();
        assert forall|j: int| t.len() - (i - 1) <= j < t.len() implies is_white(t[j]) by {
            assert(t[j] == s[j]);
        }
        if i < s.len() {
            assert(t[t.len() - 1 - (i - 1)] == s[s.len() - 1 - i]);
        }
        lemma_trail_white(t, i - 1);
    }
}

/// `v` without the white space it starts and ends with.
pub fn trim_chars(v: &Vec<char>) -> (r: Vec<char>)
    ensures
        r@ == trim(v@),
{
    let mut lo: usize = 0;
    while lo < v.len() && is_white_exec(v[lo])
        invariant
            lo <= v@.len(),
            forall|j: int| 0 <= j < lo ==> is_white(v@[j]),
        decreases v.len() - lo,
    {
        lo = lo + 1;
    }
    proof {
        lemma_lead_white(v@, lo as int);
    }
    let t = slice_chars(v, lo, v.len());
    assert(t@ =~= v@.skip(lo as int));
    let mut k: usize = 0;
    while k < t.len() && is_white_exec(t[t.len() - 1 - k])
        invariant
            k <= t@.len(),
            forall|j: int| t@.len() - k <= j < t@.len() ==> is_white(t@[j]),
        decreases t.len() - k,
    {
        k = k + 1;
    }
    proof {
        lemma_trail_white(t@, k as int);
    }
    let out = slice_chars(&t, 0, t.len() - k);
    assert(out@ =~= t@.take(t@.len() - k));
    out
}

/// The bearer token of an Authorization header.
pub fn bearer_token_of(auth: &str) -> (r: String)
    requires
        auth@.len() >= 6,
    ensures
        r@ == bearer_token(auth@),
{
    let v = chars_of(auth);
    let crlf = chars_of("\r\n");
    proof {
        reveal_strlit("\r\n");
        assert(crlf@ =~= seq!['\r', '\n']);
    }
    let rest = slice_chars(&v, 6, v.len());
    assert(rest@ =~= auth@.skip(6));
    let end = crate::compiler::find_seq_from_pub(&rest, &crlf);
    let line = slice_chars(&rest, 0, end);
    assert(line@ =~= first_line(auth@.skip(6)));
    let mut lo: usize = 0;
    while lo < line.len() && is_white_exec(line[lo])
        invariant
            lo <= line@.len(),
            forall|j: int| 0 <= j < lo ==> is_white(line@[j]),
        decreases line.len() - lo,
    {
        lo = lo + 1;
    }
    proof {
        lemma_lead_white(line@, lo as int);
    }
    let t = slice_chars(&line, lo, line.len());
    assert(t@ =~= line@.skip(lo as int));
    let mut k: usize = 0;
    while k < t.len() && is_white_exec(t[t.len() - 1 - k])
        invariant
            k <= t@.len(),
            forall|j: int| t@.len() - k <= j < t@.len() ==> is_white(t@[j]),
        decreases t.len() - k,
    {
        k = k + 1;
    }
    proof {
        lemma_trail_white(t@, k as int);
    }
    let out = slice_chars(&t, 0, t.len() - k);
    assert(out@ =~= t@.take(t@.len() - k));
    crate::text::string_of(&out)
}

/// The key the baseline verifies bearer tokens with.
pub open spec fn jwt_key() -> Seq<u8> {
    "testtest12345678"@.map_values(|c: char| c as u8)
}

/// Authenticates a request by its Authorization header: it must hold a
/// bearer token that verifies with the key.
pub fn authenticate(auth: Option<&str>) -> (r: Result<(), PipelineError>)
    requires
        auth matches Some(a) ==> a@.len() >= 6 && a@.take(6) == "Bearer"@,
    ensures
        match auth {
            None => r == Err::<(), PipelineError>(PipelineError::NoAuthorization),
            Some(a) => r == if hs256_verifies(bearer_token(a@), jwt_key()) {
                Ok::<(), PipelineError>(())
            } else {
                Err(PipelineError::InvalidToken)
            },
        },
{
    let a = match auth {
        Some(a) => a,
        None => return Err(PipelineError::NoAuthorization),
    };
    let token = bearer_token_of(a);
    // "testtest12345678" in ASCII.
    let key: [u8; 16] = [116, 101, 115, 116, 116, 101, 115, 116, 49, 50, 51, 52, 53, 54, 55, 56];
    proof {
        reveal_strlit("testtest12345678");
        assert(key@ =~= jwt_key());
    }
    if verify_hs256(token.as_str(), key.as_slice()) {
        Ok(())
    } else {
        Err(PipelineError::InvalidToken)
    }
}

/// The bytes that instance `instance` of backend `backend` has sent, as
/// the load table (backend, instance, bytes) records them, or `u32::MAX`
/// when it records nothing.
pub open spec fn load_of(loads: Seq<(u8, u16, u32)>, backend: u8, instance: u16) -> u32
    decreases loads.len(),
{
    if loads.len() == 0 {
        u32::MAX
    } else if loads[0].0 == backend && loads[0].1 == instance {
        loads[0].2
    } else {
        load_of(loads.drop_first(), backend, instance)
    }
}

/// Whether `ft` belongs to the group `g`: every dimension but the instance
/// agrees.
pub open spec fn in_group(ft: ForwardingToken, g: ForwardingToken) -> bool {
    ft.reserved == g.reserved && ft.conn_id == g.conn_id && ft.direction == g.direction && ft.backend
        == g.backend
}

/// Whether the FIB entry `e` can serve group `g`: it belongs to the group
/// and its socket is not reserved.
pub open spec fn candidate(e: (ForwardingToken, SocketAddress), g: ForwardingToken, reserved: Seq<SocketAddress>) -> bool {
    in_group(e.0, g) && !reserved.contains(e.1)
}

/// The load of the instance of a FIB entry.
pub open spec fn entry_load(e: (ForwardingToken, SocketAddress), loads: Seq<(u8, u16, u32)>) -> u32 {
    load_of(loads, e.0.backend->Concrete_0, e.0.instance->Concrete_0)
}

/// The position of the first candidate of least load among the first `n`
/// FIB entries, or -1.
pub open spec fn least_loaded(
    fib: Seq<(ForwardingToken, SocketAddress)>,
    g: ForwardingToken,
    reserved: Seq<SocketAddress>,
    loads: Seq<(u8, u16, u32)>,
    n: nat,
) -> int
    decreases n,
{
    if n == 0 {
        -1
    } else {
        let p = least_loaded(fib, g, reserved, loads, (n - 1) as nat);
        let e = fib[n - 1];
        if !candidate(e, g, reserved) {
            p
        } else if p < 0 || entry_load(e, loads) < entry_load(fib[p], loads) {
            n - 1
        } else {
            p
        }
    }
}

/// The position `least_loaded` gives lies among the entries considered and
/// holds a candidate of the group.
pub proof fn lemma_least_loaded_bounds(
    fib: Seq<(ForwardingToken, SocketAddress)>,
    g: ForwardingToken,
    reserved: Seq<SocketAddress>,
    loads: Seq<(u8, u16, u32)>,
    n: nat,
)
    requires
        n <= fib.len(),
    ensures
        -1 <= least_loaded(fib, g, reserved, loads, n) < n,
        least_loaded(fib, g, reserved, loads, n) >= 0 ==> candidate(
            fib[least_loaded(fib, g, reserved, loads, n)],
            g,
            reserved,
        ),
    decreases n,
{
    if n > 0 {
        lemma_least_loaded_bounds(fib, g, reserved, loads, (n - 1) as nat);
    }
}

/// No candidate among the entries considered has less load than the one
/// `least_loaded` gives.
pub proof fn lemma_least_loaded_min(
    fib: Seq<(ForwardingToken, SocketAddress)>,
    g: ForwardingToken,
    reserved: Seq<SocketAddress>,
    loads: Seq<(u8, u16, u32)>,
    n: nat,
    j: int,
)
    requires
        n <= fib.len(),
        0 <= j < n,
        candidate(fib[j], g, reserved),
    ensures
        least_loaded(fib, g, reserved, loads, n) >= 0,
        entry_load(fib[least_loaded(fib, g, reserved, loads, n)], loads) <= entry_load(fib[j], loads),
    decreases n,
{
    lemma_least_loaded_bounds(fib, g, reserved, loads, n);
    if j < n - 1 {
        lemma_least_loaded_min(fib, g, reserved, loads, (n - 1) as nat, j);
    } else {
        lemma_least_loaded_bounds(fib, g, reserved, loads, (n - 1) as nat);
    }
}

fn load_lookup(loads: &Vec<(u8, u16, u32)>, backend: u8, instance: u16) -> (r: u32)
    ensures
        r == load_of(loads@, backend, instance),
{
    let mut i: usize = 0;
    assert(loads@.skip(0) =~= loads@);
    while i < loads.len()
        invariant
            i <= loads@.len(),
            load_of(loads@, backend, instance) == load_of(loads@.skip(i as int), backend, instance),
        decreases loads.len() - i,
    {
        assert(loads@.skip(i as int).drop_first() =~= loads@.skip(i + 1));
        assert(loads@.skip(i as int)[0] == loads@[i as int]);
        if loads[i].0 == backend && loads[i].1 == instance {
            return loads[i].2;
        }
        i = i + 1;
    }
    u32::MAX
}

fn addr_in(v: &Vec<SocketAddress>, a: &SocketAddress) -> (r: bool)
    ensures
        r == v@.contains(*a),
{
    let mut i: usize = 0;
    while i < v.len()
        invariant
            i <= v@.len(),
            forall|j: int| 0 <= j < i ==> v@[j] != *a,
        decreases v.len() - i,
    {
        if v[i] == *a {
            return true;
        }
        i = i + 1;
    }
    false
}

/// The instance with the least load that can serve group `g`: the first
/// FIB entry of least load among those of the group whose sockets are not
/// reserved; none when there is no such entry.
pub fn min_instance(
    fib: &Vec<(ForwardingToken, SocketAddress)>,
    g: &ForwardingToken,
    reserved: &Vec<SocketAddress>,
    loads: &Vec<(u8, u16, u32)>,
) -> (r: Option<u16>)
    requires
        forall|i: int|
            0 <= i < fib@.len() && in_group(#[trigger] fib@[i].0, *g) ==> fib@[i].0.backend is Concrete
                && fib@[i].0.instance is Concrete,
    ensures
        ({
            let k = least_loaded(fib@, *g, reserved@, loads@, fib@.len());
            if k < 0 {
                r is None
            } else {
                r == Some(fib@[k].0.instance->Concrete_0)
            }
        }),
{
    let mut best: Option<(usize, u32)> = None;
    let mut i: usize = 0;
    while i < fib.len()
        invariant
            i <= fib@.len(),
            forall|x: int|
                0 <= x < fib@.len() && in_group(#[trigger] fib@[x].0, *g) ==> fib@[x].0.backend is Concrete
                    && fib@[x].0.instance is Concrete,
            ({
                let k = least_loaded(fib@, *g, reserved@, loads@, i as nat);
                match best {
                    None => k < 0,
                    Some((b, l)) => k == b && l == entry_load(fib@[k], loads@),
                }
            }),
        decreases fib.len() - i,
    {
        proof {
            lemma_least_loaded_bounds(fib@, *g, reserved@, loads@, i as nat);
        }
        let e = &fib[i];
        let member = e.0.reserved == g.reserved && e.0.conn_id == g.conn_id && e.0.direction
            == g.direction && e.0.backend == g.backend;
        if member && !addr_in(reserved, &e.1) {
            let backend = match e.0.backend {
                ForwardingDimension::Concrete(b) => b,
                _ => 0,
            };
            let instance = match e.0.instance {
                ForwardingDimension::Concrete(x) => x,
                _ => 0,
            };
            let l = load_lookup(loads, backend, instance);
            match best {
                None => {
                    best = Some((i, l));
                },
                Some((_, bl)) => {
                    if l < bl {
                        best = Some((i, l));
                    }
                },
            }
        }
        i = i + 1;
    }
    proof {
        lemma_least_loaded_bounds(fib@, *g, reserved@, loads@, fib@.len());
    }
    match best {
        None => None,
        Some((b, _)) => match fib[b].0.instance {
            ForwardingDimension::Concrete(x) => Some(x),
            _ => None,
        },
    }
}

fn contains_token(v: &Vec<ForwardingToken>, t: &ForwardingToken) -> (r: bool)
    ensures
        r == v@.contains(*t),
{
    let mut i: usize = 0;
    while i < v.len()
        invariant
            i <= v@.len(),
            forall|j: int| 0 <= j < i ==> v@[j] != *t,
        decreases v.len() - i,
    {
        if v[i] == *t {
            return true;
        }
        i = i + 1;
    }
    false
}

/// The group of a token: the token with its instance left to the least
/// loaded one.
pub open spec fn group_of(ft: ForwardingToken) -> ForwardingToken {
    ForwardingToken { instance: ForwardingDimension::Min, ..ft }
}

/// The groups that the least loaded instance is found for: those of the
/// FIB entries that name an instance, each once, in the order they first
/// appear.
pub fn fib_groups(fib: &Vec<(ForwardingToken, SocketAddress)>) -> (r: Vec<ForwardingToken>)
    ensures
        r@.no_duplicates(),
        forall|g: ForwardingToken|
            r@.contains(g) <==> exists|i: int|
                0 <= i < fib@.len() && fib@[i].0.instance != ForwardingDimension::<u16>::DontCare
                    && g == group_of(#[trigger] fib@[i].0),
{
    let mut out: Vec<ForwardingToken> = Vec::new();
    let mut i: usize = 0;
    while i < fib.len()
        invariant
            i <= fib@.len(),
            out@.no_duplicates(),
            forall|g: ForwardingToken|
                out@.contains(g) <==> exists|x: int|
                    0 <= x < i && fib@[x].0.instance != ForwardingDimension::<u16>::DontCare && g
                        == group_of(#[trigger] fib@[x].0),
        decreases fib.len() - i,
    {
        let ft = fib[i].0;
        let named = match ft.instance {
            ForwardingDimension::DontCare => false,
            _ => true,
        };
        if named {
            let g = ForwardingToken { instance: ForwardingDimension::Min, ..ft };
            let ghost prev = out@;
            let seen = contains_token(&out, &g);
            if !seen {
                out.push(g);
                proof {
                    assert forall|x: int, y: int|
                        0 <= x < out@.len() && 0 <= y < out@.len() && x != y implies out@[x]
                        != out@[y] by {
                        if x < prev.len() && y < prev.len() {
                            assert(out@[x] == prev[x] && out@[y] == prev[y]);
                        } else if x == prev.len() {
                            assert(out@[y] == prev[y]);
                        } else {
                            assert(out@[x] == prev[x]);
                        }
                    }
                }
            }
            proof {
                assert(g == group_of(fib@[i as int].0));
                assert forall|h: ForwardingToken|
                    out@.contains(h) <==> exists|x: int|
                        0 <= x < i + 1 && fib@[x].0.instance != ForwardingDimension::<u16>::DontCare
                            && h == group_of(#[trigger] fib@[x].0) by {
                    if out@.contains(h) {
                        if h != g {
                            let y = choose|y: int| 0 <= y < out@.len() && out@[y] == h;
                            if !seen {
                                assert(y < prev.len());
                            }
                            assert(prev[y] == h);
                            assert(prev.contains(h));
                        }
                    }
                    if exists|x: int|
                        0 <= x < i + 1 && fib@[x].0.instance != ForwardingDimension::<u16>::DontCare
                            && h == group_of(#[trigger] fib@[x].0) {
                        let x = choose|x: int|
                            0 <= x < i + 1 && fib@[x].0.instance != ForwardingDimension::<u16>::DontCare
                                && h == group_of(#[trigger] fib@[x].0);
                        if x == i {
                            if !seen {
                                assert(out@[out@.len() - 1] == g);
                            }
                        } else {
                            assert(prev.contains(h));
                            let y = choose|y: int| 0 <= y < prev.len() && prev[y] == h;
                            if !seen {
                                assert(out@[y] == prev[y]);
                            }
                        }
                    }
                }
            }
        }
        i = i + 1;
    }
    out
}

} // verus!
