//! What the data plane is programmed with: the transition tables of the
//! HTTP/1.1 and HTTP/2 parsers for the context variables of a
//! configuration, and the network whose traffic is accelerated.

use crate::compiler::{config_ctx_vars, ctx_vars, paths_fit, var_name, var_views, VarView, Variable};
use crate::config::beeline::{two_pow, Cidr, Config, Host};
use crate::net::{IpAddress, NetError, SocketAddress, ByteOrder};
use crate::upstream::{addr_key_of, AddrKey};
use crate::h1::dfa::{DfaView as H1View, Op};
use crate::h1::http::{
    hdr_auth_ops, hdr_end_ops, hdr_ops, pattern, req_status_line_ops, status_code_ops, HttpParser,
};
use crate::h1::{Action as H1Action, DfaError};
use crate::h2::dfa::DfaView as H2View;
use crate::h2::parser::{lemma_static_indices_small, spec_capture_http_hdr, static_indices, Parser};
use crate::h2::Action as H2Action;
use crate::net::{gateway_of, get_gw_ip, octets_in, octets_u32};
use crate::text::{blen, chars_of, str_eq, utf8_len};
use crate::transition::{h1_action_bits, h2_action_bits, new_h1_transition, new_h2_transition, Rodata, Trans};
use vstd::prelude::*;

verus! {

/// Why the data plane cannot be programmed.
#[derive(Clone, Copy, Debug, PartialEq, Eq, Structural)]
pub enum InitError {
    /// A pattern conflicts with the patterns before it.
    Parse(DfaError),
    /// A parser captures more than the data plane holds.
    TooManyPatterns,
    /// A parser has run out of state, capture or range ids.
    OutOfIds,
    /// The accelerated network reaches past the last address.
    NetworkRange,
}

/// The HTTP/1.1 pattern for the context variable `name`: the state it
/// starts from and its steps; none for a variable that another pattern
/// captures.
pub open spec fn h1_plan(name: Seq<char>, s_init: u16, s_any: u16) -> Option<(u16, Seq<Op>)> {
    if name == "method"@ {
        Some((s_init, req_status_line_ops(s_any)))
    } else if name == "path"@ || name == "jwt_sig"@ {
        None
    } else if name == "status_code"@ {
        Some((s_init, status_code_ops(s_any)))
    } else if name == "jwt_claims"@ {
        Some((s_any, hdr_auth_ops(s_any)))
    } else {
        Some((s_any, hdr_ops(name, s_any)))
    }
}

/// How many free states the pattern of `name` needs.
pub open spec fn h1_need(name: Seq<char>) -> int {
    if name == "method"@ {
        17
    } else if name == "status_code"@ {
        14
    } else if name == "jwt_claims"@ {
        37
    } else {
        name.len() as int + 12
    }
}

/// Whether the ids of `d` suffice for the pattern of `name`.
pub open spec fn h1_fits(d: H1View, name: Seq<char>) -> bool {
    d.cid < 254 && d.rid < 254 && d.room() >= h1_need(name)
}

/// The HTTP/1.1 DFA after the patterns of `names`, in order, stopping at
/// the first that fails.
pub open spec fn h1_build(d: H1View, names: Seq<Seq<char>>, s_init: u16, s_any: u16) -> (
    H1View,
    Result<(), InitError>,
)
    decreases names.len(),
{
    if names.len() == 0 {
        (d, Ok(()))
    } else {
        let (d1, r1) = h1_build(d, names.drop_last(), s_init, s_any);
        if r1 is Err {
            (d1, r1)
        } else {
            match h1_plan(names.last(), s_init, s_any) {
                None => (d1, Ok(())),
                Some((from, ops)) => if !h1_fits(d1, names.last()) {
                    (d1, Err(InitError::OutOfIds))
                } else {
                    let (d2, r2) = pattern(d1, from, ops);
                    (
                        d2,
                        match r2 {
                            Ok(_) => Ok(()),
                            Err(e) => Err(InitError::Parse(e)),
                        },
                    )
                },
            }
        }
    }
}

/// Whether the ids of `d` suffice to capture the header `name`.
pub open spec fn h2_fits(d: H2View, name: Seq<char>) -> bool {
    d.cid < 255 && d.room() >= 8 + 4 * blen(name)
}

/// The HTTP/2 DFA after capturing the headers `names`, in order.
pub open spec fn h2_build(d: H2View, names: Seq<Seq<char>>, s_any: u16) -> (H2View, Result<(), InitError>)
    decreases names.len(),
{
    if names.len() == 0 {
        (d, Ok(()))
    } else {
        let (d1, r1) = h2_build(d, names.drop_last(), s_any);
        if r1 is Err {
            (d1, r1)
        } else if !h2_fits(d1, names.last()) {
            (d1, Err(InitError::OutOfIds))
        } else {
            (spec_capture_http_hdr(d1, s_any, names.last()), Ok(()))
        }
    }
}

/// An empty HTTP/1.1 DFA with the two reserved states.
pub open spec fn h1_start(s_init: u16, s_any: u16) -> H1View {
    H1View {
        sid: 0,
        cid: 0,
        rid: 0,
        states: set![s_init, s_any],
        trans: Map::<(u16, char), (u16, H1Action)>::empty(),
    }
}

/// An empty HTTP/2 DFA with the two reserved states.
pub open spec fn h2_start(s_init: u16, s_any: u16) -> H2View {
    H2View {
        sid: 0,
        cid: 0,
        rid: 0,
        states: set![s_init, s_any],
        trans: Map::<(u16, u8), (u16, H2Action)>::empty(),
    }
}

/// The names of the context variables of `config`.
pub open spec fn ctx_names(config: Config) -> Seq<Seq<char>> {
    ctx_vars(config).map_values(|v: VarView| var_name(v))
}

/// The two parsers for `config`, or why they cannot be built: the
/// HTTP/1.1 patterns of the context variables then the end of the header,
/// the HTTP/2 captures of the context variables, each parser with at most
/// 14 captures.
pub open spec fn parsers_spec(config: Config, s_init: u16, s_any: u16) -> Result<(H1View, H2View), InitError> {
    let names = ctx_names(config);
    let (d1, r1) = h1_build(h1_start(s_init, s_any), names, s_init, s_any);
    if r1 is Err {
        Err(r1->Err_0)
    } else if d1.room() < 5 {
        Err(InitError::OutOfIds)
    } else {
        let (d2, r2) = pattern(d1, s_any, hdr_end_ops());
        if r2 is Err {
            Err(InitError::Parse(r2->Err_0))
        } else if d2.cid >= 15 {
            Err(InitError::TooManyPatterns)
        } else {
            let (e1, q1) = h2_build(h2_start(s_init, s_any), names, s_any);
            if q1 is Err {
                Err(q1->Err_0)
            } else if e1.cid >= 15 {
                Err(InitError::TooManyPatterns)
            } else {
                Ok((d2, e1))
            }
        }
    }
}

/// The tables and addresses the data plane is programmed with.
pub struct DataplaneInit {
    /// The HTTP/1.1 transitions: from state, input, table entry.
    pub h1: Vec<(u16, char, Trans)>,
    /// The HTTP/2 transitions: from state, input byte, table entry.
    pub h2: Vec<(u16, u8, Trans)>,
    /// The accelerated network as raw numbers in the machine's byte order:
    /// its first address, the first address past it, and its gateway.
    pub network: Option<(u32, u32, u32)>,
}

fn h1_table(p: &HttpParser, rodata: &Rodata) -> (r: Vec<(u16, char, Trans)>)
    requires
        p.wf(),
    ensures
        forall|e: (u16, char, Trans)|
            r@.contains(e) <==> exists|to: u16, a: H1Action|
                p.dfa_view().get(e.0, e.1) == Some((to, a)) && e.2 == (Trans {
                    state: to,
                    action: h1_action_bits(a, *rodata),
                }),
{
    let ts = p.iter_transitions();
    let mut out: Vec<(u16, char, Trans)> = Vec::new();
    let mut i: usize = 0;
    while i < ts.len()
        invariant
            i <= ts@.len(),
            out@.len() == i,
            forall|j: int|
                0 <= j < i ==> #[trigger] out@[j] == (
                    ts@[j].0,
                    ts@[j].2,
                    Trans { state: ts@[j].1, action: h1_action_bits(ts@[j].3, *rodata) },
                ),
        decreases ts.len() - i,
    {
        let t = ts[i];
        out.push((t.0, t.2, new_h1_transition(t.1, t.3, rodata)));
        i = i + 1;
    }
    assert forall|e: (u16, char, Trans)|
        out@.contains(e) <==> exists|to: u16, a: H1Action|
            p.dfa_view().get(e.0, e.1) == Some((to, a)) && e.2 == (Trans {
                state: to,
                action: h1_action_bits(a, *rodata),
            }) by {
        if out@.contains(e) {
            let j = choose|j: int| 0 <= j < out@.len() && out@[j] == e;
            assert(out@[j] == e);
            assert(ts@.contains(ts@[j]));
        }
        if exists|to: u16, a: H1Action|
            p.dfa_view().get(e.0, e.1) == Some((to, a)) && e.2 == (Trans {
                state: to,
                action: h1_action_bits(a, *rodata),
            }) {
            let (to, a) = choose|to: u16, a: H1Action|
                p.dfa_view().get(e.0, e.1) == Some((to, a)) && e.2 == (Trans {
                    state: to,
                    action: h1_action_bits(a, *rodata),
                });
            let t = (e.0, to, e.1, a);
            assert(ts@.contains(t));
            let j = choose|j: int| 0 <= j < ts@.len() && ts@[j] == t;
            assert(out@[j] == e);
        }
    }
    out
}

fn h2_table(p: &Parser, rodata: &Rodata) -> (r: Vec<(u16, u8, Trans)>)
    requires
        p.wf(),
    ensures
        forall|e: (u16, u8, Trans)|
            r@.contains(e) <==> exists|to: u16, a: H2Action|
                p.dfa_view().get(e.0, e.1) == Some((to, a)) && e.2 == (Trans {
                    state: to,
                    action: h2_action_bits(a, *rodata),
                }),
{
    let ts = p.iter_transitions();
    let mut out: Vec<(u16, u8, Trans)> = Vec::new();
    let mut i: usize = 0;
    while i < ts.len()
        invariant
            i <= ts@.len(),
            out@.len() == i,
            forall|j: int|
                0 <= j < i ==> #[trigger] out@[j] == (
                    ts@[j].0,
                    ts@[j].2,
                    Trans { state: ts@[j].1, action: h2_action_bits(ts@[j].3, *rodata) },
                ),
        decreases ts.len() - i,
    {
        let t = ts[i];
        out.push((t.0, t.2, new_h2_transition(t.1, t.3, rodata)));
        i = i + 1;
    }
    assert forall|e: (u16, u8, Trans)|
        out@.contains(e) <==> exists|to: u16, a: H2Action|
            p.dfa_view().get(e.0, e.1) == Some((to, a)) && e.2 == (Trans {
                state: to,
                action: h2_action_bits(a, *rodata),
            }) by {
        if out@.contains(e) {
            let j = choose|j: int| 0 <= j < out@.len() && out@[j] == e;
            assert(out@[j] == e);
            assert(ts@.contains(ts@[j]));
        }
        if exists|to: u16, a: H2Action|
            p.dfa_view().get(e.0, e.1) == Some((to, a)) && e.2 == (Trans {
                state: to,
                action: h2_action_bits(a, *rodata),
            }) {
            let (to, a) = choose|to: u16, a: H2Action|
                p.dfa_view().get(e.0, e.1) == Some((to, a)) && e.2 == (Trans {
                    state: to,
                    action: h2_action_bits(a, *rodata),
                });
            let t = (e.0, to, e.1, a);
            assert(ts@.contains(t));
            let j = choose|j: int| 0 <= j < ts@.len() && ts@[j] == t;
            assert(out@[j] == e);
        }
    }
    out
}

/// The names of the variables.
pub open spec fn names_of(vars: Seq<Variable>) -> Seq<Seq<char>> {
    var_views(vars).map_values(|v: VarView| var_name(v))
}

proof fn lemma_h1_stuck(d: H1View, names: Seq<Seq<char>>, k: int, s_init: u16, s_any: u16)
    requires
        0 <= k <= names.len(),
        h1_build(d, names.take(k), s_init, s_any).1 is Err,
    ensures
        h1_build(d, names, s_init, s_any) == h1_build(d, names.take(k), s_init, s_any),
    decreases names.len() - k,
{
    if k < names.len() {
        assert(names.take(k + 1).drop_last() =~= names.take(k));
        lemma_h1_stuck(d, names, k + 1, s_init, s_any);
    } else {
        assert(names.take(k) =~= names);
    }
}

proof fn lemma_h2_stuck(d: H2View, names: Seq<Seq<char>>, k: int, s_any: u16)
    requires
        0 <= k <= names.len(),
        h2_build(d, names.take(k), s_any).1 is Err,
    ensures
        h2_build(d, names, s_any) == h2_build(d, names.take(k), s_any),
    decreases names.len() - k,
{
    if k < names.len() {
        assert(names.take(k + 1).drop_last() =~= names.take(k));
        lemma_h2_stuck(d, names, k + 1, s_any);
    } else {
        assert(names.take(k) =~= names);
    }
}

fn build_h1(p: &mut HttpParser, vars: &Vec<Variable>) -> (r: Result<(), InitError>)
    requires
        old(p).wf(),
    ensures
        final(p).wf(),
        final(p).init_state() == old(p).init_state(),
        final(p).any_state() == old(p).any_state(),
        (final(p).dfa_view(), r) == h1_build(
            old(p).dfa_view(),
            names_of(vars@),
            old(p).init_state(),
            old(p).any_state(),
        ),
{
    let ghost names = names_of(vars@);
    let ghost d0 = p.dfa_view();
    let ghost (s_init, s_any) = (p.init_state(), p.any_state());
    assert(names.take(0).len() == 0);
    let mut failed: Option<InitError> = None;
    let mut i: usize = 0;
    while i < vars.len() && failed.is_none()
        invariant
            i <= vars@.len(),
            names == names_of(vars@),
            p.wf(),
            p.init_state() == s_init,
            p.any_state() == s_any,
            failed is None ==> (p.dfa_view(), Ok::<(), InitError>(())) == h1_build(
                d0,
                names.take(i as int),
                s_init,
                s_any,
            ),
            failed matches Some(e) ==> (p.dfa_view(), Err::<(), InitError>(e)) == h1_build(
                d0,
                names,
                s_init,
                s_any,
            ),
        decreases vars.len() - i,
    {
        let name = vars[i].name();
        let ghost n = name@;
        proof {
            assert(names.take(i + 1).drop_last() =~= names.take(i as int));
            assert(names[i as int] == n);
            assert(names.take(i + 1).last() == n);
        }
        let caps = p.num_captures();
        let ranges = p.num_ranges();
        let free = p.free_states() as u128;
        let ids_ok = caps < 254 && ranges < 254;
        let res = if str_eq(name, "method") {
            if !(ids_ok && free >= 17) {
                Err(InitError::OutOfIds)
            } else {
                match p.match_http_req_status_line() {
                    Ok(()) => Ok(()),
                    Err(e) => Err(InitError::Parse(e)),
                }
            }
        } else if str_eq(name, "path") || str_eq(name, "jwt_sig") {
            Ok(())
        } else if str_eq(name, "status_code") {
            if !(ids_ok && free >= 14) {
                Err(InitError::OutOfIds)
            } else {
                match p.match_http_status_code() {
                    Ok(()) => Ok(()),
                    Err(e) => Err(InitError::Parse(e)),
                }
            }
        } else if str_eq(name, "jwt_claims") {
            if !(ids_ok && free >= 37) {
                Err(InitError::OutOfIds)
            } else {
                match p.match_http_hdr_auth() {
                    Ok(()) => Ok(()),
                    Err(e) => Err(InitError::Parse(e)),
                }
            }
        } else {
            let len = chars_of(name).len() as u128;
            if !(ids_ok && free >= len + 12) {
                Err(InitError::OutOfIds)
            } else {
                match p.match_http_hdr(name) {
                    Ok(()) => Ok(()),
                    Err(e) => Err(InitError::Parse(e)),
                }
            }
        };
        match res {
            Ok(()) => {},
            Err(e) => {
                proof {
                    lemma_h1_stuck(d0, names, i + 1, s_init, s_any);
                }
                failed = Some(e);
            },
        }
        i = i + 1;
    }
    match failed {
        Some(e) => Err(e),
        None => {
            assert(names.take(vars@.len() as int) =~= names);
            Ok(())
        },
    }
}

fn build_h2(p: &mut Parser, vars: &Vec<Variable>) -> (r: Result<(), InitError>)
    requires
        old(p).wf(),
    ensures
        final(p).wf(),
        final(p).any_state() == old(p).any_state(),
        (final(p).dfa_view(), r) == h2_build(old(p).dfa_view(), names_of(vars@), old(p).any_state()),
{
    let ghost names = names_of(vars@);
    let ghost d0 = p.dfa_view();
    let ghost s_any = p.any_state();
    let mut failed: Option<InitError> = None;
    let mut i: usize = 0;
    while i < vars.len() && failed.is_none()
        invariant
            i <= vars@.len(),
            names == names_of(vars@),
            p.wf(),
            p.any_state() == s_any,
            failed is None ==> (p.dfa_view(), Ok::<(), InitError>(())) == h2_build(
                d0,
                names.take(i as int),
                s_any,
            ),
            failed matches Some(e) ==> (p.dfa_view(), Err::<(), InitError>(e)) == h2_build(
                d0,
                names,
                s_any,
            ),
        decreases vars.len() - i,
    {
        let name = vars[i].name();
        proof {
            assert(names.take(i + 1).drop_last() =~= names.take(i as int));
            assert(names[i as int] == name@);
            assert(names.take(i + 1).last() == name@);
            lemma_static_indices_small(name@);
        }
        let need = 8 + 4 * utf8_len(name);
        let caps = p.num_captures();
        let free = p.free_states();
        if !(caps < 255 && free as u128 >= need) {
            proof {
                lemma_h2_stuck(d0, names, i + 1, s_any);
            }
            failed = Some(InitError::OutOfIds);
        } else {
            match p.capture_http_hdr(name) {
                Ok(()) => {},
                Err(_) => {
                    failed = Some(InitError::OutOfIds);
                },
            }
        }
        i = i + 1;
    }
    match failed {
        Some(e) => Err(e),
        None => {
            assert(names.take(vars@.len() as int) =~= names);
            Ok(())
        },
    }
}

/// What the data plane is programmed with for `config`, its parsers using
/// the reserved states `s_init` and `s_any` and the action encodings of
/// `rodata`: the transitions of the parsers of `parsers_spec`, and the
/// accelerated network, its addresses in the byte order `order`.
pub fn init_dataplane(config: &Config, s_init: u16, s_any: u16, rodata: &Rodata, order: ByteOrder) -> (r: Result<
    DataplaneInit,
    InitError,
>)
    requires
        paths_fit(*config),
        config.network matches Some(c) ==> 1 <= c.mask <= 32,
    ensures
        match parsers_spec(*config, s_init, s_any) {
            Err(e) => r == Err::<DataplaneInit, InitError>(e),
            Ok((d1, d2)) => match r {
                Ok(init) => {
                    &&& forall|e: (u16, char, Trans)|
                        init.h1@.contains(e) <==> exists|to: u16, a: H1Action|
                            d1.get(e.0, e.1) == Some((to, a)) && e.2 == (Trans {
                                state: to,
                                action: h1_action_bits(a, *rodata),
                            })
                    &&& forall|e: (u16, u8, Trans)|
                        init.h2@.contains(e) <==> exists|to: u16, a: H2Action|
                            d2.get(e.0, e.1) == Some((to, a)) && e.2 == (Trans {
                                state: to,
                                action: h2_action_bits(a, *rodata),
                            })
                    &&& init.network is Some <==> config.network is Some
                    &&& init.network matches Some((start, end, gw)) ==> {
                        let c = config.network->0;
                        &&& start == octets_in(c.addr, order)
                        &&& end == start + two_pow((32 - c.mask) as nat)
                        &&& gw == octets_in(gateway_of(c.addr), order)
                    }
                },
                Err(e) => {
                    let c = config.network->0;
                    &&& e == InitError::NetworkRange
                    &&& config.network is Some
                    &&& octets_in(c.addr, order) + two_pow((32 - c.mask) as nat) > u32::MAX
                },
            },
        },
{
    let vars = config_ctx_vars(config);
    let ghost names = names_of(vars@);
    assert(names =~= ctx_names(*config));
    let mut h1 = HttpParser::new(s_init, s_any);
    assert(h1.dfa_view() == h1_start(s_init, s_any));
    build_h1(&mut h1, &vars)?;
    if h1.free_states() < 5 {
        return Err(InitError::OutOfIds);
    }
    if let Err(e) = h1.done_on_http_hdr_end() {
        return Err(InitError::Parse(e));
    }
    if h1.num_captures() >= 15 {
        return Err(InitError::TooManyPatterns);
    }
    let mut h2 = Parser::new(s_init, s_any);
    assert(h2.dfa_view() == h2_start(s_init, s_any));
    build_h2(&mut h2, &vars)?;
    if h2.num_captures() >= 15 {
        return Err(InitError::TooManyPatterns);
    }
    let h1_entries = h1_table(&h1, rodata);
    let h2_entries = h2_table(&h2, rodata);
    let network = match &config.network {
        None => None,
        Some(c) => Some(network_range(c, order)?),
    };
    Ok(DataplaneInit { h1: h1_entries, h2: h2_entries, network })
}

/// The accelerated network `c` as the data plane reads it: its first
/// address and the address after its last, as `u32` whose bytes in the
/// byte order `order` (the machine's) are the octets, and its gateway in
/// the same order; an error when the range runs past the last `u32`.
pub fn network_range(c: &Cidr, order: ByteOrder) -> (r: Result<(u32, u32, u32), InitError>)
    requires
        1 <= c.mask <= 32,
    ensures
        match r {
            Ok((start, end, gw)) => {
                &&& start == octets_in(c.addr, order)
                &&& end == start + two_pow((32 - c.mask) as nat)
                &&& gw == octets_in(gateway_of(c.addr), order)
            },
            Err(e) => {
                &&& e == InitError::NetworkRange
                &&& octets_in(c.addr, order) + two_pow((32 - c.mask) as nat) > u32::MAX
            },
        },
{
    let start = octets_u32(c.addr, order);
    let len = c.len();
    if start as u64 + len as u64 > u32::MAX as u64 {
        return Err(InitError::NetworkRange);
    }
    let gw = octets_u32(get_gw_ip(c.addr), order);
    Ok((start, start + len, gw))
}

/// The instances of a host.
pub open spec fn host_instances(h: Host) -> Seq<SocketAddress> {
    h.instances@
}

/// The addresses whose upstream FIB entries get a queue: every instance of
/// every host, in order, then the proxy's address and the TLS socket, when
/// they are configured.
pub open spec fn queue_addrs(c: Config) -> Seq<SocketAddress> {
    c.hosts@.map_values(|h: Host| host_instances(h)).flatten() + (match c.proxy {
        Some(p) => seq![p],
        None => Seq::empty(),
    }) + (match c.tls {
        Some(t) => seq![t],
        None => Seq::empty(),
    })
}

/// The FIB keys of `addrs`: each address with both sk_msg settings, 0
/// then 1.
pub open spec fn queue_keys(addrs: Seq<SocketAddress>, order: ByteOrder) -> Seq<(AddrKey, u32)> {
    Seq::new(2 * addrs.len(), |i: int| (addr_key_of(addrs[i / 2], order)->Ok_0, (i % 2) as u32))
}

/// The number of the addresses `addrs` begins with that are IPv4.
pub open spec fn ipv4_prefix(addrs: Seq<SocketAddress>) -> nat
    decreases addrs.len(),
{
    if addrs.len() > 0 && addrs[0].ip is V4 {
        1 + ipv4_prefix(addrs.drop_first())
    } else {
        0
    }
}

/// The upstream FIB keys that get a queue when the proxy starts listening,
/// in order, up to the first address that is not IPv4; that address stops
/// the listing with an error, after the queues of the addresses before it.
pub fn fib_queue_keys(config: &Config, order: ByteOrder) -> (r: (Vec<(AddrKey, u32)>, Option<NetError>))
    ensures
        ({
            let qa = queue_addrs(*config);
            let k = ipv4_prefix(qa);
            &&& r.0@ == queue_keys(qa.take(k as int), order)
            &&& r.1 == (if k < qa.len() {
                Some(NetError::NotIpv4)
            } else {
                None::<NetError>
            })
        }),
{
    let hosts = &config.hosts;
    let ghost g = |h: Host| host_instances(h);
    let mut addrs: Vec<SocketAddress> = Vec::new();
    let mut h: usize = 0;
    while h < hosts.len()
        invariant
            h <= hosts@.len(),
            g == (|x: Host| host_instances(x)),
            addrs@ == hosts@.take(h as int).map_values(g).flatten(),
        decreases hosts.len() - h,
    {
        let inst = &hosts[h].instances;
        let ghost before = addrs@;
        let mut k: usize = 0;
        while k < inst.len()
            invariant
                k <= inst@.len(),
                addrs@ == before + inst@.take(k as int),
            decreases inst.len() - k,
        {
            addrs.push(inst[k]);
            k = k + 1;
            assert(addrs@ =~= before + inst@.take(k as int));
        }
        proof {
            assert(inst@.take(inst@.len() as int) =~= inst@);
            assert(hosts@.take(h as int + 1).map_values(g) =~= hosts@.take(h as int).map_values(g).push(
                g(hosts@[h as int]),
            ));
            hosts@.take(h as int).map_values(g).lemma_flatten_push(g(hosts@[h as int]));
        }
        h = h + 1;
    }
    assert(hosts@.take(hosts@.len() as int) =~= hosts@);
    if let Some(p) = config.proxy {
        addrs.push(p);
    }
    if let Some(t) = config.tls {
        addrs.push(t);
    }
    let ghost qa = queue_addrs(*config);
    assert(addrs@ =~= qa);
    let mut out: Vec<(AddrKey, u32)> = Vec::new();
    let mut i: usize = 0;
    while i < addrs.len()
        invariant
            i <= addrs@.len(),
            addrs@ == qa,
            qa == queue_addrs(*config),
            forall|j: int| 0 <= j < i ==> (#[trigger] qa[j]).ip is V4,
            out@ =~= queue_keys(qa.take(i as int), order),
        decreases addrs.len() - i,
    {
        let key = match addr_key_of_exec(&addrs[i], order) {
            Ok(k) => k,
            Err(e) => {
                proof {
                    lemma_ipv4_prefix(qa, i as int);
                }
                return (out, Some(e));
            },
        };
        let ghost prev = out@;
        out.push((key, 0));
        out.push((key, 1));
        proof {
            let t = qa.take(i as int + 1);
            assert forall|j: int| 0 <= j < 2 * t.len() implies #[trigger] out@[j] == queue_keys(t, order)[j] by {
                if j < 2 * i {
                    assert(t[j / 2] == qa.take(i as int)[j / 2]);
                } else {
                    assert(j / 2 == i);
                }
            }
        }
        i = i + 1;
    }
    proof {
        lemma_ipv4_prefix(qa, qa.len() as int);
    }
    assert(qa.take(qa.len() as int) =~= qa);
    (out, None)
}

/// The IPv4 prefix ends at the first address that is not IPv4.
proof fn lemma_ipv4_prefix(qa: Seq<SocketAddress>, i: int)
    requires
        0 <= i <= qa.len(),
        forall|j: int| 0 <= j < i ==> (#[trigger] qa[j]).ip is V4,
        i == qa.len() || !(qa[i].ip is V4),
    ensures
        ipv4_prefix(qa) == i,
    decreases i,
{
    if i > 0 {
        let d = qa.drop_first();
        assert forall|j: int| 0 <= j < i - 1 implies (#[trigger] d[j]).ip is V4 by {
            assert(d[j] == qa[j + 1]);
            assert(qa[j + 1].ip is V4);
        }
        if i < qa.len() {
            assert(d[i - 1] == qa[i]);
        }
        lemma_ipv4_prefix(d, i - 1);
    } else {
        assert(qa.len() == 0 || !(qa[0].ip is V4));
    }
}

fn addr_key_of_exec(a: &SocketAddress, order: ByteOrder) -> (r: Result<AddrKey, NetError>)
    ensures
        r == addr_key_of(*a, order),
        r is Ok <==> a.ip is V4,
{
    AddrKey::try_from_addr(a, order)
}

} // verus!
