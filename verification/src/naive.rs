//! The forwarding state of the naive user-space proxy: its table of
//! sockets by forwarding token, the load of each connection, and the
//! choice of a socket for each message. Backends are named by their host
//! names, and the proxy keeps its tables itself.

use crate::config::{resolved_instance, Config, Host};
use crate::forwarding::{Direction, ForwardingDimension};
use crate::net::{parse_u32, u32_of, SocketAddress};
use crate::http_head::{
    conn_id_line, field_value, fields_of, insert_conn_id, message_fields, message_head, values_text,
    HeadError, HeadStatus,
};
use crate::lb::pairs_of;
use crate::table::{
    addr_index, bumped, key_index, lemma_key_index_bounds, lemma_key_index_take, lemma_lookup_put,
    lookup, put, LoadState,
};
use crate::text::{chars_of, str_eq};
use vstd::prelude::*;

verus! {

broadcast use vstd::string::group_string_axioms;

/// Where a message may be forwarded, the backend named by its host name.
#[derive(Clone, Debug, PartialEq, Eq)]
pub struct ForwardingToken {
    pub conn_id: ForwardingDimension<u32>,
    pub direction: ForwardingDimension<Direction>,
    pub backend: ForwardingDimension<String>,
    pub instance: ForwardingDimension<u16>,
}

/// A forwarding token by value.
pub ghost struct TokenView {
    pub conn_id: ForwardingDimension<u32>,
    pub direction: ForwardingDimension<Direction>,
    pub backend: ForwardingDimension<Seq<char>>,
    pub instance: ForwardingDimension<u16>,
}

/// A text dimension by value.
pub open spec fn text_dim(d: ForwardingDimension<String>) -> ForwardingDimension<Seq<char>> {
    match d {
        ForwardingDimension::Concrete(s) => ForwardingDimension::Concrete(s@),
        ForwardingDimension::Min => ForwardingDimension::Min,
        ForwardingDimension::DontCare => ForwardingDimension::DontCare,
    }
}

impl View for ForwardingToken {
    type V = TokenView;

    open spec fn view(&self) -> TokenView {
        TokenView {
            conn_id: self.conn_id,
            direction: self.direction,
            backend: text_dim(self.backend),
            instance: self.instance,
        }
    }
}

/// The token that leaves every dimension open.
pub open spec fn open_token() -> TokenView {
    TokenView {
        conn_id: ForwardingDimension::DontCare,
        direction: ForwardingDimension::DontCare,
        backend: ForwardingDimension::DontCare,
        instance: ForwardingDimension::DontCare,
    }
}

fn copy_dim(d: &ForwardingDimension<String>) -> (r: ForwardingDimension<String>)
    ensures
        text_dim(r) == text_dim(*d),
{
    match d {
        ForwardingDimension::Concrete(s) => ForwardingDimension::Concrete(s.clone()),
        ForwardingDimension::Min => ForwardingDimension::Min,
        ForwardingDimension::DontCare => ForwardingDimension::DontCare,
    }
}

fn same_text_dim(a: &ForwardingDimension<String>, b: &ForwardingDimension<String>) -> (r: bool)
    ensures
        r == (text_dim(*a) == text_dim(*b)),
{
    match (a, b) {
        (ForwardingDimension::Concrete(x), ForwardingDimension::Concrete(y)) => str_eq(
            x.as_str(),
            y.as_str(),
        ),
        (ForwardingDimension::Min, ForwardingDimension::Min) => true,
        (ForwardingDimension::DontCare, ForwardingDimension::DontCare) => true,
        _ => false,
    }
}

impl ForwardingToken {
    /// The token that leaves every dimension open.
    pub fn dont_care() -> (r: ForwardingToken)
        ensures
            r@ == open_token(),
    {
        ForwardingToken {
            conn_id: ForwardingDimension::DontCare,
            direction: ForwardingDimension::DontCare,
            backend: ForwardingDimension::DontCare,
            instance: ForwardingDimension::DontCare,
        }
    }

    /// Whether the two tokens are equal.
    pub fn same(&self, other: &ForwardingToken) -> (r: bool)
        ensures
            r == (self@ == other@),
    {
        self.conn_id == other.conn_id && self.direction == other.direction && self.instance
            == other.instance && same_text_dim(&self.backend, &other.backend)
    }

    /// A copy of the token.
    pub fn copy(&self) -> (r: ForwardingToken)
        ensures
            r@ == self@,
    {
        ForwardingToken {
            conn_id: self.conn_id,
            direction: self.direction,
            backend: copy_dim(&self.backend),
            instance: self.instance,
        }
    }
}

/// Where a message goes.
#[derive(Clone, Debug, PartialEq, Eq)]
pub enum Destination {
    /// A socket the proxy has.
    Existing(SocketAddress),
    /// A new connection to an address, to be registered under a token.
    New(SocketAddress, ForwardingToken),
}

/// Why a message cannot be forwarded.
#[derive(Clone, Copy, Debug, PartialEq, Eq, Structural)]
pub enum NaiveError {
    /// The request has no Backend header.
    NoBackend,
    /// The response has no conn-id header.
    NoConnId,
    /// The conn-id header is not a number.
    InvalidConnId,
    /// The response has no signature header, or an empty one.
    NoSignature,
    /// No least loaded instance is known for the token.
    NoMinInstance,
    /// A downstream token has more than one socket.
    AmbiguousSocket,
    /// No socket is registered for a downstream connection.
    NoDownstreamSocket,
    /// No configured instance matches the token.
    UnresolvedInstance,
    /// The message head cannot be read.
    Head(HeadError),
}

/// The pipeline's tables by value.
pub ghost struct PipelineView {
    /// The counters of each downstream connection.
    pub ds: Seq<(SocketAddress, LoadState)>,
    /// Whether each upstream socket is reserved.
    pub us: Seq<(SocketAddress, bool)>,
    /// The counters of each (backend, instance).
    pub loads: Seq<((Seq<char>, u16), LoadState)>,
    /// The sockets of each token.
    pub fib: Seq<(TokenView, Seq<SocketAddress>)>,
    /// The least loaded instance of each group.
    pub min: Seq<(TokenView, u16)>,
}

/// The counters of each (backend, instance) by value.
pub open spec fn loads_view(s: Seq<(String, u16, LoadState)>) -> Seq<((Seq<char>, u16), LoadState)> {
    s.map_values(|e: (String, u16, LoadState)| ((e.0@, e.1), e.2))
}

/// The forwarding state of the naive proxy.
pub struct Pipeline {
    pub config: Config,
    pub ds_state: Vec<(SocketAddress, LoadState)>,
    pub us_state: Vec<(SocketAddress, bool)>,
    pub us_load_state: Vec<(String, u16, LoadState)>,
    pub fib: Vec<(ForwardingToken, Vec<SocketAddress>)>,
    pub min_instance: Vec<(ForwardingToken, u16)>,
}

impl View for Pipeline {
    type V = PipelineView;

    open spec fn view(&self) -> PipelineView {
        PipelineView {
            ds: self.ds_state@,
            us: self.us_state@,
            loads: loads_view(self.us_load_state@),
            fib: self.fib@.map_values(|e: (ForwardingToken, Vec<SocketAddress>)| (e.0@, e.1@)),
            min: self.min_instance@.map_values(|e: (ForwardingToken, u16)| (e.0@, e.1)),
        }
    }
}

fn token_index<V>(s: &Vec<(ForwardingToken, V)>, t: &ForwardingToken) -> (r: Option<usize>)
    ensures
        match r {
            Some(i) => i < s@.len() && s@[i as int].0@ == t@ && forall|j: int|
                0 <= j < i ==> (#[trigger] s@[j]).0@ != t@,
            None => forall|j: int| 0 <= j < s@.len() ==> (#[trigger] s@[j]).0@ != t@,
        },
{
    let mut i: usize = 0;
    while i < s.len()
        invariant
            i <= s@.len(),
            forall|j: int| 0 <= j < i ==> (#[trigger] s@[j]).0@ != t@,
        decreases s.len() - i,
    {
        if s[i].0.same(t) {
            return Some(i);
        }
        i = i + 1;
    }
    None
}

/// The position `token_index` found is the one `key_index` names in the
/// view of the table.
proof fn lemma_token_index<V, W>(s: Seq<(ForwardingToken, V)>, sv: Seq<(TokenView, W)>, t: TokenView, n: int)
    requires
        sv.len() == s.len(),
        forall|j: int| 0 <= j < s.len() ==> (#[trigger] sv[j]).0 == s[j].0@,
        0 <= n <= s.len(),
        forall|j: int| 0 <= j < n ==> (#[trigger] s[j]).0@ != t,
        n == s.len() || s[n].0@ == t,
    ensures
        key_index(sv, t) == (if n < s.len() {
            n
        } else {
            -1
        }),
{
    assert forall|j: int| 0 <= j < n implies sv[j].0 != t by {
        assert(sv[j].0 == s[j].0@);
        assert(s[j].0@ != t);
    }
    lemma_key_index_take(sv, t, n);
}

fn load_index(s: &Vec<(String, u16, LoadState)>, backend: &str, port: u16) -> (r: Option<usize>)
    ensures
        ({
            let sv = loads_view(s@);
            match r {
                Some(i) => i < s@.len() && key_index(sv, (backend@, port)) == i,
                None => key_index(sv, (backend@, port)) == -1,
            }
        }),
{
    let ghost sv = loads_view(s@);
    let mut i: usize = 0;
    while i < s.len()
        invariant
            i <= s@.len(),
            sv == loads_view(s@),
            forall|j: int| 0 <= j < i ==> sv[j].0 != (backend@, port),
        decreases s.len() - i,
    {
        if s[i].1 == port && str_eq(s[i].0.as_str(), backend) {
            proof {
                lemma_key_index_take(sv, (backend@, port), i as int);
            }
            return Some(i);
        }
        i = i + 1;
    }
    proof {
        lemma_key_index_take(sv, (backend@, port), sv.len() as int);
    }
    None
}

fn bump(l: LoadState, n: u32) -> (r: LoadState)
    ensures
        r == bumped(Some(l), n),
{
    LoadState { num_bytes: l.num_bytes.wrapping_add(n), num_reqs: l.num_reqs.wrapping_add(1) }
}

impl Pipeline {
    /// A pipeline with empty tables.
    pub fn new(config: Config) -> (r: Pipeline)
        requires
            all_served(config.hosts@),
        ensures
            r.config == config,
            r@ == (PipelineView {
                ds: Seq::empty(),
                us: Seq::empty(),
                loads: Seq::empty(),
                fib: Seq::empty(),
                min: mins_after(Seq::empty(), config.hosts@, Seq::empty()),
            }),
    {
        let mut r = Pipeline {
            config,
            ds_state: Vec::new(),
            us_state: Vec::new(),
            us_load_state: Vec::new(),
            fib: Vec::new(),
            min_instance: Vec::new(),
        };
        assert(r@.loads =~= Seq::empty());
        assert(r@.fib =~= Seq::empty());
        assert(r@.min =~= Seq::empty());
        r.update_min_instances();
        r
    }

    /// Counts a request of `n` header fields from downstream `origin`.
    pub fn update_ds_conn(&mut self, origin: SocketAddress, n: u32)
        ensures
            final(self).config == old(self).config,
            final(self)@ == (PipelineView {
                ds: put(old(self)@.ds, origin, bumped(lookup(old(self)@.ds, origin), n)),
                ..old(self)@
            }),
    {
        proof {
            lemma_key_index_bounds(self.ds_state@, origin);
        }
        match addr_index(&self.ds_state, &origin) {
            Some(i) => {
                let l = bump(self.ds_state[i].1, n);
                self.ds_state.set(i, (origin, l));
            },
            None => {
                self.ds_state.push((origin, LoadState { num_bytes: n, num_reqs: 1 }));
            },
        }
    }

    /// Counts a response of `n` header fields from upstream `origin` of the
    /// backend its signature names, and frees its socket.
    pub fn update_us_conn(&mut self, signature: Option<&str>, origin: SocketAddress, n: u32) -> (r:
        Result<(), NaiveError>)
        ensures
            final(self).config == old(self).config,
            match signature {
                Some(s) if s@.len() > 0 => r is Ok && final(self)@ == (PipelineView {
                    loads: put(
                        old(self)@.loads,
                        (s@, origin.port),
                        bumped(lookup(old(self)@.loads, (s@, origin.port)), n),
                    ),
                    us: put(old(self)@.us, origin, false),
                    ..old(self)@
                }),
                _ => r == Err::<(), NaiveError>(NaiveError::NoSignature) && final(self)@ == old(self)@,
            },
    {
        let s = match signature {
            Some(s) => s,
            None => {
                return Err(NaiveError::NoSignature);
            },
        };
        if chars_of(s).len() == 0 {
            return Err(NaiveError::NoSignature);
        }
        let ghost v0 = self@;
        let ghost lv = v0.loads;
        proof {
            lemma_key_index_bounds(lv, (s@, origin.port));
            lemma_key_index_bounds(self.us_state@, origin);
        }
        match load_index(&self.us_load_state, s, origin.port) {
            Some(i) => {
                let l = bump(self.us_load_state[i].2, n);
                let name = self.us_load_state[i].0.clone();
                self.us_load_state.set(i, (name, origin.port, l));
                assert(self@.loads =~= put(lv, (s@, origin.port), bumped(lookup(lv, (s@, origin.port)), n)));
            },
            None => {
                self.us_load_state.push((s.to_string(), origin.port, LoadState { num_bytes: n, num_reqs: 1 }));
                assert(self@.loads =~= put(lv, (s@, origin.port), bumped(lookup(lv, (s@, origin.port)), n)));
            },
        }
        match addr_index(&self.us_state, &origin) {
            Some(i) => {
                self.us_state.set(i, (origin, false));
            },
            None => {
                self.us_state.push((origin, false));
            },
        }
        assert(self@.fib =~= v0.fib);
        assert(self@.min =~= v0.min);
        Ok(())
    }
}

/// The token that asks for the least loaded instance of `backend`.
pub open spec fn group_token(backend: Seq<char>) -> TokenView {
    TokenView {
        conn_id: ForwardingDimension::DontCare,
        direction: ForwardingDimension::Concrete(Direction::Upstream),
        backend: ForwardingDimension::Concrete(backend),
        instance: ForwardingDimension::Min,
    }
}

/// The token under which the downstream connection from `port` is
/// registered, so that responses find their way back.
pub open spec fn return_token(port: u16) -> TokenView {
    TokenView {
        conn_id: ForwardingDimension::Concrete(port as u32),
        direction: ForwardingDimension::Concrete(Direction::Downstream),
        backend: ForwardingDimension::DontCare,
        instance: ForwardingDimension::DontCare,
    }
}

/// A destination by value.
pub ghost enum DestView {
    Existing(SocketAddress),
    New(SocketAddress, TokenView),
}

impl View for Destination {
    type V = DestView;

    open spec fn view(&self) -> DestView {
        match self {
            Destination::Existing(a) => DestView::Existing(*a),
            Destination::New(a, t) => DestView::New(*a, t@),
        }
    }
}

/// A choice of destination by value.
pub open spec fn result_view(r: Result<Destination, NaiveError>) -> Result<DestView, NaiveError> {
    match r {
        Ok(d) => Ok(d@),
        Err(e) => Err(e),
    }
}

/// The token a message is looked up under: a request for the least loaded
/// instance asks for the instance recorded for its group; none when no
/// instance is recorded.
pub open spec fn lookup_token(ft: TokenView, min: Seq<(TokenView, u16)>) -> Option<TokenView> {
    if ft.instance == ForwardingDimension::<u16>::Min {
        match lookup(min, ft) {
            Some(i) => Some(TokenView { instance: ForwardingDimension::Concrete(i), ..ft }),
            None => None,
        }
    } else {
        Some(ft)
    }
}

/// The first position in `addrs` of a socket that is known and not
/// reserved, or -1.
pub open spec fn free_index(addrs: Seq<SocketAddress>, us: Seq<(SocketAddress, bool)>) -> int
    decreases addrs.len(),
{
    if addrs.len() == 0 {
        -1
    } else {
        let p = free_index(addrs.drop_last(), us);
        if p >= 0 {
            p
        } else if lookup(us, addrs.last()) == Some(false) {
            addrs.len() - 1
        } else {
            -1
        }
    }
}

/// The configured instance a concrete token names.
pub open spec fn resolve_view(hosts: Seq<Host>, ft: TokenView) -> Option<SocketAddress> {
    match (ft.backend, ft.instance) {
        (ForwardingDimension::Concrete(b), ForwardingDimension::Concrete(i)) => resolved_instance(
            hosts,
            b,
            i,
        ),
        _ => None,
    }
}

/// The token of a new upstream connection to instance `port` of `backend`.
pub open spec fn upstream_token(backend: ForwardingDimension<Seq<char>>, port: u16) -> TokenView {
    TokenView {
        conn_id: ForwardingDimension::DontCare,
        direction: ForwardingDimension::Concrete(Direction::Upstream),
        backend,
        instance: ForwardingDimension::Concrete(port),
    }
}

/// Where a message with token `ft` goes, and the reservations after it: a
/// free socket registered under the token, which is then reserved; for a
/// message to downstream, the one socket registered; otherwise, upstream, a
/// new connection to the configured instance the token names.
pub open spec fn selected(v: PipelineView, hosts: Seq<Host>, ft: TokenView) -> (
    Result<DestView, NaiveError>,
    Seq<(SocketAddress, bool)>,
) {
    match lookup_token(ft, v.min) {
        None => (Err(NaiveError::NoMinInstance), v.us),
        Some(t) => {
            let found = lookup(v.fib, t);
            let up = t.direction == ForwardingDimension::Concrete(Direction::Upstream);
            if found is Some && up && free_index(found->0, v.us) >= 0 {
                let a = found->0[free_index(found->0, v.us)];
                (Ok(DestView::Existing(a)), put(v.us, a, true))
            } else if found is Some && !up {
                if found->0.len() == 1 {
                    (Ok(DestView::Existing(found->0[0])), v.us)
                } else {
                    (Err(NaiveError::AmbiguousSocket), v.us)
                }
            } else if ft.direction == ForwardingDimension::Concrete(Direction::Downstream) {
                (Err(NaiveError::NoDownstreamSocket), v.us)
            } else {
                match resolve_view(hosts, t) {
                    Some(a) => (Ok(DestView::New(a, upstream_token(ft.backend, a.port))), v.us),
                    None => (Err(NaiveError::UnresolvedInstance), v.us),
                }
            }
        },
    }
}

proof fn lemma_free_index(addrs: Seq<SocketAddress>, us: Seq<(SocketAddress, bool)>)
    ensures
        -1 <= free_index(addrs, us) < addrs.len(),
        free_index(addrs, us) >= 0 ==> lookup(us, addrs[free_index(addrs, us)]) == Some(false),
    decreases addrs.len(),
{
    if addrs.len() > 0 {
        lemma_free_index(addrs.drop_last(), us);
    }
}

proof fn lemma_free_index_take(addrs: Seq<SocketAddress>, us: Seq<(SocketAddress, bool)>, n: int)
    requires
        0 <= n <= addrs.len(),
        forall|j: int| 0 <= j < n ==> lookup(us, #[trigger] addrs[j]) != Some(false),
        n == addrs.len() || lookup(us, addrs[n]) == Some(false),
    ensures
        free_index(addrs, us) == (if n < addrs.len() {
            n
        } else {
            -1
        }),
    decreases addrs.len(),
{
    if addrs.len() > 0 {
        if n < addrs.len() - 1 {
            assert(addrs.drop_last()[n] == addrs[n]);
            assert forall|j: int| 0 <= j < n implies lookup(us, #[trigger] addrs.drop_last()[j])
                != Some(false) by {
                assert(addrs.drop_last()[j] == addrs[j]);
            }
            lemma_free_index_take(addrs.drop_last(), us, n);
        } else {
            assert forall|j: int| 0 <= j < addrs.len() - 1 implies lookup(
                us,
                #[trigger] addrs.drop_last()[j],
            ) != Some(false) by {
                assert(addrs.drop_last()[j] == addrs[j]);
            }
            lemma_free_index_take(addrs.drop_last(), us, addrs.len() - 1);
        }
    }
}

impl Pipeline {
    /// Forwards a downstream request to the backend its Backend header
    /// names: `ft` then asks for the least loaded instance of that backend,
    /// and the downstream socket is registered under the token that leads
    /// back to it.
    pub fn forward_ds_conn(&mut self, ft: &mut ForwardingToken, backend: Option<&str>, origin: SocketAddress) -> (r: Result<(), NaiveError>)
        ensures
            final(self).config == old(self).config,
            match backend {
                None => r == Err::<(), NaiveError>(NaiveError::NoBackend) && final(self)@ == old(self)@
                    && final(ft)@ == old(ft)@,
                Some(b) => r is Ok && final(ft)@ == (TokenView {
                    direction: ForwardingDimension::Concrete(Direction::Upstream),
                    backend: ForwardingDimension::Concrete(b@),
                    instance: ForwardingDimension::Min,
                    ..old(ft)@
                }) && final(self)@ == (PipelineView {
                    fib: put(old(self)@.fib, return_token(origin.port), seq![origin]),
                    ..old(self)@
                }),
            },
    {
        let b = match backend {
            Some(b) => b,
            None => return Err(NaiveError::NoBackend),
        };
        ft.direction = ForwardingDimension::Concrete(Direction::Upstream);
        ft.backend = ForwardingDimension::Concrete(b.to_string());
        ft.instance = ForwardingDimension::Min;
        let inv = ForwardingToken {
            conn_id: ForwardingDimension::Concrete(origin.port as u32),
            direction: ForwardingDimension::Concrete(Direction::Downstream),
            backend: ForwardingDimension::DontCare,
            instance: ForwardingDimension::DontCare,
        };
        let ghost v0 = self@;
        let ghost fv = v0.fib;
        proof {
            lemma_key_index_bounds(fv, inv@);
        }
        let mut addrs: Vec<SocketAddress> = Vec::new();
        addrs.push(origin);
        assert(addrs@ =~= seq![origin]);
        let ghost tv = inv@;
        match token_index(&self.fib, &inv) {
            Some(i) => {
                proof {
                    lemma_token_index(self.fib@, fv, tv, i as int);
                }
                self.fib.set(i, (inv, addrs));
            },
            None => {
                proof {
                    lemma_token_index(self.fib@, fv, tv, fv.len() as int);
                }
                self.fib.push((inv, addrs));
            },
        }
        assert(self@.fib =~= put(fv, return_token(origin.port), seq![origin]));
        assert(self@.loads =~= v0.loads);
        assert(self@.min =~= v0.min);
        Ok(())
    }

    /// Forwards an upstream response back to the downstream connection its
    /// conn-id header names.
    pub fn forward_us_conn(&self, ft: &mut ForwardingToken, conn_id: Option<&str>) -> (r: Result<(), NaiveError>)
        ensures
            match conn_id {
                None => r == Err::<(), NaiveError>(NaiveError::NoConnId) && final(ft)@ == old(ft)@,
                Some(c) => match u32_of(c@) {
                    None => r == Err::<(), NaiveError>(NaiveError::InvalidConnId) && final(ft)@
                        == old(ft)@,
                    Some(id) => r is Ok && final(ft)@ == (TokenView {
                        conn_id: ForwardingDimension::Concrete(id),
                        direction: ForwardingDimension::Concrete(Direction::Downstream),
                        ..old(ft)@
                    }),
                },
            },
    {
        let c = match conn_id {
            Some(c) => c,
            None => return Err(NaiveError::NoConnId),
        };
        let id = match parse_u32(&chars_of(c)) {
            Some(id) => id,
            None => return Err(NaiveError::InvalidConnId),
        };
        ft.conn_id = ForwardingDimension::Concrete(id);
        ft.direction = ForwardingDimension::Concrete(Direction::Downstream);
        Ok(())
    }

    /// Registers the socket `addr` under the token `ft`, after those
    /// registered before.
    pub fn add_sock(&mut self, ft: ForwardingToken, addr: SocketAddress)
        ensures
            final(self).config == old(self).config,
            final(self)@ == (PipelineView {
                fib: put(
                    old(self)@.fib,
                    ft@,
                    match lookup(old(self)@.fib, ft@) {
                        Some(v) => v.push(addr),
                        None => seq![addr],
                    },
                ),
                ..old(self)@
            }),
    {
        let ghost v0 = self@;
        let ghost fv = v0.fib;
        proof {
            lemma_key_index_bounds(fv, ft@);
        }
        let ghost tv = ft@;
        match token_index(&self.fib, &ft) {
            Some(i) => {
                proof {
                    lemma_token_index(self.fib@, fv, tv, i as int);
                }
                let mut addrs = self.fib[i].1.clone();
                assert(addrs@ == fv[i as int].1);
                addrs.push(addr);
                self.fib.set(i, (ft, addrs));
            },
            None => {
                proof {
                    lemma_token_index(self.fib@, fv, tv, fv.len() as int);
                }
                let mut addrs: Vec<SocketAddress> = Vec::new();
                addrs.push(addr);
                assert(addrs@ =~= seq![addr]);
                self.fib.push((ft, addrs));
            },
        }
        assert(self@.fib =~= put(fv, ft@, match lookup(fv, ft@) {
            Some(v) => v.push(addr),
            None => seq![addr],
        }));
        assert(self@.loads =~= v0.loads);
        assert(self@.min =~= v0.min);
    }
}

/// The load by which instance `a` of backend `name` is ranked: the header
/// fields counted from it, or the largest count when nothing is known.
pub open spec fn load_key(loads: Seq<((Seq<char>, u16), LoadState)>, name: Seq<char>, a: SocketAddress) -> u32 {
    match lookup(loads, (name, a.port)) {
        Some(l) => l.num_bytes,
        None => u32::MAX,
    }
}

/// The position of the first of `insts` with the least load.
pub open spec fn least_index(insts: Seq<SocketAddress>, name: Seq<char>, loads: Seq<((Seq<char>, u16), LoadState)>) -> int
    decreases insts.len(),
{
    if insts.len() <= 1 {
        0
    } else {
        let p = least_index(insts.drop_last(), name, loads);
        if load_key(loads, name, insts.last()) < load_key(loads, name, insts[p]) {
            insts.len() - 1
        } else {
            p
        }
    }
}

/// The least loaded instances recorded for `hosts`, one after the other,
/// over the table `min`.
pub open spec fn mins_after(min: Seq<(TokenView, u16)>, hosts: Seq<Host>, loads: Seq<((Seq<char>, u16), LoadState)>) -> Seq<(TokenView, u16)>
    decreases hosts.len(),
{
    if hosts.len() == 0 {
        min
    } else {
        let h = hosts.last();
        let insts = h.instances@;
        put(
            mins_after(min, hosts.drop_last(), loads),
            group_token(h.name@),
            insts[least_index(insts, h.name@, loads)].port,
        )
    }
}

/// Whether every host has an instance.
pub open spec fn all_served(hosts: Seq<Host>) -> bool {
    forall|i: int| 0 <= i < hosts.len() ==> (#[trigger] hosts[i]).instances@.len() > 0
}

/// The instance `least_index` picks has the least load of all, and those
/// before it have more.
pub proof fn law_least_loaded_first(insts: Seq<SocketAddress>, name: Seq<char>, loads: Seq<((Seq<char>, u16), LoadState)>)
    requires
        insts.len() > 0,
    ensures
        0 <= least_index(insts, name, loads) < insts.len(),
        forall|j: int|
            0 <= j < insts.len() ==> load_key(loads, name, insts[least_index(insts, name, loads)])
                <= load_key(loads, name, #[trigger] insts[j]),
        forall|j: int|
            0 <= j < least_index(insts, name, loads) ==> load_key(loads, name, insts[least_index(insts, name, loads)])
                < load_key(loads, name, #[trigger] insts[j]),
    decreases insts.len(),
{
    if insts.len() > 1 {
        let d = insts.drop_last();
        law_least_loaded_first(d, name, loads);
        let p = least_index(d, name, loads);
        assert(d[p] == insts[p]);
        assert forall|j: int| 0 <= j < insts.len() - 1 implies #[trigger] insts[j] == d[j] by {}
    }
}

fn load_key_exec(loads: &Vec<(String, u16, LoadState)>, name: &str, a: &SocketAddress) -> (r: u32)
    ensures
        r == load_key(loads_view(loads@), name@, *a),
{
    proof {
        lemma_key_index_bounds(loads_view(loads@), (name@, a.port));
    }
    match load_index(loads, name, a.port) {
        Some(i) => loads[i].2.num_bytes,
        None => u32::MAX,
    }
}

fn least_instance(insts: &Vec<SocketAddress>, name: &str, loads: &Vec<(String, u16, LoadState)>) -> (r: usize)
    requires
        insts@.len() > 0,
    ensures
        r == least_index(insts@, name@, loads_view(loads@)),
        r < insts@.len(),
{
    let ghost lv = loads_view(loads@);
    let mut best: usize = 0;
    let mut best_key = load_key_exec(loads, name, &insts[0]);
    let mut k: usize = 1;
    assert(insts@.take(1).len() == 1);
    while k < insts.len()
        invariant
            1 <= k <= insts@.len(),
            lv == loads_view(loads@),
            best < k,
            best == least_index(insts@.take(k as int), name@, lv),
            best_key == load_key(lv, name@, insts@[best as int]),
        decreases insts.len() - k,
    {
        let key = load_key_exec(loads, name, &insts[k]);
        proof {
            let t = insts@.take(k as int + 1);
            assert(t.drop_last() =~= insts@.take(k as int));
            assert(t.last() == insts@[k as int]);
            assert(t.drop_last()[best as int] == insts@[best as int]);
        }
        if key < best_key {
            best = k;
            best_key = key;
        }
        k = k + 1;
    }
    assert(insts@.take(insts@.len() as int) =~= insts@);
    best
}

impl Pipeline {
    /// Records, for each configured host in turn, its first least loaded
    /// instance as the one to which requests for the host go.
    pub fn update_min_instances(&mut self)
        requires
            all_served(old(self).config.hosts@),
        ensures
            final(self).config == old(self).config,
            final(self)@ == (PipelineView {
                min: mins_after(old(self)@.min, old(self).config.hosts@, old(self)@.loads),
                ..old(self)@
            }),
    {
        let ghost v0 = self@;
        let ghost c0 = self.config;
        let ghost hs = self.config.hosts@;
        let mut i: usize = 0;
        assert(hs.take(0) =~= Seq::<Host>::empty());
        while i < self.config.hosts.len()
            invariant
                i <= hs.len(),
                self.config == c0,
                hs == c0.hosts@,
                all_served(hs),
                self@ == (PipelineView { min: mins_after(v0.min, hs.take(i as int), v0.loads), ..v0 }),
            decreases hs.len() - i,
        {
            assert(hs[i as int].instances@.len() > 0);
            let best = least_instance(&self.config.hosts[i].instances, self.config.hosts[i].name.as_str(), &self.us_load_state);
            let port = self.config.hosts[i].instances[best].port;
            let name = self.config.hosts[i].name.clone();
            let tok = ForwardingToken {
                conn_id: ForwardingDimension::DontCare,
                direction: ForwardingDimension::Concrete(Direction::Upstream),
                backend: ForwardingDimension::Concrete(name),
                instance: ForwardingDimension::Min,
            };
            let ghost mv = self@.min;
            let ghost tv = tok@;
            assert(tv == group_token(hs[i as int].name@));
            proof {
                lemma_key_index_bounds(mv, tv);
            }
            match token_index(&self.min_instance, &tok) {
                Some(j) => {
                    proof {
                        lemma_token_index(self.min_instance@, mv, tv, j as int);
                    }
                    self.min_instance.set(j, (tok, port));
                },
                None => {
                    proof {
                        lemma_token_index(self.min_instance@, mv, tv, mv.len() as int);
                    }
                    self.min_instance.push((tok, port));
                },
            }
            proof {
                let t = hs.take(i as int + 1);
                assert(t.drop_last() =~= hs.take(i as int));
                assert(t.last() == hs[i as int]);
                assert(self@.min =~= put(mv, tv, port));
            }
            i = i + 1;
        }
        assert(hs.take(hs.len() as int) =~= hs);
    }

    /// Chooses where a message with token `ft` goes. A free socket that is
    /// taken is reserved until a response frees it.
    pub fn select_sock(&mut self, ft: &ForwardingToken) -> (r: Result<Destination, NaiveError>)
        ensures
            final(self).config == old(self).config,
            (result_view(r), final(self)@.us) == selected(old(self)@, old(self).config.hosts@, ft@),
            final(self)@ == (PipelineView { us: final(self)@.us, ..old(self)@ }),
    {
        let ghost v0 = self@;
        let t = match ft.instance {
            ForwardingDimension::Min => {
                proof {
                    lemma_key_index_bounds(v0.min, ft@);
                }
                match token_index(&self.min_instance, ft) {
                    Some(i) => {
                        proof {
                            lemma_token_index(self.min_instance@, v0.min, ft@, i as int);
                        }
                        ForwardingToken {
                            conn_id: ft.conn_id,
                            direction: ft.direction,
                            backend: copy_dim(&ft.backend),
                            instance: ForwardingDimension::Concrete(self.min_instance[i].1),
                        }
                    },
                    None => {
                        proof {
                            lemma_token_index(self.min_instance@, v0.min, ft@, v0.min.len() as int);
                        }
                        return Err(NaiveError::NoMinInstance);
                    },
                }
            },
            _ => ft.copy(),
        };
        assert(lookup_token(ft@, v0.min) == Some(t@));
        proof {
            lemma_key_index_bounds(v0.fib, t@);
        }
        let up = t.direction == ForwardingDimension::Concrete(Direction::Upstream);
        match token_index(&self.fib, &t) {
            Some(i) => {
                proof {
                    lemma_token_index(self.fib@, v0.fib, t@, i as int);
                }
                let addrs = &self.fib[i].1;
                assert(lookup(v0.fib, t@) == Some(addrs@));
                if up {
                    let mut k: usize = 0;
                    let mut chosen: Option<(SocketAddress, usize)> = None;
                    while k < addrs.len()
                        invariant_except_break
                            chosen is None,
                        invariant
                            k <= addrs@.len(),
                            self@ == v0,
                            *addrs == self.fib@[i as int].1,
                            forall|j: int| 0 <= j < k ==> lookup(v0.us, #[trigger] addrs@[j]) != Some(false),
                        ensures
                            match chosen {
                                Some((a, p)) => k < addrs@.len() && a == addrs@[k as int] && lookup(v0.us, a)
                                    == Some(false) && p < v0.us.len() && key_index(v0.us, a) == p,
                                None => k == addrs@.len(),
                            },
                            forall|j: int| 0 <= j < k ==> lookup(v0.us, #[trigger] addrs@[j]) != Some(false),
                        decreases addrs.len() - k,
                    {
                        let a = addrs[k];
                        proof {
                            lemma_key_index_bounds(v0.us, a);
                        }
                        match addr_index(&self.us_state, &a) {
                            Some(p) => {
                                if !self.us_state[p].1 {
                                    chosen = Some((a, p));
                                    break;
                                }
                            },
                            None => {},
                        }
                        k = k + 1;
                    }
                    if let Some((a, p)) = chosen {
                        proof {
                            lemma_free_index_take(addrs@, v0.us, k as int);
                        }
                        self.us_state.set(p, (a, true));
                        assert(self@.us =~= put(v0.us, a, true));
                        assert(self@.loads =~= v0.loads);
                        assert(self@.fib =~= v0.fib);
                        assert(self@.min =~= v0.min);
                        return Ok(Destination::Existing(a));
                    }
                    proof {
                        lemma_free_index_take(addrs@, v0.us, addrs@.len() as int);
                    }
                } else {
                    if addrs.len() == 1 {
                        return Ok(Destination::Existing(addrs[0]));
                    } else {
                        return Err(NaiveError::AmbiguousSocket);
                    }
                }
            },
            None => {
                proof {
                    lemma_token_index(self.fib@, v0.fib, t@, v0.fib.len() as int);
                }
            },
        }
        if ft.direction == ForwardingDimension::Concrete(Direction::Downstream) {
            return Err(NaiveError::NoDownstreamSocket);
        }
        let resolved = match (&t.backend, &t.instance) {
            (ForwardingDimension::Concrete(b), ForwardingDimension::Concrete(port)) => self.config.resolve_instance(b.as_str(), *port),
            _ => None,
        };
        match resolved {
            Some(a) => {
                let a = *a;
                Ok(
                    Destination::New(
                        a,
                        ForwardingToken {
                            conn_id: ForwardingDimension::DontCare,
                            direction: ForwardingDimension::Concrete(Direction::Upstream),
                            backend: copy_dim(&ft.backend),
                            instance: ForwardingDimension::Concrete(a.port),
                        },
                    ),
                )
            },
            None => Err(NaiveError::UnresolvedInstance),
        }
    }
}

/// A socket handed out for a request stays reserved: the same token does
/// not hand it out again until a response on it frees it.
pub proof fn law_reserved_socket_not_reused(v: PipelineView, hosts: Seq<Host>, ft: TokenView, a: SocketAddress)
    requires
        selected(v, hosts, ft).0 == Ok::<DestView, NaiveError>(DestView::Existing(a)),
        lookup_token(ft, v.min) matches Some(t) && t.direction == ForwardingDimension::Concrete(
            Direction::Upstream,
        ),
    ensures
        selected(PipelineView { us: selected(v, hosts, ft).1, ..v }, hosts, ft).0
            != Ok::<DestView, NaiveError>(DestView::Existing(a)),
{
    let t = lookup_token(ft, v.min)->0;
    let found = lookup(v.fib, t);
    lemma_free_index(found->0, v.us);
    let us2 = put(v.us, a, true);
    lemma_lookup_put(v.us, a, true, a);
    lemma_free_index(found->0, us2);
    let p = free_index(found->0, us2);
    if p >= 0 {
        lemma_lookup_put(v.us, a, true, found->0[p]);
    }
}

/// Once the response on a reserved socket frees it, the token that holds
/// that socket alone hands it out again.
pub proof fn law_freed_socket_reused(v: PipelineView, hosts: Seq<Host>, ft: TokenView, a: SocketAddress)
    requires
        lookup_token(ft, v.min) matches Some(t) && t.direction == ForwardingDimension::Concrete(
            Direction::Upstream,
        ) && lookup(v.fib, t) == Some(seq![a]),
    ensures
        selected(PipelineView { us: put(v.us, a, false), ..v }, hosts, ft).0
            == Ok::<DestView, NaiveError>(DestView::Existing(a)),
{
    let us2 = put(v.us, a, false);
    lemma_lookup_put(v.us, a, false, a);
    let s1 = seq![a];
    assert(s1.drop_last() =~= Seq::<SocketAddress>::empty());
    assert(free_index(s1.drop_last(), us2) == -1);
    assert(s1.last() == a);
    assert(free_index(s1, us2) == 0);
}

/// What a request with header fields `fs` and a head of `len` bytes does,
/// from downstream `origin`: the choice, the tables after it, the buffer
/// after it.
pub open spec fn request_outcome(
    v: PipelineView,
    hosts: Seq<Host>,
    buf: Seq<u8>,
    len: usize,
    fs: Seq<(Seq<char>, Seq<char>)>,
    origin: SocketAddress,
) -> (Result<DestView, NaiveError>, PipelineView, Seq<u8>) {
    let v1 = PipelineView {
        ds: put(v.ds, origin, bumped(lookup(v.ds, origin), fs.len() as u32)),
        ..v
    };
    match lookup(fs, "backend"@) {
        None => (Err(NaiveError::NoBackend), v1, buf),
        Some(b) => {
            let v2 = PipelineView {
                fib: put(v1.fib, return_token(origin.port), seq![origin]),
                ..v1
            };
            if len < 2 {
                (Err(NaiveError::Head(HeadError::Invalid)), v2, buf)
            } else {
                let ft = TokenView {
                    conn_id: ForwardingDimension::DontCare,
                    direction: ForwardingDimension::Concrete(Direction::Upstream),
                    backend: ForwardingDimension::Concrete(b),
                    instance: ForwardingDimension::Min,
                };
                let sel = selected(v2, hosts, ft);
                (
                    sel.0,
                    PipelineView { us: sel.1, ..v2 },
                    buf.take(len - 2) + vstd::utf8::encode_utf8(conn_id_line(origin.port))
                        + buf.skip(len - 2),
                )
            }
        },
    }
}

/// What a response with header fields `fs` does, from upstream `origin`.
pub open spec fn response_outcome(
    v: PipelineView,
    hosts: Seq<Host>,
    fs: Seq<(Seq<char>, Seq<char>)>,
    origin: SocketAddress,
) -> (Result<DestView, NaiveError>, PipelineView) {
    match lookup(fs, "signature"@) {
        Some(sig) if sig.len() > 0 => {
            let n = fs.len() as u32;
            let v1 = PipelineView {
                loads: put(v.loads, (sig, origin.port), bumped(lookup(v.loads, (sig, origin.port)), n)),
                us: put(v.us, origin, false),
                ..v
            };
            match lookup(fs, "conn-id"@) {
                None => (Err(NaiveError::NoConnId), v1),
                Some(c) => match u32_of(c) {
                    None => (Err(NaiveError::InvalidConnId), v1),
                    Some(id) => {
                        let ft = TokenView {
                            conn_id: ForwardingDimension::Concrete(id),
                            direction: ForwardingDimension::Concrete(Direction::Downstream),
                            backend: ForwardingDimension::DontCare,
                            instance: ForwardingDimension::DontCare,
                        };
                        let sel = selected(v1, hosts, ft);
                        (sel.0, PipelineView { us: sel.1, ..v1 })
                    },
                },
            }
        },
        _ => (Err(NaiveError::NoSignature), v),
    }
}

impl Pipeline {
    /// Handles one message from `origin`: reads its head, counts it, finds
    /// where it goes and chooses the socket. A request gets a conn-id header
    /// that names the downstream connection it came from.
    pub fn process(&mut self, buf: &mut Vec<u8>, origin: SocketAddress, is_downstream: bool) -> (r:
        Result<Destination, NaiveError>)
        ensures
            final(self).config == old(self).config,
            match message_head(old(buf)@, is_downstream) {
                (HeadStatus::Invalid, _) => r == Err::<Destination, NaiveError>(
                    NaiveError::Head(HeadError::Invalid),
                ) && final(self)@ == old(self)@ && final(buf)@ == old(buf)@,
                (HeadStatus::Partial, _) => r == Err::<Destination, NaiveError>(
                    NaiveError::Head(HeadError::Partial),
                ) && final(self)@ == old(self)@ && final(buf)@ == old(buf)@,
                (HeadStatus::Complete(len), hs) => if !values_text(hs) {
                    r == Err::<Destination, NaiveError>(NaiveError::Head(HeadError::NotText))
                        && final(self)@ == old(self)@ && final(buf)@ == old(buf)@
                } else if is_downstream {
                    (result_view(r), final(self)@, final(buf)@) == request_outcome(
                        old(self)@,
                        old(self).config.hosts@,
                        old(buf)@,
                        len,
                        fields_of(hs),
                        origin,
                    )
                } else {
                    (result_view(r), final(self)@) == response_outcome(
                        old(self)@,
                        old(self).config.hosts@,
                        fields_of(hs),
                        origin,
                    ) && final(buf)@ == old(buf)@
                },
            },
    {
        let (fields, len) = match message_fields(buf.as_slice(), is_downstream) {
            Ok(x) => x,
            Err(e) => return Err(NaiveError::Head(e)),
        };
        let ghost fs = pairs_of(fields@);
        let n = fields.len() as u32;
        let mut ft = ForwardingToken::dont_care();
        if is_downstream {
            self.update_ds_conn(origin, n);
            let res = self.forward_ds_conn(&mut ft, field_value(&fields, "backend"), origin);
            if let Err(e) = res {
                return Err(e);
            }
            if len < 2 {
                return Err(NaiveError::Head(HeadError::Invalid));
            }
            insert_conn_id(buf, len, origin.port);
        } else {
            let res = self.update_us_conn(field_value(&fields, "signature"), origin, n);
            if let Err(e) = res {
                return Err(e);
            }
            let res = self.forward_us_conn(&mut ft, field_value(&fields, "conn-id"));
            if let Err(e) = res {
                return Err(e);
            }
        }
        self.select_sock(&ft)
    }
}

} // verus!
