//! Configuration: the Beeline configuration, the Envoy configuration, and
//! the common configuration that the baselines read, which an Envoy
//! configuration translates into.

pub mod beeline;
pub mod envoy;
pub mod spec;

use crate::ipv6::{endpoint_ip_of, parse_endpoint_ip};
use crate::net::{IpAddress, SocketAddress};
use crate::text::{chars_of, str_eq};
use rand::seq::SliceRandom;
use vstd::prelude::*;

verus! {

broadcast use vstd::string::group_string_axioms;

/// The common configuration.
pub struct Config {
    pub proxy: Option<SocketAddress>,
    pub hosts: Vec<Host>,
    pub routes: Vec<Route>,
}

/// A route: requests that match the pattern go to `dest`, through the
/// filters, each given by its settings (name, value).
pub struct Route {
    pub pattern: Pattern,
    pub dest: String,
    pub filters: Vec<Vec<(String, String)>>,
}

/// What a request must hold to match a route: a path and header values.
pub struct Pattern {
    pub path: Option<String>,
    pub headers: Option<Vec<(String, String)>>,
}

/// A backend host and its instances.
pub struct Host {
    pub name: String,
    pub instances: Vec<SocketAddress>,
}

/// Pairs of strings by value.
pub open spec fn pairs_view(v: Seq<(String, String)>) -> Seq<(Seq<char>, Seq<char>)> {
    v.map_values(|p: (String, String)| (p.0@, p.1@))
}

/// A route by value: path, headers, destination, filters.
pub type RouteView = (
    Option<Seq<char>>,
    Option<Seq<(Seq<char>, Seq<char>)>>,
    Seq<char>,
    Seq<Seq<(Seq<char>, Seq<char>)>>,
);

pub open spec fn route_view(r: Route) -> RouteView {
    (
        match r.pattern.path {
            Some(p) => Some(p@),
            None => None,
        },
        match r.pattern.headers {
            Some(h) => Some(pairs_view(h@)),
            None => None,
        },
        r.dest@,
        r.filters@.map_values(|f: Vec<(String, String)>| pairs_view(f@)),
    )
}

/// A host by value: name and instances.
pub open spec fn host_view(h: Host) -> (Seq<char>, Seq<SocketAddress>) {
    (h.name@, h.instances@)
}

/// The address of an Envoy endpoint, its text read as an IPv4 address or
/// a bracketed IPv6 address.
pub open spec fn endpoint_addr(e: envoy::LbEndpoint) -> SocketAddress {
    let a = e.endpoint.address.socket_address;
    SocketAddress { ip: endpoint_ip_of(a.address@)->0, port: a.port_value }
}

/// The addresses of the endpoints of a locality.
pub open spec fn endpoint_addrs(le: envoy::LoadEndpoint) -> Seq<SocketAddress> {
    le.lb_endpoints@.map_values(|e: envoy::LbEndpoint| endpoint_addr(e))
}

/// The instances of a cluster, endpoint by endpoint.
pub open spec fn cluster_instances(c: envoy::Cluster) -> Seq<SocketAddress> {
    c.load_assignment.endpoints@.map_values(|le: envoy::LoadEndpoint| endpoint_addrs(le)).flatten()
}

/// The settings of the route filter that a JWT authentication filter
/// becomes: its type, the issuer and the first audience of its first provider.
pub open spec fn jwt_settings(f: envoy::JwtAuthn) -> Seq<(Seq<char>, Seq<char>)> {
    let p = f.providers@[0];
    seq![("type"@, "jwt"@)] + (match p.issuer {
        Some(i) => seq![("issuer"@, i@)],
        None => Seq::empty(),
    }) + (match p.audiences {
        Some(a) => seq![("audience"@, a@[0]@)],
        None => Seq::empty(),
    })
}

/// The route filter an HTTP filter becomes, if any.
pub open spec fn http_filter_settings(f: envoy::HttpFilter) -> Seq<Seq<(Seq<char>, Seq<char>)>> {
    match f {
        envoy::HttpFilter::Jwt(j) => seq![jwt_settings(j)],
        envoy::HttpFilter::Rbac(_) => Seq::empty(),
        envoy::HttpFilter::Unsupported(_) => Seq::empty(),
    }
}

/// The route filters for the HTTP filters: one per JWT filter, in order.
pub open spec fn filter_settings(fs: Seq<envoy::HttpFilter>) -> Seq<Seq<(Seq<char>, Seq<char>)>> {
    fs.map_values(|f: envoy::HttpFilter| http_filter_settings(f)).flatten()
}

/// The value an exact header match compares with: that of the first
/// "exact" setting.
pub open spec fn exact_of(ps: Seq<(String, String)>) -> Seq<char>
    decreases ps.len(),
{
    if ps.len() == 0 {
        Seq::empty()
    } else if ps[0].0@ == "exact"@ {
        ps[0].1@
    } else {
        exact_of(ps.drop_first())
    }
}

/// Whether a header match named the same follows the one at `j`.
pub open spec fn later_same(hs: Seq<envoy::HeaderMatch>, j: int) -> bool {
    exists|k: int| j < k < hs.len() && hs[k].name@ == hs[j].name@
}

/// The header values a route matches, from its first `n` header matches:
/// one (name, value) per name, the last match of a name deciding its value.
pub open spec fn header_pairs(hs: Seq<envoy::HeaderMatch>, n: nat) -> Seq<(Seq<char>, Seq<char>)>
    decreases n,
{
    if n == 0 {
        Seq::empty()
    } else {
        header_pairs(hs, (n - 1) as nat) + if later_same(hs, n - 1) {
            Seq::empty()
        } else {
            seq![(hs[n - 1].name@, exact_of(hs[n - 1].string_match@))]
        }
    }
}

/// The common route for an Envoy route with the given filters.
pub open spec fn route_of(r: envoy::Route, filters: Seq<Seq<(Seq<char>, Seq<char>)>>) -> RouteView {
    let hs = header_pairs(r.route_match.headers@, r.route_match.headers@.len());
    (
        if r.route_match.path@ == "*"@ {
            None
        } else {
            Some(r.route_match.path@)
        },
        if hs.len() > 0 {
            Some(hs)
        } else {
            None
        },
        r.route.cluster@,
        filters,
    )
}

/// The routes of a connection manager: those of each virtual host, each
/// with the filters of the manager.
pub open spec fn manager_routes(f: envoy::Filter) -> Seq<RouteView> {
    let fs = filter_settings(f.typed_config.http_filters@);
    f.typed_config.route_config.virtual_hosts@.map_values(
        |h: envoy::VirtualHost| host_routes(h, fs),
    ).flatten()
}

/// The routes of a virtual host, each with the given filters.
pub open spec fn host_routes(h: envoy::VirtualHost, fs: Seq<Seq<(Seq<char>, Seq<char>)>>) -> Seq<
    RouteView,
> {
    h.routes@.map_values(|r: envoy::Route| route_of(r, fs))
}

/// The routes of a filter chain, connection manager by connection manager.
pub open spec fn chain_routes(c: envoy::FilterChain) -> Seq<RouteView> {
    c.filters@.map_values(|f: envoy::Filter| manager_routes(f)).flatten()
}

/// The routes of a listener, filter chain by filter chain.
pub open spec fn listener_routes(l: envoy::Listener) -> Seq<RouteView> {
    l.filter_chains@.map_values(|c: envoy::FilterChain| chain_routes(c)).flatten()
}

/// The routes of an Envoy configuration, listener by listener.
pub open spec fn envoy_routes(c: envoy::Config) -> Seq<RouteView> {
    c.static_resources.listeners@.map_values(|l: envoy::Listener| listener_routes(l)).flatten()
}

/// The hosts of an Envoy configuration: one per cluster.
pub open spec fn envoy_hosts(c: envoy::Config) -> Seq<(Seq<char>, Seq<SocketAddress>)> {
    c.static_resources.clusters@.map_values(
        |cl: envoy::Cluster| (cl.name@, cluster_instances(cl)),
    )
}

/// Whether a JWT filter names a provider, and an audience where it names audiences.
pub open spec fn jwt_ok(f: envoy::JwtAuthn) -> bool {
    f.providers@.len() > 0 && (f.providers@[0].audiences matches Some(a) ==> a@.len() > 0)
}

/// Whether a header match has an exact value.
pub open spec fn has_exact(h: envoy::HeaderMatch) -> bool {
    exists|k: int| 0 <= k < h.string_match@.len() && h.string_match@[k].0@ == "exact"@
}

/// Whether every header match of a route has an exact value.
pub open spec fn route_ok(r: envoy::Route) -> bool {
    forall|m: int| 0 <= m < r.route_match.headers@.len() ==> has_exact(#[trigger] r.route_match.headers@[m])
}

/// Whether a JWT filter can be translated, if it is one.
pub open spec fn http_filter_ok(f: envoy::HttpFilter) -> bool {
    f matches envoy::HttpFilter::Jwt(j) ==> jwt_ok(j)
}

/// Whether a connection manager can be translated: each JWT filter names
/// a provider, each header match has an exact value.
pub open spec fn manager_ok(f: envoy::Filter) -> bool {
    &&& forall|i: int|
        0 <= i < f.typed_config.http_filters@.len() ==> http_filter_ok(#[trigger] f.typed_config.http_filters@[i])
    &&& forall|h: int, r: int|
        0 <= h < f.typed_config.route_config.virtual_hosts@.len() && 0 <= r
            < f.typed_config.route_config.virtual_hosts@[h].routes@.len() ==> route_ok(
            #[trigger] f.typed_config.route_config.virtual_hosts@[h].routes@[r],
        )
}

/// Whether an Envoy configuration can be translated: every endpoint address
/// is an IPv4 address or a bracketed IPv6 address, every connection manager
/// can be translated.
pub open spec fn translatable(c: envoy::Config) -> bool {
    &&& forall|i: int, j: int, k: int|
        0 <= i < c.static_resources.clusters@.len() && 0 <= j
            < c.static_resources.clusters@[i].load_assignment.endpoints@.len() && 0 <= k
            < c.static_resources.clusters@[i].load_assignment.endpoints@[j].lb_endpoints@.len()
            ==> endpoint_ip_of(
            (#[trigger] c.static_resources.clusters@[i].load_assignment.endpoints@[j].lb_endpoints@[k]).endpoint.address.socket_address.address@,
        ) is Some
    &&& forall|i: int, j: int, k: int|
        0 <= i < c.static_resources.listeners@.len() && 0 <= j
            < c.static_resources.listeners@[i].filter_chains@.len() && 0 <= k
            < c.static_resources.listeners@[i].filter_chains@[j].filters@.len() ==> manager_ok(
            #[trigger] c.static_resources.listeners@[i].filter_chains@[j].filters@[k],
        )
}

/// Routes by value.
pub open spec fn routes_view(v: Seq<Route>) -> Seq<RouteView> {
    v.map_values(|r: Route| route_view(r))
}

/// Settings by value.
pub open spec fn settings_view(v: Seq<Vec<(String, String)>>) -> Seq<Seq<(Seq<char>, Seq<char>)>> {
    v.map_values(|f: Vec<(String, String)>| pairs_view(f@))
}

pub(crate) fn copy_pairs(v: &Vec<(String, String)>) -> (r: Vec<(String, String)>)
    ensures
        pairs_view(r@) == pairs_view(v@),
{
    let mut out: Vec<(String, String)> = Vec::new();
    let mut i: usize = 0;
    while i < v.len()
        invariant
            i <= v@.len(),
            pairs_view(out@) == pairs_view(v@.take(i as int)),
        decreases v.len() - i,
    {
        let ghost prev = out@;
        let a = v[i].0.clone();
        let b = v[i].1.clone();
        out.push((a, b));
        proof {
            assert(pairs_view(out@) =~= pairs_view(prev).push((v@[i as int].0@, v@[i as int].1@)));
            assert(v@.take(i as int + 1) =~= v@.take(i as int).push(v@[i as int]));
            assert(pairs_view(v@.take(i as int + 1)) =~= pairs_view(v@.take(i as int)).push(
                (v@[i as int].0@, v@[i as int].1@),
            ));
        }
        i = i + 1;
    }
    assert(v@.take(v@.len() as int) =~= v@);
    out
}

fn copy_settings(v: &Vec<Vec<(String, String)>>) -> (r: Vec<Vec<(String, String)>>)
    ensures
        settings_view(r@) == settings_view(v@),
{
    let mut out: Vec<Vec<(String, String)>> = Vec::new();
    let mut i: usize = 0;
    while i < v.len()
        invariant
            i <= v@.len(),
            settings_view(out@) == settings_view(v@.take(i as int)),
        decreases v.len() - i,
    {
        let c = copy_pairs(&v[i]);
        let ghost prev = out@;
        out.push(c);
        proof {
            assert(settings_view(out@) =~= settings_view(prev).push(pairs_view(v@[i as int]@)));
            assert(v@.take(i as int + 1) =~= v@.take(i as int).push(v@[i as int]));
            assert(settings_view(v@.take(i as int + 1)) =~= settings_view(v@.take(i as int)).push(
                pairs_view(v@[i as int]@),
            ));
        }
        i = i + 1;
    }
    assert(v@.take(v@.len() as int) =~= v@);
    out
}

fn cluster_instances_exec(c: &envoy::Cluster) -> (r: Vec<SocketAddress>)
    requires
        forall|j: int, k: int|
            0 <= j < c.load_assignment.endpoints@.len() && 0 <= k
                < c.load_assignment.endpoints@[j].lb_endpoints@.len() ==> endpoint_ip_of(
                (#[trigger] c.load_assignment.endpoints@[j].lb_endpoints@[k]).endpoint.address.socket_address.address@,
            ) is Some,
    ensures
        r@ == cluster_instances(*c),
{
    let eps = &c.load_assignment.endpoints;
    let mut out: Vec<SocketAddress> = Vec::new();
    let mut j: usize = 0;
    while j < eps.len()
        invariant
            j <= eps@.len(),
            *eps == c.load_assignment.endpoints,
            forall|j: int, k: int|
                0 <= j < eps@.len() && 0 <= k < eps@[j].lb_endpoints@.len() ==> endpoint_ip_of(
                    (#[trigger] eps@[j].lb_endpoints@[k]).endpoint.address.socket_address.address@,
                ) is Some,
            out@ == eps@.take(j as int).map_values(|le: envoy::LoadEndpoint| endpoint_addrs(le)).flatten(),
        decreases eps.len() - j,
    {
        let lbs = &eps[j].lb_endpoints;
        let ghost start = out@;
        let mut k: usize = 0;
        while k < lbs.len()
            invariant
                k <= lbs@.len(),
                j < eps@.len(),
                *lbs == eps@[j as int].lb_endpoints,
                forall|k: int| 0 <= k < lbs@.len() ==> endpoint_ip_of(
                    (#[trigger] lbs@[k]).endpoint.address.socket_address.address@,
                ) is Some,
                out@ == start + lbs@.take(k as int).map_values(
                    |e: envoy::LbEndpoint| endpoint_addr(e),
                ),
            decreases lbs.len() - k,
        {
            let a = &lbs[k].endpoint.address.socket_address;
            let text = chars_of(a.address.as_str());
            let ip = parse_endpoint_ip(&text);
            let ip = match ip {
                Some(ip) => ip,
                None => {
                    assert(false);
                    IpAddress::V4(crate::net::Ipv4Address(0, 0, 0, 0))
                },
            };
            out.push(SocketAddress { ip, port: a.port_value });
            assert(out@ =~= start + lbs@.take(k as int + 1).map_values(
                |e: envoy::LbEndpoint| endpoint_addr(e),
            ));
            k = k + 1;
        }
        proof {
            assert(lbs@.take(lbs@.len() as int) =~= lbs@);
            let f = |le: envoy::LoadEndpoint| endpoint_addrs(le);
            assert(eps@.take(j as int + 1).map_values(f) =~= eps@.take(j as int).map_values(f).push(
                f(eps@[j as int]),
            ));
            eps@.take(j as int).map_values(f).lemma_flatten_push(f(eps@[j as int]));
        }
        j = j + 1;
    }
    assert(eps@.take(eps@.len() as int) =~= eps@);
    out
}

proof fn lemma_exact_of(ps: Seq<(String, String)>, i: int)
    requires
        0 <= i < ps.len(),
        ps[i].0@ == "exact"@,
        forall|j: int| 0 <= j < i ==> ps[j].0@ != "exact"@,
    ensures
        exact_of(ps) == ps[i].1@,
    decreases ps.len(),
{
    if i > 0 {
        let t = ps.drop_first();
        assert forall|j: int| 0 <= j < i - 1 implies t[j].0@ != "exact"@ by {
            assert(t[j] == ps[j + 1]);
        }
        lemma_exact_of(t, i - 1);
    }
}

fn exact_exec(ps: &Vec<(String, String)>) -> (r: String)
    requires
        exists|k: int| 0 <= k < ps@.len() && ps@[k].0@ == "exact"@,
    ensures
        r@ == exact_of(ps@),
{
    let mut i: usize = 0;
    while i < ps.len()
        invariant
            i <= ps@.len(),
            forall|j: int| 0 <= j < i ==> ps@[j].0@ != "exact"@,
        decreases ps.len() - i,
    {
        if str_eq(ps[i].0.as_str(), "exact") {
            proof {
                lemma_exact_of(ps@, i as int);
            }
            return ps[i].1.clone();
        }
        i = i + 1;
    }
    assert(false);
    String::new()
}

fn header_pairs_exec(hs: &Vec<envoy::HeaderMatch>) -> (r: Vec<(String, String)>)
    requires
        forall|m: int| 0 <= m < hs@.len() ==> has_exact(#[trigger] hs@[m]),
    ensures
        pairs_view(r@) == header_pairs(hs@, hs@.len()),
{
    let mut out: Vec<(String, String)> = Vec::new();
    let mut j: usize = 0;
    while j < hs.len()
        invariant
            j <= hs@.len(),
            forall|m: int| 0 <= m < hs@.len() ==> has_exact(#[trigger] hs@[m]),
            pairs_view(out@) == header_pairs(hs@, j as nat),
        decreases hs.len() - j,
    {
        let mut later = false;
        let mut k: usize = j + 1;
        while k < hs.len()
            invariant
                j < k <= hs@.len(),
                later == exists|x: int| j < x < k && hs@[x].name@ == hs@[j as int].name@,
            decreases hs.len() - k,
        {
            if str_eq(hs[k].name.as_str(), hs[j].name.as_str()) {
                later = true;
            }
            k = k + 1;
        }
        let ghost prev = out@;
        if !later {
            assert(has_exact(hs@[j as int]));
            let v = exact_exec(&hs[j].string_match);
            let n = hs[j].name.clone();
            out.push((n, v));
            assert(pairs_view(out@) =~= pairs_view(prev).push((hs@[j as int].name@, exact_of(hs@[j as int].string_match@))));
        }
        assert(pairs_view(out@) =~= header_pairs(hs@, j as nat + 1));
        j = j + 1;
    }
    out
}

fn jwt_settings_exec(f: &envoy::JwtAuthn) -> (r: Vec<(String, String)>)
    requires
        jwt_ok(*f),
    ensures
        pairs_view(r@) == jwt_settings(*f),
{
    let p = &f.providers[0];
    let mut out: Vec<(String, String)> = Vec::new();
    out.push(("type".to_string(), "jwt".to_string()));
    if let Some(i) = &p.issuer {
        out.push(("issuer".to_string(), i.clone()));
    }
    if let Some(a) = &p.audiences {
        out.push(("audience".to_string(), a[0].clone()));
    }
    assert(pairs_view(out@) =~= jwt_settings(*f));
    out
}

fn filter_settings_exec(fs: &Vec<envoy::HttpFilter>) -> (r: Vec<Vec<(String, String)>>)
    requires
        forall|i: int| 0 <= i < fs@.len() ==> http_filter_ok(#[trigger] fs@[i]),
    ensures
        settings_view(r@) == filter_settings(fs@),
{
    let mut out: Vec<Vec<(String, String)>> = Vec::new();
    let mut i: usize = 0;
    while i < fs.len()
        invariant
            i <= fs@.len(),
            forall|i: int| 0 <= i < fs@.len() ==> http_filter_ok(#[trigger] fs@[i]),
            settings_view(out@) == fs@.take(i as int).map_values(
                |f: envoy::HttpFilter| http_filter_settings(f),
            ).flatten(),
        decreases fs.len() - i,
    {
        let ghost prev = settings_view(out@);
        let ghost prev_raw = out@;
        assert(http_filter_ok(fs@[i as int]));
        match &fs[i] {
            envoy::HttpFilter::Jwt(j) => {
                let m = jwt_settings_exec(j);
                out.push(m);
                assert(settings_view(out@) =~= settings_view(prev_raw).push(pairs_view(m@)));
                assert(settings_view(out@) =~= prev + seq![jwt_settings(*j)]);
            },
            envoy::HttpFilter::Rbac(_) => {
                assert(settings_view(out@) =~= prev + Seq::<Seq<(Seq<char>, Seq<char>)>>::empty());
            },
            envoy::HttpFilter::Unsupported(_) => {
                assert(settings_view(out@) =~= prev + Seq::<Seq<(Seq<char>, Seq<char>)>>::empty());
            },
        }
        proof {
            let g = |f: envoy::HttpFilter| http_filter_settings(f);
            assert(fs@.take(i as int + 1).map_values(g) =~= fs@.take(i as int).map_values(g).push(
                g(fs@[i as int]),
            ));
            fs@.take(i as int).map_values(g).lemma_flatten_push(g(fs@[i as int]));
        }
        i = i + 1;
    }
    assert(fs@.take(fs@.len() as int) =~= fs@);
    out
}

fn push_manager_routes(out: &mut Vec<Route>, f: &envoy::Filter)
    requires
        manager_ok(*f),
    ensures
        routes_view(final(out)@) == routes_view(old(out)@) + manager_routes(*f),
{
    let settings = filter_settings_exec(&f.typed_config.http_filters);
    let ghost fs = filter_settings(f.typed_config.http_filters@);
    let hosts = &f.typed_config.route_config.virtual_hosts;
    let ghost start = routes_view(out@);
    let mut h: usize = 0;
    while h < hosts.len()
        invariant
            h <= hosts@.len(),
            *hosts == f.typed_config.route_config.virtual_hosts,
            manager_ok(*f),
            settings_view(settings@) == fs,
            fs == filter_settings(f.typed_config.http_filters@),
            routes_view(out@) == start + hosts@.take(h as int).map_values(
                |x: envoy::VirtualHost| host_routes(x, fs),
            ).flatten(),
        decreases hosts.len() - h,
    {
        let rs = &hosts[h].routes;
        let ghost mid = routes_view(out@);
        let mut r: usize = 0;
        while r < rs.len()
            invariant
                r <= rs@.len(),
                *rs == hosts@[h as int].routes,
                *hosts == f.typed_config.route_config.virtual_hosts,
                h < hosts@.len(),
                manager_ok(*f),
                settings_view(settings@) == fs,
                routes_view(out@) == mid + rs@.take(r as int).map_values(
                    |x: envoy::Route| route_of(x, fs),
                ),
            decreases rs.len() - r,
        {
            let er = &rs[r];
            assert(route_ok(hosts@[h as int].routes@[r as int]));
            let pairs = header_pairs_exec(&er.route_match.headers);
            let path = if str_eq(er.route_match.path.as_str(), "*") {
                None
            } else {
                Some(er.route_match.path.clone())
            };
            let headers = if pairs.len() > 0 {
                Some(pairs)
            } else {
                None
            };
            let route = Route {
                pattern: Pattern { path, headers },
                dest: er.route.cluster.clone(),
                filters: copy_settings(&settings),
            };
            let ghost prev = out@;
            proof {
                assert(pairs.len() > 0 ==> pairs_view(pairs@) == header_pairs(er.route_match.headers@, er.route_match.headers@.len()));
            }
            out.push(route);
            proof {
                assert(route_view(route) == route_of(*er, fs));
                assert(routes_view(out@) =~= routes_view(prev).push(route_view(route)));
                assert(rs@.take(r as int + 1).map_values(|x: envoy::Route| route_of(x, fs))
                    =~= rs@.take(r as int).map_values(|x: envoy::Route| route_of(x, fs)).push(
                    route_of(rs@[r as int], fs),
                ));
            }
            r = r + 1;
        }
        proof {
            assert(rs@.take(rs@.len() as int) =~= rs@);
            let g = |x: envoy::VirtualHost| host_routes(x, fs);
            assert(hosts@.take(h as int + 1).map_values(g) =~= hosts@.take(h as int).map_values(
                g,
            ).push(g(hosts@[h as int])));
            hosts@.take(h as int).map_values(g).lemma_flatten_push(g(hosts@[h as int]));
        }
        h = h + 1;
    }
    assert(hosts@.take(hosts@.len() as int) =~= hosts@);
}

fn push_listener_routes(out: &mut Vec<Route>, l: &envoy::Listener)
    requires
        forall|j: int, k: int|
            0 <= j < l.filter_chains@.len() && 0 <= k < l.filter_chains@[j].filters@.len()
                ==> manager_ok(#[trigger] l.filter_chains@[j].filters@[k]),
    ensures
        routes_view(final(out)@) == routes_view(old(out)@) + listener_routes(*l),
{
    let chains = &l.filter_chains;
    let ghost start = routes_view(out@);
    let mut j: usize = 0;
    while j < chains.len()
        invariant
            j <= chains@.len(),
            *chains == l.filter_chains,
            forall|j: int, k: int|
                0 <= j < chains@.len() && 0 <= k < chains@[j].filters@.len() ==> manager_ok(
                    #[trigger] chains@[j].filters@[k],
                ),
            routes_view(out@) == start + chains@.take(j as int).map_values(
                |c: envoy::FilterChain| chain_routes(c),
            ).flatten(),
        decreases chains.len() - j,
    {
        let fs = &chains[j].filters;
        let ghost mid = routes_view(out@);
        let mut k: usize = 0;
        while k < fs.len()
            invariant
                k <= fs@.len(),
                j < chains@.len(),
                *fs == chains@[j as int].filters,
                forall|k: int| 0 <= k < fs@.len() ==> manager_ok(#[trigger] fs@[k]),
                routes_view(out@) == mid + fs@.take(k as int).map_values(
                    |f: envoy::Filter| manager_routes(f),
                ).flatten(),
            decreases fs.len() - k,
        {
            push_manager_routes(out, &fs[k]);
            proof {
                let m = |f: envoy::Filter| manager_routes(f);
                assert(fs@.take(k as int + 1).map_values(m) =~= fs@.take(k as int).map_values(
                    m,
                ).push(m(fs@[k as int])));
                fs@.take(k as int).map_values(m).lemma_flatten_push(m(fs@[k as int]));
            }
            k = k + 1;
        }
        proof {
            assert(fs@.take(fs@.len() as int) =~= fs@);
            let g = |c: envoy::FilterChain| chain_routes(c);
            assert(chains@.take(j as int + 1).map_values(g) =~= chains@.take(j as int).map_values(
                g,
            ).push(g(chains@[j as int])));
            chains@.take(j as int).map_values(g).lemma_flatten_push(g(chains@[j as int]));
        }
        j = j + 1;
    }
    assert(chains@.take(chains@.len() as int) =~= chains@);
}

impl Config {
    /// Translates an Envoy configuration: a host per cluster with the
    /// addresses of its endpoints, and a route per route of each connection
    /// manager, carrying the manager's JWT filters.
    pub fn from(config: envoy::Config) -> (r: Config)
        requires
            translatable(config),
        ensures
            r.proxy is None,
            r.hosts@.map_values(|h: Host| host_view(h)) == envoy_hosts(config),
            routes_view(r.routes@) == envoy_routes(config),
            r.hosts@.len() == config.static_resources.clusters@.len(),
            forall|i: int|
                0 <= i < r.hosts@.len() ==> (#[trigger] r.hosts@[i]).name@
                    == config.static_resources.clusters@[i].name@,
    {
        let clusters = &config.static_resources.clusters;
        let mut hosts: Vec<Host> = Vec::new();
        let mut i: usize = 0;
        while i < clusters.len()
            invariant
                i <= clusters@.len(),
                *clusters == config.static_resources.clusters,
                translatable(config),
                hosts@.map_values(|h: Host| host_view(h)) == clusters@.take(i as int).map_values(
                    |cl: envoy::Cluster| (cl.name@, cluster_instances(cl)),
                ),
            decreases clusters.len() - i,
        {
            let c = &clusters[i];
            assert forall|j: int, k: int|
                0 <= j < c.load_assignment.endpoints@.len() && 0 <= k
                    < c.load_assignment.endpoints@[j].lb_endpoints@.len() implies endpoint_ip_of(
                (#[trigger] c.load_assignment.endpoints@[j].lb_endpoints@[k]).endpoint.address.socket_address.address@,
            ) is Some by {
                assert(config.static_resources.clusters@[i as int] == *c);
            }
            let instances = cluster_instances_exec(c);
            let ghost prev = hosts@;
            let host = Host { name: c.name.clone(), instances };
            hosts.push(host);
            proof {
                assert(hosts@.map_values(|h: Host| host_view(h)) =~= prev.map_values(
                    |h: Host| host_view(h),
                ).push(host_view(host)));
                assert(clusters@.take(i as int + 1) =~= clusters@.take(i as int).push(*c));
                assert(clusters@.take(i as int + 1).map_values(
                    |cl: envoy::Cluster| (cl.name@, cluster_instances(cl)),
                ) =~= clusters@.take(i as int).map_values(
                    |cl: envoy::Cluster| (cl.name@, cluster_instances(cl)),
                ).push((c.name@, cluster_instances(*c))));
            }
            i = i + 1;
        }
        assert(clusters@.take(clusters@.len() as int) =~= clusters@);
        let listeners = &config.static_resources.listeners;
        let mut routes: Vec<Route> = Vec::new();
        let mut l: usize = 0;
        while l < listeners.len()
            invariant
                l <= listeners@.len(),
                *listeners == config.static_resources.listeners,
                translatable(config),
                routes_view(routes@) == listeners@.take(l as int).map_values(
                    |x: envoy::Listener| listener_routes(x),
                ).flatten(),
            decreases listeners.len() - l,
        {
            let li = &listeners[l];
            assert forall|j: int, k: int|
                0 <= j < li.filter_chains@.len() && 0 <= k < li.filter_chains@[j].filters@.len()
                    implies manager_ok(#[trigger] li.filter_chains@[j].filters@[k]) by {
                assert(config.static_resources.listeners@[l as int] == *li);
            }
            push_listener_routes(&mut routes, li);
            proof {
                let m = |x: envoy::Listener| listener_routes(x);
                assert(listeners@.take(l as int + 1).map_values(m) =~= listeners@.take(
                    l as int,
                ).map_values(m).push(m(listeners@[l as int])));
                listeners@.take(l as int).map_values(m).lemma_flatten_push(m(listeners@[l as int]));
            }
            l = l + 1;
        }
        assert(listeners@.take(listeners@.len() as int) =~= listeners@);
        proof {
            crate::laws::law_one_host_per_cluster(config);
            assert forall|i: int| 0 <= i < hosts@.len() implies (#[trigger] hosts@[i]).name@
                == config.static_resources.clusters@[i].name@ by {
                assert(hosts@.map_values(|h: Host| host_view(h))[i] == host_view(hosts@[i]));
            }
        }
        Config { proxy: None, hosts, routes }
    }
}

/// Whether `i` is the first host named `name`.
pub open spec fn first_named(hosts: Seq<Host>, name: Seq<char>, i: int) -> bool {
    0 <= i < hosts.len() && hosts[i].name@ == name && forall|j: int|
        0 <= j < i ==> hosts[j].name@ != name
}

/// Whether no host is named `name`.
pub open spec fn none_named(hosts: Seq<Host>, name: Seq<char>) -> bool {
    forall|i: int| 0 <= i < hosts.len() ==> hosts[i].name@ != name
}

/// Whether `k` is the first of `insts` with port `port`.
pub open spec fn first_port(insts: Seq<SocketAddress>, port: u16, k: int) -> bool {
    0 <= k < insts.len() && insts[k].port == port && forall|j: int|
        0 <= j < k ==> (#[trigger] insts[j]).port != port
}

/// The instance with port `port` of the first host named `name`.
pub open spec fn resolved_instance(hosts: Seq<Host>, name: Seq<char>, port: u16) -> Option<
    SocketAddress,
> {
    if exists|i: int| first_named(hosts, name, i) {
        let i = choose|i: int| first_named(hosts, name, i);
        let insts = hosts[i].instances@;
        if exists|k: int| first_port(insts, port, k) {
            Some(insts[choose|k: int| first_port(insts, port, k)])
        } else {
            None
        }
    } else {
        None
    }
}

/// At most one host is the first named `name`.
pub proof fn lemma_first_named_unique(hosts: Seq<Host>, name: Seq<char>, i: int, j: int)
    requires
        first_named(hosts, name, i),
        first_named(hosts, name, j),
    ensures
        i == j,
{
    if i < j {
        assert(hosts[i].name@ != name);
    } else if j < i {
        assert(hosts[j].name@ != name);
    }
}

proof fn lemma_first_port_unique(insts: Seq<SocketAddress>, port: u16, k: int, l: int)
    requires
        first_port(insts, port, k),
        first_port(insts, port, l),
    ensures
        k == l,
{
    if k < l {
        assert(insts[k].port != port);
    } else if l < k {
        assert(insts[l].port != port);
    }
}

fn find_named(hosts: &Vec<Host>, name: &str) -> (r: Option<usize>)
    ensures
        match r {
            Some(i) => first_named(hosts@, name@, i as int),
            None => none_named(hosts@, name@),
        },
{
    let mut i: usize = 0;
    while i < hosts.len()
        invariant
            i <= hosts@.len(),
            forall|j: int| 0 <= j < i ==> hosts@[j].name@ != name@,
        decreases hosts.len() - i,
    {
        if str_eq(hosts[i].name.as_str(), name) {
            return Some(i);
        }
        i = i + 1;
    }
    None
}

/// Calls `SliceRandom::choose` with the thread's random generator, which
/// gives an element of a non-empty slice, and nothing for an empty one;
/// which element is left to chance.
#[verifier::external_body]
fn choose_instance(v: &Vec<SocketAddress>) -> (r: Option<&SocketAddress>)
    ensures
        v@.len() == 0 <==> r is None,
        r matches Some(a) ==> exists|i: int| 0 <= i < v@.len() && v@[i] == *a,
{
    v.choose(&mut rand::thread_rng())
}

impl Config {
    /// The instance with port `instance` of the first host named `backend`.
    pub fn resolve_instance(&self, backend: &str, instance: u16) -> (r: Option<&SocketAddress>)
        ensures
            match r {
                Some(a) => exists|i: int, k: int|
                    first_named(self.hosts@, backend@, i) && 0 <= k
                        < self.hosts@[i].instances@.len() && self.hosts@[i].instances@[k] == *a
                        && a.port == instance && forall|j: int|
                        0 <= j < k ==> (#[trigger] self.hosts@[i].instances@[j]).port != instance,
                None => none_named(self.hosts@, backend@) || exists|i: int|
                    first_named(self.hosts@, backend@, i) && forall|k: int|
                        0 <= k < self.hosts@[i].instances@.len() ==> (
                        #[trigger] self.hosts@[i].instances@[k]).port != instance,
            },
            match r {
                Some(a) => resolved_instance(self.hosts@, backend@, instance) == Some(*a),
                None => resolved_instance(self.hosts@, backend@, instance) is None,
            },
    {
        match find_named(&self.hosts, backend) {
            Some(i) => {
                proof {
                    let c = choose|c: int| first_named(self.hosts@, backend@, c);
                    lemma_first_named_unique(self.hosts@, backend@, i as int, c);
                }
                let inst = &self.hosts[i].instances;
                let mut k: usize = 0;
                while k < inst.len()
                    invariant
                        k <= inst@.len(),
                        first_named(self.hosts@, backend@, i as int),
                        *inst == self.hosts@[i as int].instances,
                        forall|j: int| 0 <= j < k ==> (#[trigger] inst@[j]).port != instance,
                    decreases inst.len() - k,
                {
                    if inst[k].port == instance {
                        assert(self.hosts@[i as int].instances@[k as int] == inst@[k as int]);
                        proof {
                            assert(first_port(inst@, instance, k as int));
                            let c = choose|c: int| first_port(inst@, instance, c);
                            lemma_first_port_unique(inst@, instance, k as int, c);
                        }
                        return Some(&inst[k]);
                    }
                    k = k + 1;
                }
                proof {
                    assert forall|c: int| !first_port(inst@, instance, c) by {
                        if first_port(inst@, instance, c) {
                            assert(inst@[c].port != instance);
                        }
                    }
                }
                None
            },
            None => None,
        }
    }

    /// The instances of the first host named `backend`.
    pub fn all_backend_instances(&self, backend: &str) -> (r: Option<&Vec<SocketAddress>>)
        ensures
            match r {
                Some(v) => exists|i: int|
                    first_named(self.hosts@, backend@, i) && v@ == (
                    #[trigger] self.hosts@[i]).instances@,
                None => none_named(self.hosts@, backend@),
            },
    {
        match find_named(&self.hosts, backend) {
            Some(i) => Some(&self.hosts[i].instances),
            None => None,
        }
    }

    /// A random instance of the first host named `backend`: none when there
    /// is no such host or it has no instances.
    pub fn select_backend_instance(&self, backend: &str) -> (r: Option<&SocketAddress>)
        ensures
            match r {
                Some(a) => exists|i: int, k: int|
                    first_named(self.hosts@, backend@, i) && 0 <= k
                        < self.hosts@[i].instances@.len() && (#[trigger] self.hosts@[i].instances@[k])
                        == *a,
                None => none_named(self.hosts@, backend@) || exists|i: int|
                    first_named(self.hosts@, backend@, i) && (
                    #[trigger] self.hosts@[i]).instances@.len() == 0,
            },
    {
        match self.all_backend_instances(backend) {
            Some(v) => choose_instance(v),
            None => None,
        }
    }
}

} // verus!
