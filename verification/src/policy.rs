//! The policy generator of the benchmarks: it scales the four policies of a
//! configuration template (header matches, RBAC policies, JWT claims,
//! header removals) to given sizes.

use crate::config::beeline::{Config as BConfig, Filter, JwtFilter, MutateFilter, Pattern};
use crate::config::envoy::{
    Config as EConfig, Filter as EFilter, FilterChain, HeaderMatch, HttpFilter, JwtAuthn,
    JwtProvider, Listener, Route as ERoute, VirtualHost,
};
use crate::config::envoy::clone_yaml;
use crate::config::{copy_pairs, pairs_view};
use crate::table::{key_index, lemma_key_index_before, lemma_key_index_take, lookup};
use crate::text::{chars_of, push_char};
use vstd::prelude::*;

verus! {

broadcast use vstd::string::group_string_axioms;

/// The header names the generated policies use, in order.
pub open spec fn keys_text() -> Seq<char> {
    "abcdefghijklmopqrstuvwxyz"@
}

fn keys() -> (r: &'static str)
    ensures
        r@ == keys_text(),
{
    "abcdefghijklmopqrstuvwxyz"
}

/// The value of the generated headers and claims: `m` times 'a'.
pub open spec fn a_times(m: nat) -> Seq<char> {
    Seq::new(m, |i: int| 'a')
}

/// The first `n` header names, each a one-letter string.
pub open spec fn policy_keys(n: nat) -> Seq<Seq<char>> {
    Seq::new(n, |i: int| seq![keys_text()[i]])
}

/// The number of header names there are.
pub proof fn lemma_keys_len()
    ensures
        keys_text().len() == 25,
{
    reveal_strlit("abcdefghijklmopqrstuvwxyz");
    assert("abcdefghijklmopqrstuvwxyz"@.len() == 25);
}

fn a_string(m: usize) -> (r: String)
    ensures
        r@ == a_times(m as nat),
{
    let mut out = String::new();
    let mut i: usize = 0;
    while i < m
        invariant
            i <= m,
            out@ == a_times(i as nat),
        decreases m - i,
    {
        push_char(&mut out, 'a');
        i = i + 1;
        assert(out@ =~= a_times(i as nat));
    }
    out
}

fn key_string(keys: &Vec<char>, i: usize) -> (r: String)
    requires
        i < keys@.len(),
    ensures
        r@ == seq![keys@[i as int]],
{
    let mut out = String::new();
    push_char(&mut out, keys[i]);
    assert(out@ =~= seq![keys@[i as int]]);
    out
}

/// The headers of policy 1: the first `n` names, each with `m` times 'a'.
pub fn generate_policy1_args(n: usize, m: usize) -> (r: Vec<(String, String)>)
    requires
        n <= 25,
    ensures
        pairs_view(r@) == Seq::new(n as nat, |i: int| (policy_keys(n as nat)[i], a_times(m as nat))),
{
    proof {
        lemma_keys_len();
    }
    let keys = chars_of(keys());
    let val = a_string(m);
    let mut args: Vec<(String, String)> = Vec::new();
    let mut i: usize = 0;
    while i < n
        invariant
            i <= n <= 25,
            keys@ == keys_text(),
            keys_text().len() == 25,
            val@ == a_times(m as nat),
            pairs_view(args@) == Seq::new(i as nat, |k: int| (policy_keys(n as nat)[k], a_times(m as nat))),
        decreases n - i,
    {
        let key = key_string(&keys, i);
        let v = val.clone();
        let ghost prev = args@;
        args.push((key, v));
        proof {
            assert(args@ == prev.push((key, v)));
            assert(pairs_view(args@) =~= pairs_view(prev).push((key@, v@)));
            assert(policy_keys(n as nat)[i as int] == seq![keys_text()[i as int]]);
            assert(pairs_view(args@) =~= Seq::new(
                i as nat + 1,
                |k: int| (policy_keys(n as nat)[k], a_times(m as nat)),
            ));
        }
        i = i + 1;
    }
    args
}

/// The claims of policy 3: an issuer of `n` and an audience of `m` times 'a'.
pub fn generate_policy3_args(n: usize, m: usize) -> (r: Vec<(String, String)>)
    ensures
        pairs_view(r@) == seq![("iss"@, a_times(n as nat)), ("aud"@, a_times(m as nat))],
{
    let mut args: Vec<(String, String)> = Vec::new();
    args.push(("iss".to_string(), a_string(n)));
    args.push(("aud".to_string(), a_string(m)));
    assert(pairs_view(args@) =~= seq![("iss"@, a_times(n as nat)), ("aud"@, a_times(m as nat))]);
    args
}

/// The headers policy 4 removes: the first `n` names.
pub fn generate_policy4_args(n: usize) -> (r: Vec<String>)
    requires
        n <= 25,
    ensures
        crate::text::views(r@) == policy_keys(n as nat),
{
    proof {
        lemma_keys_len();
    }
    let keys = chars_of(keys());
    let mut out: Vec<String> = Vec::new();
    let mut i: usize = 0;
    while i < n
        invariant
            i <= n <= 25,
            keys@ == keys_text(),
            keys_text().len() == 25,
            crate::text::views(out@) == policy_keys(n as nat).take(i as int),
        decreases n - i,
    {
        let key = key_string(&keys, i);
        let ghost prev = out@;
        out.push(key);
        proof {
            assert(crate::text::views(out@) =~= crate::text::views(prev).push(key@));
            assert(policy_keys(n as nat)[i as int] == seq![keys_text()[i as int]]);
            assert(crate::text::views(out@) =~= policy_keys(n as nat).take(i as int + 1));
        }
        i = i + 1;
    }
    assert(policy_keys(n as nat).take(n as int) =~= policy_keys(n as nat));
    out
}

/// Whether `new` is `old` with every route matching the headers `hdrs`.
pub open spec fn routes_match(old: BConfig, new: BConfig, hdrs: Seq<(Seq<char>, Seq<char>)>) -> bool {
    &&& new.routes@.len() == old.routes@.len()
    &&& forall|i: int|
        0 <= i < new.routes@.len() ==> {
            &&& (#[trigger] new.routes@[i]).pattern.headers matches Some(h) && pairs_view(h@) == hdrs
            &&& new.routes@[i].pattern.path == old.routes@[i].pattern.path
            &&& new.routes@[i].dest == old.routes@[i].dest
            &&& new.routes@[i].filters == old.routes@[i].filters
        }
    &&& new.hosts == old.hosts && new.policies == old.policies && new.socket == old.socket
    &&& new.tls == old.tls && new.proxy == old.proxy && new.stats == old.stats
    &&& new.network == old.network
}

/// Whether `new` keeps every part of `old` but its routes and policies.
pub open spec fn same_but_routes(old: BConfig, new: BConfig) -> bool {
    &&& new.hosts == old.hosts && new.socket == old.socket && new.tls == old.tls
    &&& new.proxy == old.proxy && new.stats == old.stats && new.network == old.network
}

/// Whether `new` is `old` after policy 1 with `n` headers of `m` bytes.
pub open spec fn beeline_policy1_done(old: BConfig, new: BConfig, n: nat, m: nat) -> bool {
    routes_match(old, new, Seq::new(n, |i: int| (policy_keys(n)[i], a_times(m))))
}

/// Whether `new` is `old` after policy 2 with `n` policies.
pub open spec fn beeline_policy2_done(old: BConfig, new: BConfig, n: nat) -> bool {
    &&& new.policies@ == old.policies@.skip(old.policies@.len() - n)
    &&& new.routes == old.routes
    &&& same_but_routes(old, new)
}

/// Whether the routes of `new` are those of `old`, each with one more
/// filter at its end that meets `last`.
pub open spec fn filter_added(old: BConfig, new: BConfig, last: spec_fn(Filter) -> bool) -> bool {
    &&& new.routes@.len() == old.routes@.len()
    &&& forall|i: int|
        0 <= i < new.routes@.len() ==> {
            let f = (#[trigger] new.routes@[i]).filters@;
            let o = old.routes@[i].filters@;
            &&& f.len() == o.len() + 1
            &&& f.take(o.len() as int) == o
            &&& last(f.last())
            &&& new.routes@[i].pattern == old.routes@[i].pattern
            &&& new.routes@[i].dest == old.routes@[i].dest
        }
    &&& new.policies == old.policies
    &&& same_but_routes(old, new)
}

/// Whether `new` is `old` after policy 3 with an issuer of `n` and an
/// audience of `m` bytes.
pub open spec fn beeline_policy3_done(old: BConfig, new: BConfig, n: nat, m: nat) -> bool {
    filter_added(old, new, |f: Filter| is_policy3_filter(f, n, m))
}

/// Whether `new` is `old` after policy 4 with `n` header names.
pub open spec fn beeline_policy4_done(old: BConfig, new: BConfig, n: nat) -> bool {
    filter_added(old, new, |f: Filter| is_policy4_filter(f, n))
}

/// Policy 1: every route matches `n` headers of `m` bytes.
pub fn generate_beeline_policy1(config: &mut BConfig, n: usize, m: usize)
    requires
        n <= 25,
    ensures
        beeline_policy1_done(*old(config), *final(config), n as nat, m as nat),
{
    let hdrs = generate_policy1_args(n, m);
    let ghost want = Seq::new(n as nat, |i: int| (policy_keys(n as nat)[i], a_times(m as nat)));
    let ghost start = *config;
    let mut i: usize = 0;
    while i < config.routes.len()
        invariant
            i <= config.routes@.len(),
            config.routes@.len() == start.routes@.len(),
            pairs_view(hdrs@) == want,
            forall|j: int|
                0 <= j < config.routes@.len() ==> {
                    &&& (#[trigger] config.routes@[j]).pattern.path == start.routes@[j].pattern.path
                    &&& config.routes@[j].dest == start.routes@[j].dest
                    &&& config.routes@[j].filters == start.routes@[j].filters
                    &&& j < i ==> (config.routes@[j].pattern.headers matches Some(h) && pairs_view(
                        h@,
                    ) == want)
                },
            config.hosts == start.hosts && config.policies == start.policies,
            config.socket == start.socket && config.tls == start.tls && config.proxy
                == start.proxy,
            config.stats == start.stats && config.network == start.network,
        decreases config.routes.len() - i,
    {
        let h = copy_pairs(&hdrs);
        config.routes[i].pattern.headers = Some(h);
        i = i + 1;
    }
}

/// Policy 2: only the last `n` RBAC policies are kept.
pub fn generate_beeline_policy2(config: &mut BConfig, n: usize)
    requires
        3 <= n <= old(config).policies@.len(),
    ensures
        beeline_policy2_done(*old(config), *final(config), n as nat),
{
    let len = config.policies.len();
    let mut kept: Vec<crate::config::beeline::Policy> = Vec::new();
    let mut old_policies: Vec<crate::config::beeline::Policy> = Vec::new();
    std::mem::swap(&mut old_policies, &mut config.policies);
    let ghost all = old_policies@;
    let mut i: usize = 0;
    let mut rest = old_policies;
    let start = len - n;
    while rest.len() > 0
        invariant
            i + rest@.len() == len,
            all.len() == len,
            rest@ == all.skip(i as int),
            start <= len,
            kept@ == (if i <= start {
                Seq::empty()
            } else {
                all.subrange(start as int, i as int)
            }),
        decreases rest.len(),
    {
        let p = rest.remove(0);
        if i >= start {
            kept.push(p);
        }
        proof {
            assert(rest@ =~= all.skip(i as int + 1));
            if i >= start {
                assert(kept@ =~= all.subrange(start as int, i as int + 1));
            }
        }
        i = i + 1;
    }
    assert(kept@ =~= all.skip(start as int));
    config.policies = kept;
}

/// The JWT filter of policy 3.
pub open spec fn is_policy3_filter(f: Filter, n: nat, m: nat) -> bool {
    match f {
        Filter::Jwt(j) => {
            &&& j.secret@ == "testtest12345678"@
            &&& j.issuer matches Some(iss) && iss@ == a_times(n)
            &&& j.audience matches Some(aud) && aud@ == a_times(m)
        },
        _ => false,
    }
}

/// The mutation filter of policy 4.
pub open spec fn is_policy4_filter(f: Filter, n: nat) -> bool {
    match f {
        Filter::Mutate(x) => {
            &&& x.add is None
            &&& x.remove matches Some(ks) && crate::text::views(ks@) == policy_keys(n)
        },
        _ => false,
    }
}

/// Policy 3: every route checks a JWT with an issuer of `n` and an
/// audience of `m` times 'a'.
pub fn generate_beeline_policy3(config: &mut BConfig, n: usize, m: usize)
    ensures
        beeline_policy3_done(*old(config), *final(config), n as nat, m as nat),
{
    let claims = generate_policy3_args(n, m);
    assert(claims@.len() == 2) by {
        assert(pairs_view(claims@).len() == claims@.len());
    }
    let ghost start = *config;
    let mut i: usize = 0;
    while i < config.routes.len()
        invariant
            i <= config.routes@.len(),
            config.routes@.len() == start.routes@.len(),
            claims@.len() == 2,
            pairs_view(claims@) == seq![("iss"@, a_times(n as nat)), ("aud"@, a_times(m as nat))],
            forall|j: int|
                0 <= j < config.routes@.len() ==> {
                    let f = (#[trigger] config.routes@[j]).filters@;
                    let o = start.routes@[j].filters@;
                    &&& j < i ==> {
                        &&& f.len() == o.len() + 1
                        &&& f.take(o.len() as int) == o
                        &&& is_policy3_filter(f.last(), n as nat, m as nat)
                    }
                    &&& j >= i ==> f == o
                    &&& config.routes@[j].pattern == start.routes@[j].pattern
                    &&& config.routes@[j].dest == start.routes@[j].dest
                },
            config.policies == start.policies,
            same_but_routes(start, *config),
        decreases config.routes.len() - i,
    {
        let filter = JwtFilter {
            secret: "testtest12345678".to_string(),
            issuer: Some(claims[0].1.clone()),
            audience: Some(claims[1].1.clone()),
        };
        assert(claims@[0].1@ == a_times(n as nat)) by {
            assert(pairs_view(claims@)[0] == (claims@[0].0@, claims@[0].1@));
        }
        assert(claims@[1].1@ == a_times(m as nat)) by {
            assert(pairs_view(claims@)[1] == (claims@[1].0@, claims@[1].1@));
        }
        let ghost before = config.routes@[i as int].filters@;
        config.routes[i].filters.push(Filter::Jwt(filter));
        assert(config.routes@[i as int].filters@.take(before.len() as int) =~= before);
        i = i + 1;
    }
}

/// Policy 4: every route removes the first `n` header names.
pub fn generate_beeline_policy4(config: &mut BConfig, n: usize)
    requires
        n <= 25,
    ensures
        beeline_policy4_done(*old(config), *final(config), n as nat),
{
    let ghost start = *config;
    let mut i: usize = 0;
    while i < config.routes.len()
        invariant
            i <= config.routes@.len(),
            n <= 25,
            config.routes@.len() == start.routes@.len(),
            forall|j: int|
                0 <= j < config.routes@.len() ==> {
                    let f = (#[trigger] config.routes@[j]).filters@;
                    let o = start.routes@[j].filters@;
                    &&& j < i ==> {
                        &&& f.len() == o.len() + 1
                        &&& f.take(o.len() as int) == o
                        &&& is_policy4_filter(f.last(), n as nat)
                    }
                    &&& j >= i ==> f == o
                    &&& config.routes@[j].pattern == start.routes@[j].pattern
                    &&& config.routes@[j].dest == start.routes@[j].dest
                },
            config.policies == start.policies,
            same_but_routes(start, *config),
        decreases config.routes.len() - i,
    {
        let keys = generate_policy4_args(n);
        let filter = MutateFilter { remove: Some(keys), add: None };
        let ghost before = config.routes@[i as int].filters@;
        config.routes[i].filters.push(Filter::Mutate(filter));
        assert(config.routes@[i as int].filters@.take(before.len() as int) =~= before);
        i = i + 1;
    }
}

/// What a policy changes in each Envoy route: the header matches, or the
/// headers to remove.
pub enum RouteEdit {
    Headers(Vec<HeaderMatch>),
    Remove(Vec<String>),
}

/// A header match by value: the name and the (kind, value) settings.
pub open spec fn header_match_view(h: HeaderMatch) -> (Seq<char>, Seq<(Seq<char>, Seq<char>)>) {
    (h.name@, pairs_view(h.string_match@))
}

/// What a route edit is, by value.
pub enum EditView {
    Headers(Seq<(Seq<char>, Seq<(Seq<char>, Seq<char>)>)>),
    Remove(Seq<Seq<char>>),
}

impl View for RouteEdit {
    type V = EditView;

    open spec fn view(&self) -> EditView {
        match self {
            RouteEdit::Headers(h) => EditView::Headers(
                h@.map_values(|x: HeaderMatch| header_match_view(x)),
            ),
            RouteEdit::Remove(k) => EditView::Remove(crate::text::views(k@)),
        }
    }
}

/// Whether `new` is the route `old` with the edit made.
pub open spec fn route_edited(old: ERoute, new: ERoute, e: EditView) -> bool {
    &&& new.route_match.path == old.route_match.path
    &&& new.route == old.route
    &&& new.request_headers_to_add == old.request_headers_to_add
    &&& match e {
        EditView::Headers(h) => new.route_match.headers@.map_values(
            |x: HeaderMatch| header_match_view(x),
        ) == h && new.request_headers_to_remove == old.request_headers_to_remove,
        EditView::Remove(k) => crate::text::views(new.request_headers_to_remove@) == k
            && new.route_match.headers == old.route_match.headers,
    }
}

/// Whether `new` is the routes `old` each with the edit made.
pub open spec fn routes_edited(old: Seq<ERoute>, new: Seq<ERoute>, e: EditView) -> bool {
    old.len() == new.len() && forall|i: int| 0 <= i < old.len() ==> route_edited(old[i], #[trigger] new[i], e)
}

/// Whether `new` is the virtual hosts `old` with the edit made in each route.
pub open spec fn vhosts_edited(old: Seq<VirtualHost>, new: Seq<VirtualHost>, e: EditView) -> bool {
    old.len() == new.len() && forall|i: int|
        0 <= i < old.len() ==> {
            &&& (#[trigger] new[i]).name == old[i].name
            &&& new[i].domains == old[i].domains
            &&& routes_edited(old[i].routes@, new[i].routes@, e)
        }
}

/// Whether `new` is the filters `old` with the edit made in each route.
pub open spec fn filters_edited(old: Seq<EFilter>, new: Seq<EFilter>, e: EditView) -> bool {
    old.len() == new.len() && forall|i: int|
        0 <= i < old.len() ==> {
            &&& (#[trigger] new[i]).name == old[i].name
            &&& new[i].kind == old[i].kind
            &&& new[i].typed_config.kind == old[i].typed_config.kind
            &&& new[i].typed_config.stat_prefix == old[i].typed_config.stat_prefix
            &&& new[i].typed_config.codec_type == old[i].typed_config.codec_type
            &&& new[i].typed_config.http_filters == old[i].typed_config.http_filters
            &&& new[i].typed_config.route_config.name == old[i].typed_config.route_config.name
            &&& vhosts_edited(
                old[i].typed_config.route_config.virtual_hosts@,
                new[i].typed_config.route_config.virtual_hosts@,
                e,
            )
        }
}

/// Whether `new` is the listeners `old` with the edit made in each route.
pub open spec fn listeners_edited(old: Seq<Listener>, new: Seq<Listener>, e: EditView) -> bool {
    old.len() == new.len() && forall|i: int|
        0 <= i < old.len() ==> {
            &&& (#[trigger] new[i]).name == old[i].name
            &&& new[i].address == old[i].address
            &&& new[i].filter_chains@.len() == old[i].filter_chains@.len()
            &&& forall|j: int|
                0 <= j < old[i].filter_chains@.len() ==> filters_edited(
                    old[i].filter_chains@[j].filters@,
                    (#[trigger] new[i].filter_chains@[j]).filters@,
                    e,
                )
        }
}

/// Whether `new` is the configuration `old` with the edit made in each route.
pub open spec fn config_edited(old: EConfig, new: EConfig, e: EditView) -> bool {
    &&& new.stats_config == old.stats_config
    &&& new.static_resources.clusters == old.static_resources.clusters
    &&& listeners_edited(old.static_resources.listeners@, new.static_resources.listeners@, e)
}

fn copy_header_matches(v: &Vec<HeaderMatch>) -> (r: Vec<HeaderMatch>)
    ensures
        r@.map_values(|x: HeaderMatch| header_match_view(x)) == v@.map_values(
            |x: HeaderMatch| header_match_view(x),
        ),
{
    let mut out: Vec<HeaderMatch> = Vec::new();
    let mut i: usize = 0;
    while i < v.len()
        invariant
            i <= v@.len(),
            out@.map_values(|x: HeaderMatch| header_match_view(x)) == v@.take(i as int).map_values(
                |x: HeaderMatch| header_match_view(x),
            ),
        decreases v.len() - i,
    {
        let h = HeaderMatch { name: v[i].name.clone(), string_match: copy_pairs(&v[i].string_match) };
        let ghost prev = out@;
        out.push(h);
        proof {
            assert(out@.map_values(|x: HeaderMatch| header_match_view(x)) =~= prev.map_values(
                |x: HeaderMatch| header_match_view(x),
            ).push(header_match_view(v@[i as int])));
            assert(v@.take(i as int + 1).map_values(|x: HeaderMatch| header_match_view(x))
                =~= v@.take(i as int).map_values(|x: HeaderMatch| header_match_view(x)).push(
                header_match_view(v@[i as int]),
            ));
        }
        i = i + 1;
    }
    assert(v@.take(v@.len() as int) =~= v@);
    out
}

fn copy_strings(v: &Vec<String>) -> (r: Vec<String>)
    ensures
        crate::text::views(r@) == crate::text::views(v@),
{
    let mut out: Vec<String> = Vec::new();
    let mut i: usize = 0;
    while i < v.len()
        invariant
            i <= v@.len(),
            crate::text::views(out@) == crate::text::views(v@.take(i as int)),
        decreases v.len() - i,
    {
        let ghost prev = out@;
        let c = v[i].clone();
        out.push(c);
        proof {
            assert(crate::text::views(out@) =~= crate::text::views(prev).push(v@[i as int]@));
            assert(v@.take(i as int + 1) =~= v@.take(i as int).push(v@[i as int]));
            assert(crate::text::views(v@.take(i as int + 1)) =~= crate::text::views(
                v@.take(i as int),
            ).push(v@[i as int]@));
        }
        i = i + 1;
    }
    assert(v@.take(v@.len() as int) =~= v@);
    out
}

fn edit_route(r: &mut ERoute, e: &RouteEdit)
    ensures
        route_edited(*old(r), *final(r), e@),
{
    match e {
        RouteEdit::Headers(h) => {
            r.route_match.headers = copy_header_matches(h);
        },
        RouteEdit::Remove(k) => {
            r.request_headers_to_remove = copy_strings(k);
        },
    }
}

fn edit_routes(rs: &mut Vec<ERoute>, e: &RouteEdit)
    ensures
        routes_edited(old(rs)@, final(rs)@, e@),
{
    let ghost start = rs@;
    let mut i: usize = 0;
    while i < rs.len()
        invariant
            i <= rs@.len(),
            rs@.len() == start.len(),
            forall|j: int| 0 <= j < i ==> route_edited(start[j], #[trigger] rs@[j], e@),
            forall|j: int| i <= j < rs@.len() ==> #[trigger] rs@[j] == start[j],
        decreases rs.len() - i,
    {
        edit_route(&mut rs[i], e);
        i = i + 1;
    }
}

fn edit_vhosts(vs: &mut Vec<VirtualHost>, e: &RouteEdit)
    ensures
        vhosts_edited(old(vs)@, final(vs)@, e@),
{
    let ghost start = vs@;
    let mut i: usize = 0;
    while i < vs.len()
        invariant
            i <= vs@.len(),
            vs@.len() == start.len(),
            forall|j: int|
                0 <= j < i ==> {
                    &&& (#[trigger] vs@[j]).name == start[j].name
                    &&& vs@[j].domains == start[j].domains
                    &&& routes_edited(start[j].routes@, vs@[j].routes@, e@)
                },
            forall|j: int| i <= j < vs@.len() ==> #[trigger] vs@[j] == start[j],
        decreases vs.len() - i,
    {
        edit_routes(&mut vs[i].routes, e);
        i = i + 1;
    }
}

fn edit_filters(fs: &mut Vec<EFilter>, e: &RouteEdit)
    ensures
        filters_edited(old(fs)@, final(fs)@, e@),
{
    let ghost start = fs@;
    let mut i: usize = 0;
    while i < fs.len()
        invariant
            i <= fs@.len(),
            fs@.len() == start.len(),
            forall|j: int|
                0 <= j < i ==> {
                    &&& (#[trigger] fs@[j]).name == start[j].name
                    &&& fs@[j].kind == start[j].kind
                    &&& fs@[j].typed_config.kind == start[j].typed_config.kind
                    &&& fs@[j].typed_config.stat_prefix == start[j].typed_config.stat_prefix
                    &&& fs@[j].typed_config.codec_type == start[j].typed_config.codec_type
                    &&& fs@[j].typed_config.http_filters == start[j].typed_config.http_filters
                    &&& fs@[j].typed_config.route_config.name
                        == start[j].typed_config.route_config.name
                    &&& vhosts_edited(
                        start[j].typed_config.route_config.virtual_hosts@,
                        fs@[j].typed_config.route_config.virtual_hosts@,
                        e@,
                    )
                },
            forall|j: int| i <= j < fs@.len() ==> #[trigger] fs@[j] == start[j],
        decreases fs.len() - i,
    {
        edit_vhosts(&mut fs[i].typed_config.route_config.virtual_hosts, e);
        i = i + 1;
    }
}

fn edit_listeners(ls: &mut Vec<Listener>, e: &RouteEdit)
    ensures
        listeners_edited(old(ls)@, final(ls)@, e@),
{
    let ghost start = ls@;
    let mut i: usize = 0;
    while i < ls.len()
        invariant
            i <= ls@.len(),
            ls@.len() == start.len(),
            forall|j: int|
                0 <= j < i ==> {
                    &&& (#[trigger] ls@[j]).name == start[j].name
                    &&& ls@[j].address == start[j].address
                    &&& ls@[j].filter_chains@.len() == start[j].filter_chains@.len()
                    &&& forall|k: int|
                        0 <= k < start[j].filter_chains@.len() ==> filters_edited(
                            start[j].filter_chains@[k].filters@,
                            (#[trigger] ls@[j].filter_chains@[k]).filters@,
                            e@,
                        )
                },
            forall|j: int| i <= j < ls@.len() ==> #[trigger] ls@[j] == start[j],
        decreases ls.len() - i,
    {
        let chains = &mut ls[i].filter_chains;
        let ghost cstart = chains@;
        let mut k: usize = 0;
        while k < chains.len()
            invariant
                k <= chains@.len(),
                chains@.len() == cstart.len(),
                forall|x: int|
                    0 <= x < k ==> filters_edited(cstart[x].filters@, (#[trigger] chains@[x]).filters@, e@),
                forall|x: int| k <= x < chains@.len() ==> #[trigger] chains@[x] == cstart[x],
            decreases chains.len() - k,
        {
            edit_filters(&mut chains[k].filters, e);
            k = k + 1;
        }
        i = i + 1;
    }
}

/// The header matches of policy 1 in Envoy's form: each of the first `n`
/// names must equal `m` times 'a'.
pub open spec fn envoy_policy1_headers(n: nat, m: nat) -> Seq<(Seq<char>, Seq<(Seq<char>, Seq<char>)>)> {
    Seq::new(n, |i: int| (policy_keys(n)[i], seq![("exact"@, a_times(m))]))
}

/// Policy 1 for Envoy: every route matches `n` headers of `m` bytes.
pub fn generate_envoy_policy1(config: &mut EConfig, n: usize, m: usize)
    requires
        n <= 25,
    ensures
        config_edited(*old(config), *final(config), EditView::Headers(envoy_policy1_headers(n as nat, m as nat))),
{
    let args = generate_policy1_args(n, m);
    assert(pairs_view(args@).len() == args@.len());
    let mut hdrs: Vec<HeaderMatch> = Vec::new();
    let mut i: usize = 0;
    while i < args.len()
        invariant
            i <= args@.len(),
            args@.len() == n,
            pairs_view(args@) == Seq::new(n as nat, |k: int| (policy_keys(n as nat)[k], a_times(m as nat))),
            hdrs@.map_values(|x: HeaderMatch| header_match_view(x)) == envoy_policy1_headers(
                n as nat,
                m as nat,
            ).take(i as int),
        decreases args.len() - i,
    {
        let mut sm: Vec<(String, String)> = Vec::new();
        let ex = "exact".to_string();
        let val = args[i].1.clone();
        sm.push((ex, val));
        let h = HeaderMatch { name: args[i].0.clone(), string_match: sm };
        let ghost prev = hdrs@;
        hdrs.push(h);
        proof {
            assert(pairs_view(args@)[i as int] == (args@[i as int].0@, args@[i as int].1@));
            assert(sm@ == seq![(ex, val)]);
            assert(pairs_view(sm@) =~= seq![("exact"@, a_times(m as nat))]);
            assert(hdrs@.map_values(|x: HeaderMatch| header_match_view(x)) =~= prev.map_values(
                |x: HeaderMatch| header_match_view(x),
            ).push(header_match_view(h)));
            assert(hdrs@.map_values(|x: HeaderMatch| header_match_view(x)) =~= envoy_policy1_headers(
                n as nat,
                m as nat,
            ).take(i as int + 1));
        }
        i = i + 1;
    }
    proof {
        assert(envoy_policy1_headers(n as nat, m as nat).take(n as int) =~= envoy_policy1_headers(
            n as nat,
            m as nat,
        ));
    }
    let e = RouteEdit::Headers(hdrs);
    edit_listeners(&mut config.static_resources.listeners, &e);
}

/// Policy 4 for Envoy: every route removes the first `n` header names.
pub fn generate_envoy_policy4(config: &mut EConfig, n: usize)
    requires
        n <= 25,
    ensures
        config_edited(*old(config), *final(config), EditView::Remove(policy_keys(n as nat))),
{
    let keys = generate_policy4_args(n);
    let e = RouteEdit::Remove(keys);
    edit_listeners(&mut config.static_resources.listeners, &e);
}

/// The RBAC policies that policy 2 always keeps.
pub open spec fn fixed_policy_names() -> Seq<Seq<char>> {
    seq!["service-1-post-policy-v1"@, "service-2-post-policy-v1"@, "service-3-post-policy-v1"@]
}

/// The names of the RBAC policies that policy 2 keeps for Envoy, from the
/// names `names` of the template in order: the fixed ones, with each other
/// name put in front of them until there are `n`.
pub open spec fn envoy_policy2_names(names: Seq<Seq<char>>, n: nat) -> Seq<Seq<char>>
    decreases names.len(),
{
    if names.len() == 0 {
        fixed_policy_names()
    } else {
        let s = envoy_policy2_names(names.drop_last(), n);
        let k = names.last();
        if s.len() < n && !s.contains(k) {
            seq![k] + s
        } else {
            s
        }
    }
}

fn contains_str(v: &Vec<String>, k: &str) -> (r: bool)
    ensures
        r == crate::text::views(v@).contains(k@),
{
    let mut i: usize = 0;
    while i < v.len()
        invariant
            i <= v@.len(),
            forall|j: int| 0 <= j < i ==> v@[j]@ != k@,
        decreases v.len() - i,
    {
        if crate::text::str_eq(v[i].as_str(), k) {
            assert(crate::text::views(v@)[i as int] == k@);
            return true;
        }
        i = i + 1;
    }
    proof {
        if crate::text::views(v@).contains(k@) {
            let j = choose|j: int| 0 <= j < v@.len() && crate::text::views(v@)[j] == k@;
            assert(v@[j]@ == k@);
        }
    }
    false
}

/// Policy 2 for Envoy: the names of the RBAC policies to keep, given the
/// names of the template's policies in order.
pub fn envoy_policy2_keys(names: &Vec<String>, n: usize) -> (r: Vec<String>)
    requires
        n >= 3,
    ensures
        crate::text::views(r@) == envoy_policy2_names(crate::text::views(names@), n as nat),
{
    let ghost ns = crate::text::views(names@);
    let mut keys: Vec<String> = Vec::new();
    keys.push("service-1-post-policy-v1".to_string());
    keys.push("service-2-post-policy-v1".to_string());
    keys.push("service-3-post-policy-v1".to_string());
    assert(crate::text::views(keys@) =~= fixed_policy_names());
    assert(ns.take(0).len() == 0);
    let mut i: usize = 0;
    while i < names.len()
        invariant
            i <= names@.len(),
            ns == crate::text::views(names@),
            crate::text::views(keys@) == envoy_policy2_names(ns.take(i as int), n as nat),
        decreases names.len() - i,
    {
        proof {
            assert(ns.take(i + 1).drop_last() =~= ns.take(i as int));
            assert(ns.take(i + 1).last() == names@[i as int]@);
        }
        if keys.len() < n && !contains_str(&keys, names[i].as_str()) {
            let ghost prev = crate::text::views(keys@);
            keys.insert(0, names[i].clone());
            assert(crate::text::views(keys@) =~= seq![names@[i as int]@] + prev);
        }
        i = i + 1;
    }
    assert(ns.take(names@.len() as int) =~= ns);
    keys
}

/// The policies of an RBAC filter by value: name and policy.
pub open spec fn policy_pairs(ps: Seq<(String, serde_yaml::Value)>) -> Seq<(Seq<char>, serde_yaml::Value)> {
    ps.map_values(|p: (String, serde_yaml::Value)| (p.0@, p.1))
}

/// The names of the policies of an RBAC filter, in order.
pub open spec fn policy_names(ps: Seq<(String, serde_yaml::Value)>) -> Seq<Seq<char>> {
    ps.map_values(|p: (String, serde_yaml::Value)| p.0@)
}

/// The policies named `keys`, in that order, each the first policy of its
/// name in `ps`.
pub open spec fn kept_policies(ps: Seq<(String, serde_yaml::Value)>, keys: Seq<Seq<char>>) -> Seq<
    (Seq<char>, serde_yaml::Value),
> {
    keys.map_values(|k: Seq<char>| (k, lookup(policy_pairs(ps), k)->0))
}

/// Whether `ps` holds every policy that policy 2 always keeps.
pub open spec fn has_fixed_policies(ps: Seq<(String, serde_yaml::Value)>) -> bool {
    forall|i: int| 0 <= i < 3 ==> policy_names(ps).contains(#[trigger] fixed_policy_names()[i])
}

/// Whether an HTTP filter, if it is an RBAC filter, holds every policy that
/// policy 2 always keeps.
pub open spec fn rbac_ok(f: HttpFilter) -> bool {
    f matches HttpFilter::Rbac(r) ==> has_fixed_policies(r.policies@)
}

/// Whether every RBAC filter of a connection manager holds the policies
/// that policy 2 always keeps.
pub open spec fn rbac_ok_manager(f: EFilter) -> bool {
    forall|h: int| 0 <= h < f.typed_config.http_filters@.len() ==> rbac_ok(#[trigger] f.typed_config.http_filters@[h])
}

/// Whether every RBAC filter of the listeners holds the policies that
/// policy 2 always keeps.
pub open spec fn rbac_ok_listeners(ls: Seq<Listener>) -> bool {
    forall|i: int, j: int, k: int|
        0 <= i < ls.len() && 0 <= j < ls[i].filter_chains@.len() && 0 <= k
            < ls[i].filter_chains@[j].filters@.len() ==> rbac_ok_manager(
            #[trigger] ls[i].filter_chains@[j].filters@[k],
        )
}

/// Whether `new` is the HTTP filter `old` after policy 2: an RBAC filter
/// keeps the policies `envoy_policy2_names` chooses, in that order; other
/// filters stay as they are.
pub open spec fn policy2_http_filter(old: HttpFilter, new: HttpFilter, n: nat) -> bool {
    match old {
        HttpFilter::Rbac(r) => new matches HttpFilter::Rbac(q) && q.raw == r.raw && policy_pairs(q.policies@)
            == kept_policies(r.policies@, envoy_policy2_names(policy_names(r.policies@), n)),
        _ => new == old,
    }
}

/// Whether `new` is the connection manager `old` after policy 2.
pub open spec fn policy2_filter(old: EFilter, new: EFilter, n: nat) -> bool {
    &&& new.name == old.name
    &&& new.kind == old.kind
    &&& new.typed_config.kind == old.typed_config.kind
    &&& new.typed_config.stat_prefix == old.typed_config.stat_prefix
    &&& new.typed_config.codec_type == old.typed_config.codec_type
    &&& new.typed_config.route_config == old.typed_config.route_config
    &&& new.typed_config.http_filters@.len() == old.typed_config.http_filters@.len()
    &&& forall|i: int|
        0 <= i < old.typed_config.http_filters@.len() ==> policy2_http_filter(
            old.typed_config.http_filters@[i],
            #[trigger] new.typed_config.http_filters@[i],
            n,
        )
}

/// Whether `new` is the listeners `old` after policy 2.
pub open spec fn policy2_listeners(old: Seq<Listener>, new: Seq<Listener>, n: nat) -> bool {
    old.len() == new.len() && forall|i: int|
        0 <= i < old.len() ==> {
            &&& (#[trigger] new[i]).name == old[i].name
            &&& new[i].address == old[i].address
            &&& new[i].filter_chains@.len() == old[i].filter_chains@.len()
            &&& forall|j: int|
                0 <= j < old[i].filter_chains@.len() ==> {
                    &&& (#[trigger] new[i].filter_chains@[j]).filters@.len()
                        == old[i].filter_chains@[j].filters@.len()
                    &&& forall|k: int|
                        0 <= k < old[i].filter_chains@[j].filters@.len() ==> policy2_filter(
                            old[i].filter_chains@[j].filters@[k],
                            #[trigger] new[i].filter_chains@[j].filters@[k],
                            n,
                        )
                }
        }
}

proof fn lemma_policy2_names_from(names: Seq<Seq<char>>, n: nat, k: Seq<char>)
    requires
        envoy_policy2_names(names, n).contains(k),
    ensures
        names.contains(k) || fixed_policy_names().contains(k),
    decreases names.len(),
{
    if names.len() > 0 {
        let d = names.drop_last();
        let s = envoy_policy2_names(d, n);
        if s.contains(k) {
            lemma_policy2_names_from(d, n, k);
            if d.contains(k) {
                let y = choose|y: int| 0 <= y < d.len() && d[y] == k;
                assert(names[y] == k);
            }
        } else {
            assert(k == names.last()) by {
                let y = choose|y: int| 0 <= y < envoy_policy2_names(names, n).len() && envoy_policy2_names(names, n)[y] == k;
                if y > 0 {
                    assert((seq![names.last()] + s)[y] == s[y - 1]);
                }
            }
            assert(names[names.len() - 1] == k);
        }
    }
}

fn policy_index(ps: &Vec<(String, serde_yaml::Value)>, k: &str) -> (r: Option<usize>)
    ensures
        match r {
            Some(i) => i < ps@.len() && key_index(policy_pairs(ps@), k@) == i,
            None => key_index(policy_pairs(ps@), k@) == -1,
        },
{
    let ghost sv = policy_pairs(ps@);
    let mut i: usize = 0;
    while i < ps.len()
        invariant
            i <= ps@.len(),
            sv == policy_pairs(ps@),
            forall|j: int| 0 <= j < i ==> sv[j].0 != k@,
        decreases ps.len() - i,
    {
        if crate::text::str_eq(ps[i].0.as_str(), k) {
            proof {
                lemma_key_index_take(sv, k@, i as int);
            }
            return Some(i);
        }
        i = i + 1;
    }
    proof {
        lemma_key_index_take(sv, k@, sv.len() as int);
    }
    None
}

/// Keeps the policies of an RBAC filter that policy 2 chooses.
fn policy2_policies(ps: &mut Vec<(String, serde_yaml::Value)>, n: usize)
    requires
        n >= 3,
        has_fixed_policies(old(ps)@),
    ensures
        policy_pairs(final(ps)@) == kept_policies(
            old(ps)@,
            envoy_policy2_names(policy_names(old(ps)@), n as nat),
        ),
{
    let mut names: Vec<String> = Vec::new();
    let mut i: usize = 0;
    while i < ps.len()
        invariant
            i <= ps@.len(),
            crate::text::views(names@) == policy_names(ps@).take(i as int),
        decreases ps.len() - i,
    {
        let nm = ps[i].0.clone();
        assert(nm@ == policy_names(ps@)[i as int]);
        let ghost prev = names@;
        names.push(nm);
        assert(crate::text::views(names@) =~= crate::text::views(prev).push(nm@));
        assert(policy_names(ps@).take(i as int + 1) =~= policy_names(ps@).take(i as int).push(nm@));
        i = i + 1;
    }
    assert(policy_names(ps@).take(ps@.len() as int) =~= policy_names(ps@));
    let keys = envoy_policy2_keys(&names, n);
    let ghost want = envoy_policy2_names(policy_names(ps@), n as nat);
    let ghost pv = policy_pairs(ps@);
    let mut kept: Vec<(String, serde_yaml::Value)> = Vec::new();
    let mut j: usize = 0;
    while j < keys.len()
        invariant
            j <= keys@.len(),
            crate::text::views(keys@) == want,
            want == envoy_policy2_names(policy_names(ps@), n as nat),
            pv == policy_pairs(ps@),
            has_fixed_policies(ps@),
            policy_pairs(kept@) == kept_policies(ps@, want.take(j as int)),
        decreases keys.len() - j,
    {
        let k = keys[j].as_str();
        assert(k@ == want[j as int]);
        proof {
            assert(want.contains(k@));
            lemma_policy2_names_from(policy_names(ps@), n as nat, k@);
            if fixed_policy_names().contains(k@) {
                let y = choose|y: int| 0 <= y < 3 && fixed_policy_names()[y] == k@;
                assert(policy_names(ps@).contains(fixed_policy_names()[y]));
            }
            assert(policy_names(ps@).contains(k@));
        }
        match policy_index(ps, k) {
            Some(p) => {
                proof {
                    crate::table::lemma_key_index_bounds(pv, k@);
                }
                let v = clone_yaml(&ps[p].1);
                let name = keys[j].clone();
                assert(name@ == k@);
                assert(lookup(pv, k@) == Some(ps@[p as int].1));
                let ghost prev = kept@;
                kept.push((name, v));
                assert(want.take(j as int + 1) =~= want.take(j as int).push(k@));
                assert(policy_pairs(kept@) =~= policy_pairs(prev).push((k@, v)));
                assert(policy_pairs(kept@) =~= kept_policies(ps@, want.take(j as int + 1)));
            },
            None => {
                proof {
                    let y = choose|y: int| 0 <= y < policy_names(ps@).len() && policy_names(ps@)[y] == k@;
                    lemma_key_index_before(pv, k@, y);
                    assert(pv[y].0 == k@);
                }
            },
        }
        j = j + 1;
    }
    assert(want.take(keys@.len() as int) =~= want);
    *ps = kept;
}

fn policy2_http_filters(fs: &mut Vec<HttpFilter>, n: usize)
    requires
        n >= 3,
        forall|i: int| 0 <= i < old(fs)@.len() ==> rbac_ok(#[trigger] old(fs)@[i]),
    ensures
        final(fs)@.len() == old(fs)@.len(),
        forall|i: int|
            0 <= i < old(fs)@.len() ==> policy2_http_filter(old(fs)@[i], #[trigger] final(fs)@[i], n as nat),
{
    let ghost start = fs@;
    let mut i: usize = 0;
    while i < fs.len()
        invariant
            i <= fs@.len(),
            fs@.len() == start.len(),
            n >= 3,
            forall|j: int| 0 <= j < start.len() ==> rbac_ok(#[trigger] start[j]),
            forall|j: int| 0 <= j < i ==> policy2_http_filter(start[j], #[trigger] fs@[j], n as nat),
            forall|j: int| i <= j < fs@.len() ==> #[trigger] fs@[j] == start[j],
        decreases fs.len() - i,
    {
        assert(rbac_ok(start[i as int]));
        match &mut fs[i] {
            HttpFilter::Rbac(r) => {
                policy2_policies(&mut r.policies, n);
            },
            _ => {},
        }
        i = i + 1;
    }
}

/// Policy 2 for Envoy: every RBAC filter keeps `n` of its policies, those
/// that `envoy_policy2_keys` chooses from its policy names.
pub fn generate_envoy_policy2(config: &mut EConfig, n: usize)
    requires
        n >= 3,
        rbac_ok_listeners(old(config).static_resources.listeners@),
    ensures
        final(config).stats_config == old(config).stats_config,
        final(config).static_resources.clusters == old(config).static_resources.clusters,
        policy2_listeners(
            old(config).static_resources.listeners@,
            final(config).static_resources.listeners@,
            n as nat,
        ),
{
    let ls = &mut config.static_resources.listeners;
    let ghost start = ls@;
    let mut i: usize = 0;
    while i < ls.len()
        invariant
            i <= ls@.len(),
            ls@.len() == start.len(),
            n >= 3,
            rbac_ok_listeners(start),
            forall|x: int|
                0 <= x < i ==> {
                    &&& (#[trigger] ls@[x]).name == start[x].name
                    &&& ls@[x].address == start[x].address
                    &&& ls@[x].filter_chains@.len() == start[x].filter_chains@.len()
                    &&& forall|j: int|
                        0 <= j < start[x].filter_chains@.len() ==> {
                            &&& (#[trigger] ls@[x].filter_chains@[j]).filters@.len()
                                == start[x].filter_chains@[j].filters@.len()
                            &&& forall|k: int|
                                0 <= k < start[x].filter_chains@[j].filters@.len()
                                    ==> policy2_filter(
                                    start[x].filter_chains@[j].filters@[k],
                                    #[trigger] ls@[x].filter_chains@[j].filters@[k],
                                    n as nat,
                                )
                        }
                },
            forall|x: int| i <= x < ls@.len() ==> #[trigger] ls@[x] == start[x],
        decreases ls.len() - i,
    {
        let ghost li = i as int;
        let chains = &mut ls[i].filter_chains;
        let ghost cstart = chains@;
        assert(cstart == start[li].filter_chains@);
        assert forall|y: int, k: int|
            0 <= y < cstart.len() && 0 <= k < cstart[y].filters@.len() implies rbac_ok_manager(
            #[trigger] cstart[y].filters@[k],
        ) by {
            assert(start[li].filter_chains@[y].filters@[k] == cstart[y].filters@[k]);
        }
        let mut j: usize = 0;
        while j < chains.len()
            invariant
                j <= chains@.len(),
                chains@.len() == cstart.len(),
                n >= 3,
                forall|y: int, k: int|
                    0 <= y < cstart.len() && 0 <= k < cstart[y].filters@.len() ==> rbac_ok_manager(
                        #[trigger] cstart[y].filters@[k],
                    ),
                forall|y: int|
                    0 <= y < j ==> {
                        &&& (#[trigger] chains@[y]).filters@.len() == cstart[y].filters@.len()
                        &&& forall|k: int|
                            0 <= k < cstart[y].filters@.len() ==> policy2_filter(
                                cstart[y].filters@[k],
                                #[trigger] chains@[y].filters@[k],
                                n as nat,
                            )
                    },
                forall|y: int| j <= y < chains@.len() ==> #[trigger] chains@[y] == cstart[y],
            decreases chains.len() - j,
        {
            let ghost cj = j as int;
            let fs = &mut chains[j].filters;
            let ghost fstart = fs@;
            assert(fstart == cstart[cj].filters@);
            let mut k: usize = 0;
            while k < fs.len()
                invariant
                    k <= fs@.len(),
                    fs@.len() == fstart.len(),
                    n >= 3,
                    forall|z: int| 0 <= z < fstart.len() ==> rbac_ok_manager(#[trigger] fstart[z]),
                    forall|z: int|
                        0 <= z < k ==> policy2_filter(fstart[z], #[trigger] fs@[z], n as nat),
                    forall|z: int| k <= z < fs@.len() ==> #[trigger] fs@[z] == fstart[z],
                decreases fs.len() - k,
            {
                assert(rbac_ok_manager(fstart[k as int]));
                policy2_http_filters(&mut fs[k].typed_config.http_filters, n);
                k = k + 1;
            }
            j = j + 1;
        }
        i = i + 1;
    }
}

/// Whether a JWT provider checks an issuer of `n` and an audience of `m`
/// times 'a'.
pub open spec fn policy3_provider(p: JwtProvider, n: nat, m: nat) -> bool {
    &&& p.issuer matches Some(i) && i@ == a_times(n)
    &&& p.audiences matches Some(a) && a@.len() == 1 && a@[0]@ == a_times(m)
}

/// Whether `new` is the HTTP filter `old` after policy 3: every provider of
/// a JWT filter checks the claims, other filters stay as they are.
pub open spec fn policy3_http_filter(old: HttpFilter, new: HttpFilter, n: nat, m: nat) -> bool {
    match old {
        HttpFilter::Jwt(j) => new matches HttpFilter::Jwt(k) && k.raw == j.raw && k.providers@.len()
            == j.providers@.len() && forall|i: int|
            0 <= i < k.providers@.len() ==> policy3_provider(#[trigger] k.providers@[i], n, m),
        _ => new == old,
    }
}

/// Whether `new` is the connection manager `old` after policy 3.
pub open spec fn policy3_filter(old: EFilter, new: EFilter, n: nat, m: nat) -> bool {
    &&& new.name == old.name
    &&& new.kind == old.kind
    &&& new.typed_config.kind == old.typed_config.kind
    &&& new.typed_config.stat_prefix == old.typed_config.stat_prefix
    &&& new.typed_config.codec_type == old.typed_config.codec_type
    &&& new.typed_config.route_config == old.typed_config.route_config
    &&& new.typed_config.http_filters@.len() == old.typed_config.http_filters@.len()
    &&& forall|i: int|
        0 <= i < old.typed_config.http_filters@.len() ==> policy3_http_filter(
            old.typed_config.http_filters@[i],
            #[trigger] new.typed_config.http_filters@[i],
            n,
            m,
        )
}

/// Whether `new` is the listeners `old` after policy 3.
pub open spec fn policy3_listeners(old: Seq<Listener>, new: Seq<Listener>, n: nat, m: nat) -> bool {
    old.len() == new.len() && forall|i: int|
        0 <= i < old.len() ==> {
            &&& (#[trigger] new[i]).name == old[i].name
            &&& new[i].address == old[i].address
            &&& new[i].filter_chains@.len() == old[i].filter_chains@.len()
            &&& forall|j: int|
                0 <= j < old[i].filter_chains@.len() ==> {
                    &&& (#[trigger] new[i].filter_chains@[j]).filters@.len()
                        == old[i].filter_chains@[j].filters@.len()
                    &&& forall|k: int|
                        0 <= k < old[i].filter_chains@[j].filters@.len() ==> policy3_filter(
                            old[i].filter_chains@[j].filters@[k],
                            #[trigger] new[i].filter_chains@[j].filters@[k],
                            n,
                            m,
                        )
                }
        }
}

fn policy3_providers(ps: &mut Vec<JwtProvider>, iss: &String, aud: &String)
    ensures
        final(ps)@.len() == old(ps)@.len(),
        forall|i: int|
            0 <= i < final(ps)@.len() ==> #[trigger] final(ps)@[i] == (JwtProvider {
                issuer: Some(final(ps)@[i].issuer->0),
                audiences: Some(final(ps)@[i].audiences->0),
            }) && final(ps)@[i].issuer->0@ == iss@ && final(ps)@[i].audiences->0@.len() == 1
                && final(ps)@[i].audiences->0@[0]@ == aud@,
{
    let ghost start = ps@;
    let mut i: usize = 0;
    while i < ps.len()
        invariant
            i <= ps@.len(),
            ps@.len() == start.len(),
            forall|j: int|
                0 <= j < i ==> #[trigger] ps@[j] == (JwtProvider {
                    issuer: Some(ps@[j].issuer->0),
                    audiences: Some(ps@[j].audiences->0),
                }) && ps@[j].issuer->0@ == iss@ && ps@[j].audiences->0@.len() == 1
                    && ps@[j].audiences->0@[0]@ == aud@,
        decreases ps.len() - i,
    {
        let mut a: Vec<String> = Vec::new();
        a.push(aud.clone());
        ps[i].issuer = Some(iss.clone());
        ps[i].audiences = Some(a);
        i = i + 1;
    }
}

fn policy3_http_filters(fs: &mut Vec<HttpFilter>, iss: &String, aud: &String, Ghost(n): Ghost<nat>, Ghost(m): Ghost<nat>)
    requires
        iss@ == a_times(n),
        aud@ == a_times(m),
    ensures
        final(fs)@.len() == old(fs)@.len(),
        forall|i: int|
            0 <= i < old(fs)@.len() ==> policy3_http_filter(old(fs)@[i], #[trigger] final(fs)@[i], n, m),
{
    let ghost start = fs@;
    let mut i: usize = 0;
    while i < fs.len()
        invariant
            i <= fs@.len(),
            fs@.len() == start.len(),
            iss@ == a_times(n),
            aud@ == a_times(m),
            forall|j: int| 0 <= j < i ==> policy3_http_filter(start[j], #[trigger] fs@[j], n, m),
            forall|j: int| i <= j < fs@.len() ==> #[trigger] fs@[j] == start[j],
        decreases fs.len() - i,
    {
        match &mut fs[i] {
            HttpFilter::Jwt(j) => {
                policy3_providers(&mut j.providers, iss, aud);
            },
            _ => {},
        }
        i = i + 1;
    }
}

/// Policy 3 for Envoy: every provider of every JWT filter checks an
/// issuer of `n` and an audience of `m` times 'a'.
pub fn generate_envoy_policy3(config: &mut EConfig, n: usize, m: usize)
    ensures
        final(config).stats_config == old(config).stats_config,
        final(config).static_resources.clusters == old(config).static_resources.clusters,
        policy3_listeners(
            old(config).static_resources.listeners@,
            final(config).static_resources.listeners@,
            n as nat,
            m as nat,
        ),
{
    let iss = a_string(n);
    let aud = a_string(m);
    let ls = &mut config.static_resources.listeners;
    let ghost start = ls@;
    let mut i: usize = 0;
    while i < ls.len()
        invariant
            i <= ls@.len(),
            ls@.len() == start.len(),
            iss@ == a_times(n as nat),
            aud@ == a_times(m as nat),
            forall|x: int|
                0 <= x < i ==> {
                    &&& (#[trigger] ls@[x]).name == start[x].name
                    &&& ls@[x].address == start[x].address
                    &&& ls@[x].filter_chains@.len() == start[x].filter_chains@.len()
                    &&& forall|j: int|
                        0 <= j < start[x].filter_chains@.len() ==> {
                            &&& (#[trigger] ls@[x].filter_chains@[j]).filters@.len()
                                == start[x].filter_chains@[j].filters@.len()
                            &&& forall|k: int|
                                0 <= k < start[x].filter_chains@[j].filters@.len()
                                    ==> policy3_filter(
                                    start[x].filter_chains@[j].filters@[k],
                                    #[trigger] ls@[x].filter_chains@[j].filters@[k],
                                    n as nat,
                                    m as nat,
                                )
                        }
                },
            forall|x: int| i <= x < ls@.len() ==> #[trigger] ls@[x] == start[x],
        decreases ls.len() - i,
    {
        let chains = &mut ls[i].filter_chains;
        let ghost cstart = chains@;
        let mut j: usize = 0;
        while j < chains.len()
            invariant
                j <= chains@.len(),
                chains@.len() == cstart.len(),
                iss@ == a_times(n as nat),
                aud@ == a_times(m as nat),
                forall|y: int|
                    0 <= y < j ==> {
                        &&& (#[trigger] chains@[y]).filters@.len() == cstart[y].filters@.len()
                        &&& forall|k: int|
                            0 <= k < cstart[y].filters@.len() ==> policy3_filter(
                                cstart[y].filters@[k],
                                #[trigger] chains@[y].filters@[k],
                                n as nat,
                                m as nat,
                            )
                    },
                forall|y: int| j <= y < chains@.len() ==> #[trigger] chains@[y] == cstart[y],
            decreases chains.len() - j,
        {
            let fs = &mut chains[j].filters;
            let ghost fstart = fs@;
            let mut k: usize = 0;
            while k < fs.len()
                invariant
                    k <= fs@.len(),
                    fs@.len() == fstart.len(),
                    iss@ == a_times(n as nat),
                    aud@ == a_times(m as nat),
                    forall|z: int|
                        0 <= z < k ==> policy3_filter(fstart[z], #[trigger] fs@[z], n as nat, m as nat),
                    forall|z: int| k <= z < fs@.len() ==> #[trigger] fs@[z] == fstart[z],
                decreases fs.len() - k,
            {
                policy3_http_filters(
                    &mut fs[k].typed_config.http_filters,
                    &iss,
                    &aud,
                    Ghost(n as nat),
                    Ghost(m as nat),
                );
                k = k + 1;
            }
            j = j + 1;
        }
        i = i + 1;
    }
}

/// The sizes of the policies to generate.
#[derive(Clone, Copy, Debug, PartialEq, Eq, Structural)]
pub struct PolicyArgs {
    pub n1: Option<usize>,
    pub m1: Option<usize>,
    pub n2: Option<usize>,
    pub n3: Option<usize>,
    pub m3: Option<usize>,
    pub n4: Option<usize>,
}

/// Why policies could not be generated.
#[derive(Clone, Copy, Debug, PartialEq, Eq, Structural)]
pub enum PolicyError {
    /// No size of any policy was given.
    NoPolicy,
    /// The sizes given do not make up every policy up to the highest one.
    WrongCount,
}

/// The highest policy that a size was given for: the template to start from.
pub open spec fn max_policy_spec(a: PolicyArgs) -> Option<u8> {
    if a.n4 is Some {
        Some(4u8)
    } else if a.n3 is Some || a.m3 is Some {
        Some(3u8)
    } else if a.n2 is Some {
        Some(2u8)
    } else if a.n1 is Some || a.m1 is Some {
        Some(1u8)
    } else {
        None
    }
}

/// The number of policies that all their sizes were given for.
pub open spec fn policy_count(a: PolicyArgs) -> nat {
    (if a.n1 is Some && a.m1 is Some { 1nat } else { 0nat }) + (if a.n2 is Some { 1nat } else { 0nat })
        + (if a.n3 is Some && a.m3 is Some { 1nat } else { 0nat }) + (if a.n4 is Some { 1nat } else { 0nat })
}

/// The highest policy that a size was given for.
pub fn max_policy(a: &PolicyArgs) -> (r: Result<u8, PolicyError>)
    ensures
        r == (match max_policy_spec(*a) {
            Some(p) => Ok::<u8, PolicyError>(p),
            None => Err(PolicyError::NoPolicy),
        }),
{
    if a.n4.is_some() {
        Ok(4)
    } else if a.n3.is_some() || a.m3.is_some() {
        Ok(3)
    } else if a.n2.is_some() {
        Ok(2)
    } else if a.n1.is_some() || a.m1.is_some() {
        Ok(1)
    } else {
        Err(PolicyError::NoPolicy)
    }
}

/// Whether the sizes can be applied to a Beeline template with `policies`
/// RBAC policies.
pub open spec fn beeline_args_ok(a: PolicyArgs, policies: nat) -> bool {
    &&& (a.m1 is Some ==> (a.n1 matches Some(n) ==> n <= 25))
    &&& (a.n2 matches Some(n) ==> 3 <= n <= policies)
    &&& (a.n4 matches Some(n) ==> n <= 25)
}

/// Whether `new` is `old` after each policy whose sizes `a` gives, in
/// order, through the configurations `c1`, `c2`, `c3` in between.
pub open spec fn beeline_policies_applied(
    old: BConfig,
    c1: BConfig,
    c2: BConfig,
    c3: BConfig,
    new: BConfig,
    a: PolicyArgs,
) -> bool {
    &&& match (a.n1, a.m1) {
        (Some(n), Some(m)) => beeline_policy1_done(old, c1, n as nat, m as nat),
        _ => c1 == old,
    }
    &&& match a.n2 {
        Some(n) => beeline_policy2_done(c1, c2, n as nat),
        None => c2 == c1,
    }
    &&& match (a.n3, a.m3) {
        (Some(n), Some(m)) => beeline_policy3_done(c2, c3, n as nat, m as nat),
        _ => c3 == c2,
    }
    &&& match a.n4 {
        Some(n) => beeline_policy4_done(c3, new, n as nat),
        None => new == c3,
    }
}

/// Applies the policies whose sizes were all given, in order, to a Beeline
/// template; fails when they are not every policy up to `max`.
pub fn apply_beeline_policies(config: &mut BConfig, a: &PolicyArgs, max: u8) -> (r: Result<(), PolicyError>)
    requires
        beeline_args_ok(*a, old(config).policies@.len()),
    ensures
        r == (if policy_count(*a) == max as nat {
            Ok::<(), PolicyError>(())
        } else {
            Err(PolicyError::WrongCount)
        }),
        exists|c1: BConfig, c2: BConfig, c3: BConfig|
            #[trigger] beeline_policies_applied(*old(config), c1, c2, c3, *final(config), *a),
{
    let ghost c0 = *config;
    let mut count: u8 = 0;
    if let (Some(n1), Some(m1)) = (a.n1, a.m1) {
        generate_beeline_policy1(config, n1, m1);
        count = count + 1;
    }
    let ghost c1 = *config;
    if let Some(n2) = a.n2 {
        generate_beeline_policy2(config, n2);
        count = count + 1;
    }
    let ghost c2 = *config;
    if let (Some(n3), Some(m3)) = (a.n3, a.m3) {
        generate_beeline_policy3(config, n3, m3);
        count = count + 1;
    }
    let ghost c3 = *config;
    if let Some(n4) = a.n4 {
        generate_beeline_policy4(config, n4);
        count = count + 1;
    }
    assert(beeline_policies_applied(c0, c1, c2, c3, *config, *a));
    if count != max {
        return Err(PolicyError::WrongCount);
    }
    Ok(())
}

/// Whether the sizes can be applied to an Envoy template.
pub open spec fn envoy_args_ok(a: PolicyArgs) -> bool {
    &&& (a.m1 is Some ==> (a.n1 matches Some(n) ==> n <= 25))
    &&& (a.n2 matches Some(n) ==> 3 <= n)
    &&& (a.n4 matches Some(n) ==> n <= 25)
}

/// Whether `new` is `old` after each Envoy policy whose sizes `a` gives,
/// in order, through the configurations `c1`, `c2`, `c3` in between.
pub open spec fn envoy_policies_applied(
    old: EConfig,
    c1: EConfig,
    c2: EConfig,
    c3: EConfig,
    new: EConfig,
    a: PolicyArgs,
) -> bool {
    &&& match (a.n1, a.m1) {
        (Some(n), Some(m)) => config_edited(old, c1, EditView::Headers(envoy_policy1_headers(n as nat, m as nat))),
        _ => c1 == old,
    }
    &&& match a.n2 {
        Some(n) => {
            &&& c2.stats_config == c1.stats_config
            &&& c2.static_resources.clusters == c1.static_resources.clusters
            &&& policy2_listeners(c1.static_resources.listeners@, c2.static_resources.listeners@, n as nat)
        },
        None => c2 == c1,
    }
    &&& match (a.n3, a.m3) {
        (Some(n), Some(m)) => {
            &&& c3.stats_config == c2.stats_config
            &&& c3.static_resources.clusters == c2.static_resources.clusters
            &&& policy3_listeners(c2.static_resources.listeners@, c3.static_resources.listeners@, n as nat, m as nat)
        },
        _ => c3 == c2,
    }
    &&& match a.n4 {
        Some(n) => config_edited(c3, new, EditView::Remove(policy_keys(n as nat))),
        None => new == c3,
    }
}

/// Editing the routes keeps the RBAC filters as they are.
proof fn lemma_edit_keeps_rbac(old: Seq<Listener>, new: Seq<Listener>, e: EditView)
    requires
        listeners_edited(old, new, e),
        rbac_ok_listeners(old),
    ensures
        rbac_ok_listeners(new),
{
    assert forall|i: int, j: int, k: int|
        0 <= i < new.len() && 0 <= j < new[i].filter_chains@.len() && 0 <= k
            < new[i].filter_chains@[j].filters@.len() implies rbac_ok_manager(
        #[trigger] new[i].filter_chains@[j].filters@[k],
    ) by {
        assert(filters_edited(old[i].filter_chains@[j].filters@, new[i].filter_chains@[j].filters@, e));
        assert(rbac_ok_manager(old[i].filter_chains@[j].filters@[k]));
        assert(new[i].filter_chains@[j].filters@[k].typed_config.http_filters
            == old[i].filter_chains@[j].filters@[k].typed_config.http_filters);
    }
}

/// Applies the policies whose sizes were all given, in order, to an Envoy
/// template; fails when they are not every policy up to `max`.
pub fn apply_envoy_policies(config: &mut EConfig, a: &PolicyArgs, max: u8) -> (r: Result<(), PolicyError>)
    requires
        envoy_args_ok(*a),
        a.n2 is Some ==> rbac_ok_listeners(old(config).static_resources.listeners@),
    ensures
        r == (if policy_count(*a) == max as nat {
            Ok::<(), PolicyError>(())
        } else {
            Err(PolicyError::WrongCount)
        }),
        exists|c1: EConfig, c2: EConfig, c3: EConfig|
            #[trigger] envoy_policies_applied(*old(config), c1, c2, c3, *final(config), *a),
{
    let ghost c0 = *config;
    let mut count: u8 = 0;
    if let (Some(n1), Some(m1)) = (a.n1, a.m1) {
        generate_envoy_policy1(config, n1, m1);
        count = count + 1;
        proof {
            if a.n2 is Some {
                lemma_edit_keeps_rbac(
                    c0.static_resources.listeners@,
                    config.static_resources.listeners@,
                    EditView::Headers(envoy_policy1_headers(n1 as nat, m1 as nat)),
                );
            }
        }
    }
    let ghost c1 = *config;
    if let Some(n2) = a.n2 {
        generate_envoy_policy2(config, n2);
        count = count + 1;
    }
    let ghost c2 = *config;
    if let (Some(n3), Some(m3)) = (a.n3, a.m3) {
        generate_envoy_policy3(config, n3, m3);
        count = count + 1;
    }
    let ghost c3 = *config;
    if let Some(n4) = a.n4 {
        generate_envoy_policy4(config, n4);
        count = count + 1;
    }
    assert(envoy_policies_applied(c0, c1, c2, c3, *config, *a));
    if count != max {
        return Err(PolicyError::WrongCount);
    }
    Ok(())
}

} // verus!
