use beeline::config::beeline::{Config as BConfig, Filter, Pattern, Policy, Route};
use beeline::config::envoy::{
    Config as EConfig, EndpointAddr, Filter as EFilter, FilterChain, Listener, Route as ERoute,
    RouteAction, RouteConfig, RouteMatch, SocketAddr, StaticResources, TypedFilterConfig,
    VirtualHost,
};
use beeline::config::envoy::{HttpFilter, JwtAuthn, JwtProvider, RbacFilter};
use beeline::policy::{
    apply_beeline_policies, apply_envoy_policies, envoy_policy2_keys, generate_envoy_policy2,
    generate_envoy_policy3,
    generate_envoy_policy1, generate_envoy_policy4,
    generate_policy1_args, generate_policy3_args, generate_policy4_args, max_policy, PolicyArgs,
    PolicyError,
};

fn policy(i: usize) -> Policy {
    Policy {
        name: format!("policy-{i}"),
        method: Some("POST".to_string()),
        path: None,
        dest_ip4: None,
        dest_port: None,
        src_ip4: None,
        headers: None,
        allow: true,
    }
}

fn route(dest: &str) -> Route {
    Route {
        pattern: Pattern { path: Some("/".to_string()), headers: None },
        dest: dest.to_string(),
        filters: vec![],
    }
}

fn beeline_template() -> BConfig {
    BConfig {
        socket: None,
        tls: None,
        proxy: None,
        stats: false,
        hosts: vec![],
        network: None,
        policies: (0..20).map(policy).collect(),
        routes: vec![route("server1"), route("server2")],
    }
}

fn generate_config(
    n1: Option<usize>,
    m1: Option<usize>,
    n2: Option<usize>,
    n3: Option<usize>,
    m3: Option<usize>,
    n4: Option<usize>,
) -> BConfig {
    let args = PolicyArgs { n1, m1, n2, n3, m3, n4 };
    let max = max_policy(&args).expect("a policy is given");
    let mut config = beeline_template();
    apply_beeline_policies(&mut config, &args, max).expect("Failed to generate policy");
    config
}

fn assert_beeline_policy1(config: &BConfig) {
    let mut checked = false;
    for route in config.routes.iter() {
        let headers = route.pattern.headers.as_ref().unwrap();
        assert_eq!(headers.len(), 2);
        let get = |k: &str| headers.iter().find(|h| h.0 == k).map(|h| h.1.clone());
        assert_eq!(get("a").unwrap(), "a".repeat(20));
        assert_eq!(get("b").unwrap(), "a".repeat(20));
        checked = true;
    }
    assert!(checked);
}

fn assert_beeline_policy2(config: &BConfig) {
    assert_eq!(config.policies.len(), 13);
    assert_eq!(config.policies[0].name, "policy-7");
    assert_eq!(config.policies[12].name, "policy-19");
}

fn assert_beeline_policy3(config: &BConfig) {
    let mut checked = false;
    for route in config.routes.iter() {
        let jwt = route.filters.iter().filter(|f| f.is_jwt()).next().unwrap();
        if let Filter::Jwt(jwt) = jwt {
            assert_eq!(jwt.issuer.as_ref().unwrap().len(), 1028);
            assert_eq!(jwt.audience.as_ref().unwrap().len(), 512);
            assert_eq!(jwt.secret, "testtest12345678");
            checked = true;
        }
    }
    assert!(checked);
}

fn assert_beeline_policy4(config: &BConfig) {
    let mut checked = false;
    for route in config.routes.iter() {
        let mutate = route.filters.iter().filter(|f| f.is_mutate()).next().unwrap();
        if let Filter::Mutate(mutate) = mutate {
            assert_eq!(
                mutate.remove.as_ref().unwrap(),
                &vec!["a".to_string(), "b".to_string(), "c".to_string()]
            );
            assert!(mutate.add.is_none());
            checked = true;
        }
    }
    assert!(checked);
}

#[test]
fn it_generates_beeline_policy1() {
    let config = generate_config(Some(2), Some(20), None, None, None, None);
    assert_beeline_policy1(&config);
}

#[test]
fn it_generates_beeline_policy2() {
    let config = generate_config(Some(2), Some(20), Some(13), None, None, None);
    assert_beeline_policy1(&config);
    assert_beeline_policy2(&config);
}

#[test]
fn it_generates_beeline_policy3() {
    let config = generate_config(Some(2), Some(20), Some(13), Some(1028), Some(512), None);
    assert_beeline_policy1(&config);
    assert_beeline_policy2(&config);
    assert_beeline_policy3(&config);
}

#[test]
fn it_generates_beeline_policy4() {
    let config = generate_config(Some(2), Some(20), Some(13), Some(1028), Some(512), Some(3));
    assert_beeline_policy1(&config);
    assert_beeline_policy2(&config);
    assert_beeline_policy3(&config);
    assert_beeline_policy4(&config);
}

#[test]
fn policies_need_every_size_up_to_the_highest() {
    assert_eq!(
        max_policy(&PolicyArgs { n1: None, m1: None, n2: None, n3: None, m3: None, n4: None }),
        Err(PolicyError::NoPolicy)
    );
    let args = PolicyArgs { n1: Some(2), m1: None, n2: None, n3: None, m3: None, n4: None };
    assert_eq!(max_policy(&args), Ok(1));
    let mut config = beeline_template();
    assert_eq!(apply_beeline_policies(&mut config, &args, 1), Err(PolicyError::WrongCount));
    let args = PolicyArgs { n1: None, m1: None, n2: None, n3: Some(1), m3: Some(1), n4: None };
    assert_eq!(max_policy(&args), Ok(3));
    let mut config = beeline_template();
    assert_eq!(apply_beeline_policies(&mut config, &args, 3), Err(PolicyError::WrongCount));
}

#[test]
fn policy_arguments() {
    let h = generate_policy1_args(3, 2);
    assert_eq!(
        h,
        vec![
            ("a".to_string(), "aa".to_string()),
            ("b".to_string(), "aa".to_string()),
            ("c".to_string(), "aa".to_string()),
        ]
    );
    let c = generate_policy3_args(1, 2);
    assert_eq!(c, vec![("iss".to_string(), "a".to_string()), ("aud".to_string(), "aa".to_string())]);
    let k = generate_policy4_args(25);
    assert_eq!(k.len(), 25);
    assert_eq!(k[12], "m");
    assert_eq!(k[13], "o");
    let mut sorted = k.clone();
    sorted.dedup();
    assert_eq!(sorted.len(), 25);
}

fn envoy_route(cluster: &str) -> ERoute {
    ERoute {
        route_match: RouteMatch { path: "/".to_string(), headers: vec![] },
        route: RouteAction { cluster: cluster.to_string() },
        request_headers_to_add: vec![],
        request_headers_to_remove: vec![],
    }
}

fn envoy_template() -> EConfig {
    let manager = EFilter {
        name: "envoy.filters.network.http_connection_manager".to_string(),
        kind: None,
        typed_config: TypedFilterConfig {
            kind: None,
            stat_prefix: "ingress_http".to_string(),
            codec_type: "AUTO".to_string(),
            route_config: RouteConfig {
                name: "local_route".to_string(),
                virtual_hosts: vec![VirtualHost {
                    name: "backend".to_string(),
                    domains: vec!["*".to_string()],
                    routes: vec![envoy_route("server1"), envoy_route("server2")],
                }],
            },
            http_filters: vec![],
        },
    };
    EConfig {
        stats_config: serde_yaml::Value::Null,
        static_resources: StaticResources {
            clusters: vec![],
            listeners: vec![Listener {
                name: "listener_0".to_string(),
                address: EndpointAddr {
                    socket_address: SocketAddr { address: "0.0.0.0".to_string(), port_value: 8000 },
                },
                filter_chains: vec![FilterChain { filters: vec![manager] }],
            }],
        },
    }
}

fn envoy_routes(config: &EConfig) -> Vec<ERoute> {
    let mut out = vec![];
    for listeners in config.static_resources.listeners.iter() {
        for chain in listeners.filter_chains.iter() {
            for filter in chain.filters.iter() {
                for host in filter.typed_config.route_config.virtual_hosts.iter() {
                    out.extend(host.routes.iter().cloned());
                }
            }
        }
    }
    out
}

fn envoy_template_with_jwt() -> EConfig {
    let mut c = envoy_template();
    let jwt = HttpFilter::Jwt(JwtAuthn {
        providers: vec![
            JwtProvider { issuer: Some("x".to_string()), audiences: None },
            JwtProvider { issuer: None, audiences: Some(vec!["y".to_string(), "z".to_string()]) },
        ],
        raw: serde_yaml::Value::Null,
    });
    c.static_resources.listeners[0].filter_chains[0].filters[0].typed_config.http_filters =
        vec![jwt, HttpFilter::Unsupported(serde_yaml::Value::Bool(true))];
    c
}

fn rbac_names() -> Vec<String> {
    let mut names: Vec<String> = (0..17).map(|i| format!("other-{i}")).collect();
    names.insert(5, "service-2-post-policy-v1".to_string());
    names.push("service-1-post-policy-v1".to_string());
    names.push("service-3-post-policy-v1".to_string());
    names
}

/// A template with two routes, a JWT filter with two providers and an RBAC
/// filter of 20 policies.
fn envoy_full_template() -> EConfig {
    let mut c = envoy_template_with_jwt();
    let policies: Vec<(String, serde_yaml::Value)> = rbac_names()
        .into_iter()
        .enumerate()
        .map(|(i, n)| (n, serde_yaml::Value::from(i as u64)))
        .collect();
    let rbac = HttpFilter::Rbac(RbacFilter { policies, raw: serde_yaml::Value::Null });
    c.static_resources.listeners[0].filter_chains[0].filters[0].typed_config.http_filters.push(rbac);
    c
}

fn generate_envoy(args: PolicyArgs) -> EConfig {
    let mut config = envoy_full_template();
    let max = max_policy(&args).unwrap();
    assert_eq!(apply_envoy_policies(&mut config, &args, max), Ok(()));
    config
}

fn envoy_http_filters(config: &EConfig) -> Vec<&HttpFilter> {
    let mut out = vec![];
    for listeners in config.static_resources.listeners.iter() {
        for chain in listeners.filter_chains.iter() {
            for filter in chain.filters.iter() {
                out.extend(filter.typed_config.http_filters.iter());
            }
        }
    }
    out
}

fn assert_envoy_policy1(config: &EConfig) {
    let routes = envoy_routes(config);
    assert_eq!(routes.len(), 2);
    for route in routes.iter() {
        assert_eq!(route.route_match.headers.len(), 2);
        for h in route.route_match.headers.iter() {
            assert_eq!(h.string_match, vec![("exact".to_string(), "a".repeat(20))]);
        }
        assert_eq!(route.route_match.headers[0].name, "a");
        assert_eq!(route.route_match.headers[1].name, "b");
    }
}

fn assert_envoy_policy2(config: &EConfig) {
    let mut checked = false;
    for f in envoy_http_filters(config) {
        if let HttpFilter::Rbac(r) = f {
            assert_eq!(r.policies.len(), 13);
            let names: Vec<&str> = r.policies.iter().map(|(k, _)| k.as_str()).collect();
            assert_eq!(&names[10..], &["service-1-post-policy-v1", "service-2-post-policy-v1", "service-3-post-policy-v1"]);
            assert_eq!(names[0], "other-9");
            assert_eq!(names[9], "other-0");
            // each kept policy carries its own value
            assert_eq!(r.policies[12].1, serde_yaml::Value::from(19u64));
            assert_eq!(r.policies[11].1, serde_yaml::Value::from(5u64));
            checked = true;
        }
    }
    assert!(checked);
}

fn assert_envoy_policy3(config: &EConfig) {
    let mut checked = false;
    for f in envoy_http_filters(config) {
        if let HttpFilter::Jwt(j) = f {
            for p in j.providers.iter() {
                assert_eq!(p.issuer.as_ref().unwrap().len(), 1028);
                assert_eq!(p.audiences.as_ref().unwrap().first().unwrap().len(), 512);
                assert_eq!(p.audiences.as_ref().unwrap().len(), 1);
                checked = true;
            }
        } else if let HttpFilter::Unsupported(v) = f {
            assert_eq!(v, &serde_yaml::Value::Bool(true));
        }
    }
    assert!(checked);
}

fn assert_envoy_policy4(config: &EConfig) {
    let routes = envoy_routes(config);
    assert_eq!(routes.len(), 2);
    for route in routes.iter() {
        assert_eq!(
            route.request_headers_to_remove,
            vec!["a".to_string(), "b".to_string(), "c".to_string()]
        );
    }
}

fn envoy_args(n2: bool, p3: bool, p4: bool) -> PolicyArgs {
    PolicyArgs {
        n1: Some(2),
        m1: Some(20),
        n2: if n2 { Some(13) } else { None },
        n3: if p3 { Some(1028) } else { None },
        m3: if p3 { Some(512) } else { None },
        n4: if p4 { Some(3) } else { None },
    }
}

#[test]
fn it_generates_envoy_policy1() {
    let config = generate_envoy(envoy_args(false, false, false));
    assert_envoy_policy1(&config);
}

#[test]
fn it_generates_envoy_policy2() {
    let config = generate_envoy(envoy_args(true, false, false));
    assert_envoy_policy1(&config);
    assert_envoy_policy2(&config);
}

#[test]
fn it_generates_envoy_policy3() {
    let config = generate_envoy(envoy_args(true, true, false));
    assert_envoy_policy1(&config);
    assert_envoy_policy2(&config);
    assert_envoy_policy3(&config);
}

#[test]
fn it_generates_envoy_policy4() {
    let config = generate_envoy(envoy_args(true, true, true));
    assert_envoy_policy1(&config);
    assert_envoy_policy2(&config);
    assert_envoy_policy3(&config);
    assert_envoy_policy4(&config);
}

#[test]
fn envoy_policy2_keys_choose_names() {
    let names = rbac_names();
    let keys = envoy_policy2_keys(&names, 13);
    assert_eq!(keys.len(), 13);
    assert_eq!(&keys[10..], &["service-1-post-policy-v1", "service-2-post-policy-v1", "service-3-post-policy-v1"]);
    assert_eq!(keys[0], "other-9");
    assert_eq!(keys[9], "other-0");
    assert_eq!(envoy_policy2_keys(&names, 3).len(), 3);
}

#[test]
fn envoy_policy2_alone_keeps_other_filters() {
    let mut config = envoy_full_template();
    generate_envoy_policy2(&mut config, 4);
    let filters = envoy_http_filters(&config);
    assert_eq!(filters.len(), 3);
    if let HttpFilter::Rbac(r) = filters[2] {
        let names: Vec<&str> = r.policies.iter().map(|(k, _)| k.as_str()).collect();
        assert_eq!(names, vec!["other-0", "service-1-post-policy-v1", "service-2-post-policy-v1", "service-3-post-policy-v1"]);
    } else {
        panic!("RBAC filter expected");
    }
    assert!(matches!(filters[0], HttpFilter::Jwt(_)));
}

#[test]
fn envoy_policies_are_counted() {
    let mut config = envoy_template_with_jwt();
    let args = PolicyArgs { n1: Some(2), m1: Some(20), n2: Some(13), n3: Some(4), m3: Some(5), n4: Some(3) };
    assert_eq!(max_policy(&args), Ok(4));
    assert_eq!(apply_envoy_policies(&mut config, &args, 4), Ok(()));
    let routes = envoy_routes(&config);
    assert_eq!(routes[0].route_match.headers.len(), 2);
    assert_eq!(routes[1].request_headers_to_remove.len(), 3);
    let args = PolicyArgs { n1: Some(2), m1: Some(20), n2: None, n3: None, m3: Some(5), n4: None };
    assert_eq!(max_policy(&args), Ok(3));
    let mut config = envoy_template_with_jwt();
    assert_eq!(apply_envoy_policies(&mut config, &args, 3), Err(PolicyError::WrongCount));
}
