use beeline::compiler::{Compiler, Filter as PFilter, Templates, Variable};
use beeline::config::beeline::{
    Config as BConfig, Filter, Host as BHost, JwtFilter, LoadBalancer, MutateFilter, Pattern,
    Policy, RingLoadBalancer, Route,
};
use beeline::config::envoy::{
    Cluster, Config as EConfig, Endpoint, EndpointAddr, Filter as EFilter, FilterChain,
    HeaderMatch, HttpFilter, JwtAuthn, JwtProvider, LbEndpoint, Listener, LoadAssignment,
    LoadEndpoint, Route as ERoute, RouteAction, RouteConfig, RouteMatch, SocketAddr,
    StaticResources, TypedFilterConfig, VirtualHost,
};
use beeline::config::{Config, Host};
use beeline::net::{ByteOrder, IpAddress, Ipv4Address, SocketAddress};
use beeline::upstream::{AddrKey, ConnectToBackend, NewUpstream, SockKey};

fn v4(a: u8, b: u8, c: u8, d: u8, port: u16) -> SocketAddress {
    SocketAddress { ip: IpAddress::V4(Ipv4Address(a, b, c, d)), port }
}

fn endpoint(addr: &str, port: u16) -> LbEndpoint {
    LbEndpoint {
        endpoint: Endpoint {
            address: EndpointAddr {
                socket_address: SocketAddr { address: addr.to_string(), port_value: port },
            },
        },
    }
}

fn envoy_config() -> EConfig {
    let cluster = Cluster {
        name: "server1".to_string(),
        lb_policy: "ROUND_ROBIN".to_string(),
        connect_timeout: "1s".to_string(),
        kind: "STATIC".to_string(),
        circuit_breakers: serde_yaml::Value::Null,
        load_assignment: LoadAssignment {
            cluster_name: "server1".to_string(),
            endpoints: vec![LoadEndpoint {
                lb_endpoints: vec![endpoint("10.0.0.2", 8080), endpoint("10.0.0.3", 8081)],
            }],
        },
    };
    let route = ERoute {
        route_match: RouteMatch {
            path: "/api".to_string(),
            headers: vec![
                HeaderMatch {
                    name: "x-user".to_string(),
                    string_match: vec![("exact".to_string(), "bob".to_string())],
                },
                HeaderMatch {
                    name: "x-user".to_string(),
                    string_match: vec![
                        ("prefix".to_string(), "z".to_string()),
                        ("exact".to_string(), "alice".to_string()),
                    ],
                },
            ],
        },
        route: RouteAction { cluster: "server1".to_string() },
        request_headers_to_add: vec![],
        request_headers_to_remove: vec![],
    };
    let any = ERoute {
        route_match: RouteMatch { path: "*".to_string(), headers: vec![] },
        route: RouteAction { cluster: "server1".to_string() },
        request_headers_to_add: vec![],
        request_headers_to_remove: vec![],
    };
    let jwt = HttpFilter::Jwt(JwtAuthn {
        providers: vec![JwtProvider {
            issuer: Some("me".to_string()),
            audiences: Some(vec!["you".to_string(), "them".to_string()]),
        }],
        raw: serde_yaml::Value::Null,
    });
    let manager = EFilter {
        name: "hcm".to_string(),
        kind: None,
        typed_config: TypedFilterConfig {
            kind: None,
            stat_prefix: "in".to_string(),
            codec_type: "AUTO".to_string(),
            route_config: RouteConfig {
                name: "r".to_string(),
                virtual_hosts: vec![VirtualHost {
                    name: "v".to_string(),
                    domains: vec!["*".to_string()],
                    routes: vec![route, any],
                }],
            },
            http_filters: vec![jwt, HttpFilter::Unsupported(serde_yaml::Value::Null)],
        },
    };
    EConfig {
        stats_config: serde_yaml::Value::Null,
        static_resources: StaticResources {
            clusters: vec![cluster],
            listeners: vec![Listener {
                name: "l".to_string(),
                address: EndpointAddr {
                    socket_address: SocketAddr { address: "0.0.0.0".to_string(), port_value: 80 },
                },
                filter_chains: vec![FilterChain { filters: vec![manager] }],
            }],
        },
    }
}

#[test]
fn envoy_configuration_is_translated() {
    let c = Config::from(envoy_config());
    assert!(c.proxy.is_none());
    assert_eq!(c.hosts.len(), 1);
    assert_eq!(c.hosts[0].name, "server1");
    assert_eq!(c.hosts[0].instances, vec![v4(10, 0, 0, 2, 8080), v4(10, 0, 0, 3, 8081)]);
    assert_eq!(c.routes.len(), 2);
    let r = &c.routes[0];
    assert_eq!(r.pattern.path.as_deref(), Some("/api"));
    assert_eq!(
        r.pattern.headers,
        Some(vec![("x-user".to_string(), "alice".to_string())])
    );
    assert_eq!(r.dest, "server1");
    assert_eq!(
        r.filters,
        vec![vec![
            ("type".to_string(), "jwt".to_string()),
            ("issuer".to_string(), "me".to_string()),
            ("audience".to_string(), "you".to_string()),
        ]]
    );
    assert_eq!(c.routes[1].pattern.path, None);
    assert_eq!(c.routes[1].pattern.headers, None);
}

#[test]
fn instances_are_resolved() {
    let c = Config {
        proxy: None,
        hosts: vec![
            Host { name: "a".to_string(), instances: vec![v4(1, 1, 1, 1, 1), v4(1, 1, 1, 2, 2)] },
            Host { name: "a".to_string(), instances: vec![v4(9, 9, 9, 9, 2)] },
        ],
        routes: vec![],
    };
    assert_eq!(c.resolve_instance("a", 2), Some(&v4(1, 1, 1, 2, 2)));
    assert_eq!(c.resolve_instance("a", 3), None);
    assert_eq!(c.resolve_instance("b", 1), None);
    assert_eq!(c.all_backend_instances("a").unwrap().len(), 2);
    assert!(c.all_backend_instances("b").is_none());
    let s = c.select_backend_instance("a").unwrap();
    assert!(*s == v4(1, 1, 1, 1, 1) || *s == v4(1, 1, 1, 2, 2));
}

fn beeline_config() -> BConfig {
    BConfig {
        socket: None,
        tls: None,
        proxy: Some(v4(127, 0, 0, 1, 9000)),
        stats: false,
        hosts: vec![
            BHost {
                name: "server1".to_string(),
                load_balancer: None,
                instances: vec![v4(10, 0, 0, 2, 8080)],
            },
            BHost {
                name: "server2".to_string(),
                load_balancer: Some(LoadBalancer::Ring(RingLoadBalancer { size: 4 })),
                instances: vec![v4(10, 0, 0, 3, 8081), v4(10, 0, 0, 4, 8082)],
            },
        ],
        network: None,
        policies: vec![Policy {
            name: "deny-delete".to_string(),
            method: Some("DELETE".to_string()),
            path: None,
            dest_ip4: None,
            dest_port: Some(8080),
            src_ip4: Some(IpAddress::V4(Ipv4Address(10, 0, 0, 9))),
            headers: None,
            allow: false,
        }],
        routes: vec![
            Route {
                pattern: Pattern {
                    path: Some("/api".to_string()),
                    headers: Some(vec![("X-User".to_string(), "alice".to_string())]),
                },
                dest: "server1".to_string(),
                filters: vec![
                    Filter::Jwt(JwtFilter {
                        secret: "s".to_string(),
                        audience: Some("you".to_string()),
                        issuer: None,
                    }),
                    Filter::Mutate(MutateFilter {
                        add: Some(vec![("x-added".to_string(), "1".to_string())]),
                        remove: Some(vec!["x-user".to_string()]),
                    }),
                ],
            },
            Route {
                pattern: Pattern { path: None, headers: None },
                dest: "server2".to_string(),
                filters: vec![],
            },
        ],
    }
}

#[test]
fn hosts_are_resolved_by_name() {
    let c = beeline_config();
    let p = c.resolve_host("PROXY").unwrap();
    assert_eq!(p.name, "proxy");
    assert_eq!(p.instances, vec![v4(127, 0, 0, 1, 9000)]);
    let h = c.resolve_host("server2").unwrap();
    assert_eq!(h.instances.len(), 2);
    assert!(c.resolve_host("server3").is_none());
    assert_eq!(c.all_backend_instances("server1").unwrap(), &vec![v4(10, 0, 0, 2, 8080)]);
    assert!(c.all_backend_instances("proxy").is_none());
}

fn templates() -> Templates {
    Templates {
        ctx: PFilter::from_text("struct ctx {\n{vars}\n};\n// ---\n{init}\n// ---\n"),
        jwt: PFilter::from_text("// ---\njwt_{idx}: {admission}\n// ---\n"),
        mutate: PFilter::from_text("// ---\nmutate_{idx}: {mutation}\n// ---\n"),
        lb: PFilter::from_text("ring_{idx}[] = { {ring} };\n// ---\nlb_{idx} {ring_len}\n// ---\n"),
        route: PFilter::from_text("// ---\nroute_{idx}: {route}\n// ---\n"),
        rbac: PFilter::from_text("// ---\n{policies}\n{no_match_action}\n// ---\n"),
        matching: PFilter::from_text("// ---\n{downstream}\n/* up */ {upstream}\n// ---\n"),
    }
}

#[test]
fn context_variables_cover_the_routes() {
    let compiler = Compiler::new(beeline_config(), templates(), ByteOrder::Little);
    let vars = compiler.get_ctx_vars();
    let names: Vec<String> = vars.iter().map(|v| v.name().to_string()).collect();
    for n in ["X-User", "x-user", "method", "path", "status_code", "content-length", "jwt_claims", "jwt_sig"] {
        assert!(names.iter().any(|x| x == n), "missing {n}");
    }
    assert!(vars.iter().all(|v| v.is_buffer() || v.name() != "method"));
    let b = Variable::buffer("a", "char", Some(3));
    assert!(b.is_buffer());
    assert_eq!(b.name(), "a");
    assert!(!Variable::range("r").is_buffer());
}

#[test]
fn program_is_generated() {
    let compiler = Compiler::new(beeline_config(), templates(), ByteOrder::Little);
    let out = compiler.generate("DEFS:\n{{DEFS}}\nCODE:\n{{FILTERS}}\n");
    assert!(out.starts_with("DEFS:\nstruct ctx {"));
    assert!(!out.contains("{{DEFS}}") && !out.contains("{{FILTERS}}"));
    assert!(out.contains("char x_user["));
    assert!(out.contains("bpf_strncmp(ctx->path, "));
    assert!(out.contains("bpf_strncmp(ctx->X-User, 5, \"alice\") == 0"), "{out}");
    assert!(out.contains("ERROR: No match"));
    assert!(out.contains("DELETE"));
    assert!(out.contains("route_0: "));
    assert!(out.contains("jwt_0: "));
    assert!(out.contains("mutate_0: "));
    assert!(out.contains("lb_1 4"));
    assert!(!out.contains("{idx}"));
    let filters = compiler.generate_filters();
    assert!(filters.len() >= 4);
}

#[test]
fn connection_keys() {
    let local = v4(10, 0, 0, 1, 80);
    let remote = v4(10, 0, 0, 2, 5000);
    let k = SockKey::try_from_addrs(&local, &remote, ByteOrder::Big).unwrap();
    assert_eq!(k.local, AddrKey { ip4: 0x0a00_0001, port: 80 });
    assert_eq!(k.remote.port, 5000);
    assert_eq!(k.invert().invert(), k);
    assert_eq!(k.invert().local, k.remote);
    let v6 = SocketAddress { ip: IpAddress::V6(1), port: 1 };
    assert!(SockKey::try_from_addrs(&local, &v6, ByteOrder::Big).is_err());
    assert_eq!(AddrKey::try_from_addr(&local, ByteOrder::Little).unwrap().ip4, 0x0100_000a);
}

#[test]
fn upstream_keys_of_the_backends() {
    let c = Config {
        proxy: None,
        hosts: vec![
            Host { name: "a".to_string(), instances: vec![v4(10, 0, 0, 2, 8080), v4(10, 0, 0, 5, 1)] },
            Host { name: "b".to_string(), instances: vec![v4(10, 0, 0, 3, 8081)] },
        ],
        routes: vec![],
    };
    let u = ConnectToBackend::new(c, ByteOrder::Big);
    assert_eq!(u.reverse_proxy_ft(), AddrKey { ip4: 0, port: 0 });
    assert_eq!(
        u.all_upstream_fts(),
        vec![AddrKey { ip4: 0x0a00_0002, port: 8080 }, AddrKey { ip4: 0x0a00_0003, port: 8081 }]
    );
}

#[test]
fn envoy_ipv6_endpoints_are_translated() {
    let mut e = envoy_config();
    e.static_resources.clusters[0].load_assignment.endpoints[0].lb_endpoints =
        vec![endpoint("[::1]", 80), endpoint("[fe80::2%3]", 81), endpoint("10.0.0.2", 8080)];
    let c = Config::from(e);
    assert_eq!(
        c.hosts[0].instances,
        vec![
            SocketAddress { ip: IpAddress::V6(1), port: 80 },
            SocketAddress { ip: IpAddress::V6((0xfe80u128 << 112) | 2), port: 81 },
            v4(10, 0, 0, 2, 8080),
        ]
    );
}
