//! The subset of the Envoy configuration that the benchmarks translate:
//! clusters with their endpoints, and listeners whose HTTP connection
//! managers hold routes and HTTP filters.

use vstd::prelude::*;

verus! {

/// A YAML value of the Envoy configuration that is carried through as it is.
#[verifier::external_type_specification]
#[verifier::external_body]
pub struct ExYamlValue(serde_yaml::Value);

/// Calls `Clone::clone` on a YAML value; `serde_yaml::Value` derives
/// `Clone`, so the copy is the same value.
#[verifier::external_body]
pub(crate) fn clone_yaml(v: &serde_yaml::Value) -> (r: serde_yaml::Value)
    ensures
        r == *v,
{
    v.clone()
}

#[derive(Debug)]
pub struct Config {
    pub stats_config: serde_yaml::Value,
    pub static_resources: StaticResources,
}

#[derive(Debug)]
pub struct StaticResources {
    pub clusters: Vec<Cluster>,
    pub listeners: Vec<Listener>,
}

#[derive(Debug)]
pub struct Cluster {
    pub name: String,
    pub lb_policy: String,
    pub connect_timeout: String,
    /// The discovery type of the cluster.
    pub kind: String,
    pub circuit_breakers: serde_yaml::Value,
    pub load_assignment: LoadAssignment,
}

#[derive(Clone, Debug)]
pub struct LoadAssignment {
    pub cluster_name: String,
    pub endpoints: Vec<LoadEndpoint>,
}

#[derive(Clone, Debug)]
pub struct LoadEndpoint {
    pub lb_endpoints: Vec<LbEndpoint>,
}

#[derive(Clone, Debug)]
pub struct LbEndpoint {
    pub endpoint: Endpoint,
}

#[derive(Clone, Debug)]
pub struct Endpoint {
    pub address: EndpointAddr,
}

#[derive(Clone, Debug)]
pub struct EndpointAddr {
    pub socket_address: SocketAddr,
}

/// An address as Envoy writes it: the IP address as text and the port.
#[derive(Clone, Debug)]
pub struct SocketAddr {
    pub address: String,
    pub port_value: u16,
}

#[derive(Debug)]
pub struct Listener {
    pub name: String,
    pub address: EndpointAddr,
    pub filter_chains: Vec<FilterChain>,
}

#[derive(Debug)]
pub struct FilterChain {
    pub filters: Vec<Filter>,
}

#[derive(Debug)]
pub struct Filter {
    pub name: String,
    pub kind: Option<String>,
    pub typed_config: TypedFilterConfig,
}

/// The configuration of an HTTP connection manager.
#[derive(Debug)]
pub struct TypedFilterConfig {
    pub kind: Option<String>,
    pub stat_prefix: String,
    pub codec_type: String,
    pub route_config: RouteConfig,
    pub http_filters: Vec<HttpFilter>,
}

/// An HTTP filter: a JWT authentication filter, read into its providers,
/// an RBAC filter, read into its policies, or another filter kept as it is.
#[derive(Debug)]
pub enum HttpFilter {
    Jwt(JwtAuthn),
    Rbac(RbacFilter),
    Unsupported(serde_yaml::Value),
}

/// An RBAC filter: its policies by name, in the order they are written,
/// and the filter as it was written.
#[derive(Debug)]
pub struct RbacFilter {
    pub policies: Vec<(String, serde_yaml::Value)>,
    pub raw: serde_yaml::Value,
}

/// A JWT authentication filter: its providers in order, and the filter as
/// it was written.
#[derive(Debug)]
pub struct JwtAuthn {
    pub providers: Vec<JwtProvider>,
    pub raw: serde_yaml::Value,
}

/// A JWT provider: the issuer and the audiences it accepts.
#[derive(Clone, Debug)]
pub struct JwtProvider {
    pub issuer: Option<String>,
    pub audiences: Option<Vec<String>>,
}

#[derive(Clone, Debug)]
pub struct RouteConfig {
    pub name: String,
    pub virtual_hosts: Vec<VirtualHost>,
}

#[derive(Clone, Debug)]
pub struct VirtualHost {
    pub name: String,
    pub domains: Vec<String>,
    pub routes: Vec<Route>,
}

#[derive(Clone, Debug)]
pub struct Route {
    pub route_match: RouteMatch,
    pub route: RouteAction,
    pub request_headers_to_add: Vec<HeaderMutation>,
    pub request_headers_to_remove: Vec<String>,
}

#[derive(Clone, Debug)]
pub struct HeaderMutation {
    pub header: Header,
}

#[derive(Clone, Debug)]
pub struct Header {
    pub key: String,
    pub value: String,
}

/// What a request must hold to match a route: its path ("*" for any) and
/// header values.
#[derive(Clone, Debug)]
pub struct RouteMatch {
    pub path: String,
    pub headers: Vec<HeaderMatch>,
}

/// A header and how its value is matched (kind of match, value).
#[derive(Clone, Debug)]
pub struct HeaderMatch {
    pub name: String,
    pub string_match: Vec<(String, String)>,
}

#[derive(Clone, Debug)]
pub struct RouteAction {
    pub cluster: String,
}

} // verus!
