//! The Beeline configuration: backend hosts, the routes that reach them with
//! their filters, the RBAC policies, and the accelerated network.

use crate::net::{ipv4_of, parse_ipv4, parse_u32, u32_of, Ipv4Address, IpAddress, SocketAddress};
use crate::text::{
    chars_of, dec_chars, eq_ignore_ascii_case, eq_ignore_ascii_case_spec, find_char,
    find_char_from, push_char, push_dec, slice_chars, str_eq,
};
use vstd::prelude::*;

verus! {

broadcast use vstd::string::group_string_axioms;

/// An IPv4 network: an address and the length of its prefix.
#[derive(Clone, Copy, Debug, PartialEq, Eq, Structural)]
pub struct Cidr {
    pub addr: Ipv4Address,
    pub mask: u32,
}

/// The text was not a CIDR range.
#[derive(Clone, Copy, Debug, PartialEq, Eq, Structural)]
pub struct CidrParseRangeError;

/// Two to the power `n`.
pub open spec fn two_pow(n: nat) -> nat
    decreases n,
{
    if n == 0 {
        1
    } else {
        2 * two_pow((n - 1) as nat)
    }
}

proof fn lemma_two_pow_mono(a: nat, b: nat)
    requires
        a <= b,
    ensures
        two_pow(a) <= two_pow(b),
    decreases b,
{
    if a < b {
        lemma_two_pow_mono(a, (b - 1) as nat);
    }
}

/// The network that `s` spells as "address/prefix": exactly one '/', a
/// dotted-decimal IPv4 address before it and a `u32` after it.
pub open spec fn cidr_of(s: Seq<char>) -> Option<Cidr> {
    let k = find_char(s, '/') as int;
    let rest = s.skip(k + 1);
    if k < s.len() && find_char(rest, '/') == rest.len() && ipv4_of(s.take(k)) is Some && u32_of(
        rest,
    ) is Some {
        Some(Cidr { addr: ipv4_of(s.take(k))->0, mask: u32_of(rest)->0 })
    } else {
        None
    }
}

/// The dotted-decimal form of `ip`.
pub open spec fn ipv4_text(ip: Ipv4Address) -> Seq<char> {
    dec_chars(ip.0 as nat) + seq!['.'] + dec_chars(ip.1 as nat) + seq!['.'] + dec_chars(
        ip.2 as nat,
    ) + seq!['.'] + dec_chars(ip.3 as nat)
}

/// Appends the dotted-decimal form of `ip` to `out`.
pub fn push_ipv4(out: &mut String, ip: Ipv4Address)
    ensures
        final(out)@ == old(out)@ + ipv4_text(ip),
{
    let ghost before = out@;
    push_dec(out, ip.0 as u128);
    push_char(out, '.');
    push_dec(out, ip.1 as u128);
    push_char(out, '.');
    push_dec(out, ip.2 as u128);
    push_char(out, '.');
    push_dec(out, ip.3 as u128);
    assert(out@ =~= before + ipv4_text(ip));
}

impl Cidr {
    /// The number of addresses in the network.
    pub fn len(&self) -> (r: u32)
        requires
            1 <= self.mask <= 32,
        ensures
            r == two_pow((32 - self.mask) as nat),
    {
        let n = 32 - self.mask;
        let mut r: u32 = 1;
        let mut i: u32 = 0;
        while i < n
            invariant
                i <= n <= 31,
                r == two_pow(i as nat),
            decreases n - i,
        {
            proof {
                lemma_two_pow_mono((i + 1) as nat, 31);
                assert(two_pow(31) == 0x8000_0000) by {
                    reveal_with_fuel(two_pow, 32);
                }
            }
            r = r * 2;
            i = i + 1;
        }
        r
    }

    /// Reads "address/prefix".
    pub fn from_str(s: &str) -> (r: Result<Cidr, CidrParseRangeError>)
        ensures
            r == (match cidr_of(s@) {
                Some(c) => Ok::<Cidr, CidrParseRangeError>(c),
                None => Err(CidrParseRangeError),
            }),
    {
        let v = chars_of(s);
        let k = find_char_from(&v, '/', 0);
        assert(v@.skip(0) =~= v@);
        if k >= v.len() {
            return Err(CidrParseRangeError);
        }
        let l = find_char_from(&v, '/', k + 1);
        if l < v.len() {
            return Err(CidrParseRangeError);
        }
        let head = slice_chars(&v, 0, k);
        let tail = slice_chars(&v, k + 1, v.len());
        proof {
            assert(head@ =~= v@.take(k as int));
            assert(tail@ =~= v@.skip(k + 1));
        }
        let addr = match parse_ipv4(&head) {
            Some(a) => a,
            None => return Err(CidrParseRangeError),
        };
        let mask = match parse_u32(&tail) {
            Some(m) => m,
            None => return Err(CidrParseRangeError),
        };
        Ok(Cidr { addr, mask })
    }

    /// The "address/prefix" form.
    pub fn to_text(&self) -> (r: String)
        ensures
            r@ == ipv4_text(self.addr) + seq!['/'] + dec_chars(self.mask as nat),
    {
        let mut out = String::new();
        push_ipv4(&mut out, self.addr);
        push_char(&mut out, '/');
        push_dec(&mut out, self.mask as u128);
        out
    }
}

impl CidrParseRangeError {
    /// The message of the error.
    pub fn to_text(&self) -> (r: String)
        ensures
            r@ == "Invalid CIDR range"@,
    {
        "Invalid CIDR range".to_string()
    }
}

/// An RBAC policy: a request that matches every given condition is allowed
/// or denied.
#[derive(Clone, Debug)]
pub struct Policy {
    pub name: String,
    pub method: Option<String>,
    pub path: Option<String>,
    pub dest_ip4: Option<IpAddress>,
    pub dest_port: Option<u16>,
    pub src_ip4: Option<IpAddress>,
    /// Header names and the values they must have.
    pub headers: Option<Vec<(String, String)>>,
    pub allow: bool,
}

/// A route: requests that match the pattern go through the filters to `dest`.
#[derive(Clone, Debug)]
pub struct Route {
    pub pattern: Pattern,
    pub dest: String,
    pub filters: Vec<Filter>,
}

/// A filter on a route.
#[derive(Clone, Debug)]
pub enum Filter {
    Jwt(JwtFilter),
    Mutate(MutateFilter),
}

impl Filter {
    pub fn is_jwt(&self) -> (r: bool)
        ensures
            r == (*self is Jwt),
    {
        match self {
            Filter::Jwt(_) => true,
            _ => false,
        }
    }

    pub fn is_mutate(&self) -> (r: bool)
        ensures
            r == (*self is Mutate),
    {
        match self {
            Filter::Mutate(_) => true,
            _ => false,
        }
    }
}

/// Checks a JWT bearer token: its signature against the secret and,
/// where given, its audience and issuer claims.
#[derive(Clone, Debug)]
pub struct JwtFilter {
    pub secret: String,
    pub audience: Option<String>,
    pub issuer: Option<String>,
}

/// Adds headers (name, value) to a request and removes headers by name.
#[derive(Clone, Debug)]
pub struct MutateFilter {
    pub add: Option<Vec<(String, String)>>,
    pub remove: Option<Vec<String>>,
}

/// What a request must hold to match a route: a path and header values.
#[derive(Clone, Debug)]
pub struct Pattern {
    pub path: Option<String>,
    pub headers: Option<Vec<(String, String)>>,
}

/// A backend host and its instances.
#[derive(Clone, Debug)]
pub struct Host {
    pub name: String,
    pub load_balancer: Option<LoadBalancer>,
    pub instances: Vec<SocketAddress>,
}

/// How requests are spread over the instances of a host.
#[derive(Clone, Copy, Debug, PartialEq, Eq, Structural)]
pub enum LoadBalancer {
    Ring(RingLoadBalancer),
}

/// A hash ring of `size` slots.
#[derive(Clone, Copy, Debug, PartialEq, Eq, Structural)]
pub struct RingLoadBalancer {
    pub size: usize,
}

/// The whole configuration.
#[derive(Clone, Debug)]
pub struct Config {
    pub socket: Option<SocketAddress>,
    pub tls: Option<SocketAddress>,
    pub proxy: Option<SocketAddress>,
    pub stats: bool,
    pub hosts: Vec<Host>,
    /// The network whose traffic is accelerated.
    pub network: Option<Cidr>,
    pub policies: Vec<Policy>,
    pub routes: Vec<Route>,
}

/// Whether `a` and `b` hold the same host.
pub open spec fn same_host(a: Host, b: Host) -> bool {
    a.name@ == b.name@ && a.load_balancer == b.load_balancer && a.instances@ == b.instances@
}

/// Whether `i` is the first host named `name`.
pub open spec fn first_host(hosts: Seq<Host>, name: Seq<char>, i: int) -> bool {
    0 <= i < hosts.len() && hosts[i].name@ == name && forall|j: int|
        0 <= j < i ==> hosts[j].name@ != name
}

/// Whether no host is named `name`.
pub open spec fn no_host(hosts: Seq<Host>, name: Seq<char>) -> bool {
    forall|i: int| 0 <= i < hosts.len() ==> hosts[i].name@ != name
}

/// Whether `name` designates the proxy itself and the proxy has an address.
pub open spec fn names_proxy(config: Config, name: Seq<char>) -> bool {
    eq_ignore_ascii_case_spec(name, "proxy"@) && config.proxy is Some
}

/// A copy of the addresses in `v`.
pub fn copy_addrs(v: &Vec<SocketAddress>) -> (r: Vec<SocketAddress>)
    ensures
        r@ == v@,
{
    let mut out: Vec<SocketAddress> = Vec::new();
    let mut i: usize = 0;
    while i < v.len()
        invariant
            i <= v@.len(),
            out@ == v@.take(i as int),
        decreases v.len() - i,
    {
        out.push(v[i]);
        i = i + 1;
        assert(out@ =~= v@.take(i as int));
    }
    assert(v@.take(v@.len() as int) =~= v@);
    out
}

/// A copy of `h`.
pub fn copy_host(h: &Host) -> (r: Host)
    ensures
        same_host(r, *h),
{
    Host { name: h.name.clone(), load_balancer: h.load_balancer, instances: copy_addrs(&h.instances) }
}

/// The index of the first host named `name`, if any.
pub fn find_host(hosts: &Vec<Host>, name: &str) -> (r: Option<usize>)
    ensures
        match r {
            Some(i) => first_host(hosts@, name@, i as int),
            None => no_host(hosts@, name@),
        },
{
    let mut i: usize = 0;
    while i < hosts.len()
        invariant
            i <= hosts@.len(),
            forall|j: int| 0 <= j < i ==> hosts@[j].name@ != name@,
        decreases hosts.len() - i,
    {
        if str_eq(hosts[i].name.as_str(), name) {
            return Some(i);
        }
        i = i + 1;
    }
    None
}

/// At most one host is the first of a name.
pub proof fn lemma_first_host_unique(hosts: Seq<Host>, name: Seq<char>, i: int, j: int)
    requires
        first_host(hosts, name, i),
        first_host(hosts, name, j),
    ensures
        i == j,
{
    if i < j {
        assert(hosts[i].name@ != name);
    } else if j < i {
        assert(hosts[j].name@ != name);
    }
}

/// What a destination name resolves to: the load balancer and the
/// instances of the host, the proxy for "proxy" when it has an address.
pub open spec fn resolved(config: Config, name: Seq<char>) -> Option<
    (Option<LoadBalancer>, Seq<SocketAddress>),
> {
    if names_proxy(config, name) {
        Some((None, seq![config.proxy->0]))
    } else if exists|i: int| first_host(config.hosts@, name, i) {
        let i = choose|i: int| first_host(config.hosts@, name, i);
        Some((config.hosts@[i].load_balancer, config.hosts@[i].instances@))
    } else {
        None
    }
}

impl Config {
    /// The host a route names: the proxy itself for "proxy" (in any case)
    /// when the proxy has an address, otherwise the first host of that name.
    pub fn resolve_host(&self, name: &str) -> (r: Option<Host>)
        ensures
            names_proxy(*self, name@) ==> (r matches Some(h) && h.name@ == "proxy"@
                && h.load_balancer is None && h.instances@ == seq![self.proxy->0]),
            !names_proxy(*self, name@) ==> match r {
                Some(h) => exists|i: int|
                    first_host(self.hosts@, name@, i) && same_host(h, #[trigger] self.hosts@[i]),
                None => no_host(self.hosts@, name@),
            },
            match resolved(*self, name@) {
                Some((lb, inst)) => r matches Some(h) && h.load_balancer == lb && h.instances@
                    == inst,
                None => r is None,
            },
    {
        if eq_ignore_ascii_case(name, "proxy") {
            if let Some(addr) = self.proxy {
                let mut instances: Vec<SocketAddress> = Vec::new();
                instances.push(addr);
                assert(instances@ =~= seq![addr]);
                return Some(Host { name: "proxy".to_string(), load_balancer: None, instances });
            }
        }
        match find_host(&self.hosts, name) {
            Some(i) => {
                proof {
                    let j = choose|j: int| first_host(self.hosts@, name@, j);
                    lemma_first_host_unique(self.hosts@, name@, i as int, j);
                }
                Some(copy_host(&self.hosts[i]))
            },
            None => None,
        }
    }

    /// The instances of the first host named `backend`.
    pub fn all_backend_instances(&self, backend: &str) -> (r: Option<&Vec<SocketAddress>>)
        ensures
            match r {
                Some(v) => exists|i: int|
                    first_host(self.hosts@, backend@, i) && v@ == (#[trigger] self.hosts@[i]).instances@,
                None => no_host(self.hosts@, backend@),
            },
    {
        match find_host(&self.hosts, backend) {
            Some(i) => Some(&self.hosts[i].instances),
            None => None,
        }
    }
}

} // verus!
