//! The keys the data plane finds connections by, and the choice of
//! upstream connections the proxy opens in advance.

use crate::config::Config;
use crate::net::{octets_in, octets_u32, ByteOrder, IpAddress, NetError, SocketAddress};
use vstd::prelude::*;

verus! {

/// What the data plane does with a message.
#[derive(Clone, Copy, Debug, PartialEq, Eq, Structural)]
pub enum Action {
    Drop,
    Pass,
}

/// An IPv4 address and port as the data plane stores them.
#[derive(Clone, Copy, Debug, PartialEq, Eq, Hash, Structural)]
pub struct AddrKey {
    pub ip4: u32,
    pub port: u32,
}

/// A connection as the data plane stores it: its local and remote end.
#[derive(Clone, Copy, Debug, PartialEq, Eq, Hash, Structural)]
pub struct SockKey {
    pub local: AddrKey,
    pub remote: AddrKey,
}

/// The key of an address, its octets read in the given byte order.
pub open spec fn addr_key_of(addr: SocketAddress, order: ByteOrder) -> Result<AddrKey, NetError> {
    match addr.ip {
        IpAddress::V4(ip) => Ok(AddrKey { ip4: octets_in(ip, order), port: addr.port as u32 }),
        IpAddress::V6(_) => Err(NetError::NotIpv4),
    }
}

impl AddrKey {
    /// The key of an address; only IPv4 addresses have one.
    pub fn try_from_addr(addr: &SocketAddress, order: ByteOrder) -> (r: Result<AddrKey, NetError>)
        ensures
            r == addr_key_of(*addr, order),
    {
        match addr.ip {
            IpAddress::V4(ip) => Ok(AddrKey { ip4: octets_u32(ip, order), port: addr.port as u32 }),
            IpAddress::V6(_) => Err(NetError::NotIpv4),
        }
    }
}

impl SockKey {
    /// The key of the connection between `local` and `remote`.
    pub fn try_from_addrs(local: &SocketAddress, remote: &SocketAddress, order: ByteOrder) -> (r:
        Result<SockKey, NetError>)
        ensures
            match (addr_key_of(*local, order), addr_key_of(*remote, order)) {
                (Ok(l), Ok(m)) => r == Ok::<SockKey, NetError>(SockKey { local: l, remote: m }),
                _ => r == Err::<SockKey, NetError>(NetError::NotIpv4),
            },
    {
        let l = AddrKey::try_from_addr(local, order)?;
        let m = AddrKey::try_from_addr(remote, order)?;
        Ok(SockKey { local: l, remote: m })
    }

    /// The same connection seen from its other end.
    pub open spec fn inverted(self) -> SockKey {
        SockKey { local: self.remote, remote: self.local }
    }

    /// The same connection seen from its other end.
    pub fn invert(&self) -> (r: SockKey)
        ensures
            r == self.inverted(),
    {
        SockKey { local: self.remote, remote: self.local }
    }
}

/// Where the proxy opens upstream connections.
pub trait NewUpstream {
    /// The key of the reverse proxy itself.
    fn reverse_proxy_ft(&self) -> AddrKey;

    /// The keys of the upstream instances to connect to.
    fn all_upstream_fts(&self) -> Vec<AddrKey>;
}

/// Connects to the first instance of every backend host.
pub struct ConnectToBackend {
    pub config: Config,
    pub byte_order: ByteOrder,
}

/// The keys of the first instance of each host; none at all when one of
/// them is not an IPv4 address.
pub open spec fn first_instance_keys(hosts: Seq<crate::config::Host>, order: ByteOrder) -> Seq<AddrKey> {
    if forall|i: int| 0 <= i < hosts.len() ==> (#[trigger] hosts[i]).instances@[0].ip is V4 {
        Seq::new(hosts.len(), |i: int| addr_key_of(hosts[i].instances@[0], order)->Ok_0)
    } else {
        Seq::empty()
    }
}

impl ConnectToBackend {
    pub fn new(config: Config, byte_order: ByteOrder) -> (r: Self)
        ensures
            r.config == config,
            r.byte_order == byte_order,
    {
        ConnectToBackend { config, byte_order }
    }

    /// Whether every host has an instance.
    pub open spec fn hosts_ok(&self) -> bool {
        forall|i: int| 0 <= i < self.config.hosts@.len() ==> (#[trigger] self.config.hosts@[i]).instances@.len() > 0
    }
}

impl NewUpstream for ConnectToBackend {
    fn reverse_proxy_ft(&self) -> (r: AddrKey)
        ensures
            r == (AddrKey { ip4: 0, port: 0 }),
    {
        AddrKey { ip4: 0, port: 0 }
    }

    fn all_upstream_fts(&self) -> (r: Vec<AddrKey>)
        ensures
            self.hosts_ok() ==> r@ == first_instance_keys(self.config.hosts@, self.byte_order),
            !self.hosts_ok() ==> r@ == Seq::<AddrKey>::empty(),
    {
        let hosts = &self.config.hosts;
        let mut out: Vec<AddrKey> = Vec::new();
        let mut i: usize = 0;
        while i < hosts.len()
            invariant
                i <= hosts@.len(),
                *hosts == self.config.hosts,
                forall|j: int| 0 <= j < i ==> (#[trigger] hosts@[j]).instances@[0].ip is V4,
                forall|j: int| 0 <= j < i ==> (#[trigger] hosts@[j]).instances@.len() > 0,
                out@ == Seq::new(i as nat, |j: int| addr_key_of(hosts@[j].instances@[0], self.byte_order)->Ok_0),
            decreases hosts.len() - i,
        {
            if hosts[i].instances.len() == 0 {
                return Vec::new();
            }
            match AddrKey::try_from_addr(&hosts[i].instances[0], self.byte_order) {
                Ok(k) => {
                    out.push(k);
                    assert(out@ =~= Seq::new(
                        i as nat + 1,
                        |j: int| addr_key_of(hosts@[j].instances@[0], self.byte_order)->Ok_0,
                    ));
                },
                Err(_) => {
                    assert(!(hosts@[i as int].instances@[0].ip is V4));
                    return Vec::new();
                },
            }
            i = i + 1;
        }
        out
    }
}

} // verus!
