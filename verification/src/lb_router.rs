//! The request router of the io_uring load balancer: which backend
//! connection a client's bytes go to, which idle connections are reused,
//! and when a new connection has to be opened. The event loop performs the
//! reads, writes and connects; the router keeps the connection tables.

use crate::lb::{http_view, parse_hdr, utf8_lossy, parse_hdr_spec, HttpView};
use crate::text::str_eq;
use std::collections::HashMap;
use vstd::prelude::*;

verus! {

broadcast use vstd::std_specs::hash::group_hash_axioms;

/// The URL a request asks for.
pub open spec fn view_url(h: HttpView) -> Seq<char> {
    match h {
        HttpView::Get(u) => u,
        HttpView::Post(u) => u,
        HttpView::Put(u) => u,
        HttpView::Delete(u) => u,
    }
}

/// The first index below `n` where `ks` holds `k`, or -1.
pub open spec fn find_key(ks: Seq<Seq<char>>, k: Seq<char>, n: nat) -> int
    decreases n,
{
    if n == 0 {
        -1
    } else {
        let p = find_key(ks, k, (n - 1) as nat);
        if p >= 0 {
            p
        } else if ks[n - 1] == k {
            n - 1
        } else {
            -1
        }
    }
}

proof fn lemma_find_key_stable(ks: Seq<Seq<char>>, k: Seq<char>, n: nat, m: nat)
    requires
        n <= m,
        find_key(ks, k, n) >= 0,
    ensures
        find_key(ks, k, m) == find_key(ks, k, n),
    decreases m,
{
    if m > n {
        lemma_find_key_stable(ks, k, n, (m - 1) as nat);
    }
}

/// Where `find_key` points, the key is.
pub proof fn lemma_find_key_bounds_pub(ks: Seq<Seq<char>>, k: Seq<char>, n: nat)
    requires
        n <= ks.len(),
    ensures
        -1 <= find_key(ks, k, n) < n,
        find_key(ks, k, n) >= 0 ==> ks[find_key(ks, k, n)] == k,
{
    lemma_find_key_bounds(ks, k, n);
}

proof fn lemma_find_key_bounds(ks: Seq<Seq<char>>, k: Seq<char>, n: nat)
    requires
        n <= ks.len(),
    ensures
        -1 <= find_key(ks, k, n) < n,
        find_key(ks, k, n) >= 0 ==> ks[find_key(ks, k, n)] == k,
    decreases n,
{
    if n > 0 {
        lemma_find_key_bounds(ks, k, (n - 1) as nat);
    }
}

/// Where a client's bytes go.
#[derive(Clone, Copy, Debug, PartialEq, Eq, Structural)]
pub enum ClientRoute {
    /// Write them to this connection.
    Write(i32),
    /// Drop them.
    Drop,
    /// Open a connection to the backend at this position, then report it
    /// with `connected` and write them there.
    Connect(usize),
    /// The client's backend connection leads to an address that no backend has.
    UnknownPeer,
}

/// The router's tables by value.
pub ghost struct RouterView {
    /// (URL, address) of each backend.
    pub backends: Seq<(Seq<char>, Seq<char>)>,
    /// The idle connections of each backend, by position.
    pub pool: Seq<Seq<i32>>,
    /// Each paired connection to its peer.
    pub conns: Map<i32, i32>,
    /// Each backend connection to the address of its peer.
    pub peers: Map<i32, Seq<char>>,
}

impl RouterView {
    pub open spec fn urls(self) -> Seq<Seq<char>> {
        self.backends.map_values(|b: (Seq<char>, Seq<char>)| b.0)
    }

    pub open spec fn addrs(self) -> Seq<Seq<char>> {
        self.backends.map_values(|b: (Seq<char>, Seq<char>)| b.1)
    }

    /// The backend connection a client is paired with, when it is one.
    pub open spec fn current(self, cfd: i32) -> Option<i32> {
        if self.conns.contains_key(cfd) && self.peers.contains_key(self.conns[cfd]) {
            Some(self.conns[cfd])
        } else {
            None
        }
    }
}

/// The tables after the client `cfd` leaves its backend connection `bfd`:
/// the connection goes back to the pool of the backend at its peer's
/// address, and the pair is dissolved; nothing when no backend has that
/// address.
pub open spec fn release(v: RouterView, cfd: i32, bfd: i32) -> Option<RouterView> {
    let j = find_key(v.addrs(), v.peers[bfd], v.backends.len());
    if j < 0 {
        None
    } else {
        Some(
            RouterView {
                pool: v.pool.update(j, v.pool[j].push(bfd)),
                conns: v.conns.remove(cfd).remove(bfd),
                ..v
            },
        )
    }
}

/// The tables after pairing `cfd` with an idle connection of backend `i`,
/// or the tables and a request to connect when it has none.
pub open spec fn take_idle(v: RouterView, cfd: i32, i: int) -> (RouterView, ClientRoute) {
    if v.pool[i].len() > 0 {
        let b = v.pool[i].last();
        (
            RouterView {
                pool: v.pool.update(i, v.pool[i].drop_last()),
                conns: v.conns.insert(cfd, b).insert(b, cfd),
                ..v
            },
            ClientRoute::Write(b),
        )
    } else {
        (v, ClientRoute::Connect(i as usize))
    }
}

/// Where the bytes of client `cfd` go, asking for `url` when they start a
/// request, and the tables after.
pub open spec fn route_spec(v: RouterView, cfd: i32, url: Option<Seq<char>>) -> (RouterView, ClientRoute) {
    match url {
        None => (
            v,
            if v.conns.contains_key(cfd) {
                ClientRoute::Write(v.conns[cfd])
            } else {
                ClientRoute::Drop
            },
        ),
        Some(u) => {
            let i = find_key(v.urls(), u, v.backends.len());
            if i < 0 {
                (v, ClientRoute::Drop)
            } else {
                match v.current(cfd) {
                    Some(bfd) => if v.peers[bfd] == v.backends[i].1 {
                        (v, ClientRoute::Write(bfd))
                    } else {
                        match release(v, cfd, bfd) {
                            Some(v1) => take_idle(v1, cfd, i),
                            None => (v, ClientRoute::UnknownPeer),
                        }
                    },
                    None => take_idle(v, cfd, i),
                }
            }
        },
    }
}

/// The tables are consistent: each pair joins a client and a backend
/// connection both ways, and the idle connections are backend
/// connections, unpaired, each idle once.
pub open spec fn consistent(v: RouterView) -> bool {
    &&& forall|a: i32|
        #[trigger] v.conns.contains_key(a) ==> v.conns.contains_key(v.conns[a]) && v.conns[v.conns[a]]
            == a && v.peers.contains_key(a) != v.peers.contains_key(v.conns[a])
    &&& forall|i: int, k: int|
        0 <= i < v.pool.len() && 0 <= k < v.pool[i].len() ==> !v.conns.contains_key(
            #[trigger] v.pool[i][k],
        ) && v.peers.contains_key(v.pool[i][k])
    &&& forall|i: int, k: int, i2: int, k2: int|
        0 <= i < v.pool.len() && 0 <= k < v.pool[i].len() && 0 <= i2 < v.pool.len() && 0 <= k2
            < v.pool[i2].len() && (i != i2 || k != k2) ==> #[trigger] v.pool[i][k]
            != #[trigger] v.pool[i2][k2]
}

/// The tables after `connected(cfd, bfd, peer)`.
pub open spec fn connect_spec(v: RouterView, cfd: i32, bfd: i32, peer: Seq<char>) -> RouterView {
    RouterView {
        conns: v.conns.insert(cfd, bfd).insert(bfd, cfd),
        peers: v.peers.insert(bfd, peer),
        ..v
    }
}

/// The connection tables of the load balancer.
pub struct LbRouter {
    /// (URL, address) of each backend.
    pub backends: Vec<(String, String)>,
    /// The idle connections of each backend, by position.
    pub pool: Vec<Vec<i32>>,
    /// Each paired connection to its peer: client to backend and back.
    pub conns: HashMap<i32, i32>,
    /// Each backend connection to the address of its peer.
    pub peers: HashMap<i32, String>,
}

impl View for LbRouter {
    type V = RouterView;

    open spec fn view(&self) -> RouterView {
        RouterView {
            backends: self.backends@.map_values(|p: (String, String)| (p.0@, p.1@)),
            pool: self.pool@.map_values(|p: Vec<i32>| p@),
            conns: self.conns@,
            peers: self.peers@.map_values(|s: String| s@),
        }
    }
}

impl LbRouter {
    /// Every backend has a pool.
    pub open spec fn wf(&self) -> bool {
        self.pool@.len() == self.backends@.len()
    }

    /// A router with no connections yet.
    pub fn new(backends: Vec<(String, String)>) -> (r: LbRouter)
        ensures
            r.wf(),
            r@.backends == backends@.map_values(|p: (String, String)| (p.0@, p.1@)),
            r@.pool == Seq::new(backends@.len(), |i: int| Seq::<i32>::empty()),
            r@.conns == Map::<i32, i32>::empty(),
            r@.peers == Map::<i32, Seq<char>>::empty(),
    {
        let mut pool: Vec<Vec<i32>> = Vec::new();
        let mut i: usize = 0;
        while i < backends.len()
            invariant
                i <= backends@.len(),
                pool@.len() == i,
                forall|k: int| 0 <= k < i ==> (#[trigger] pool@[k])@ == Seq::<i32>::empty(),
            decreases backends.len() - i,
        {
            pool.push(Vec::new());
            i = i + 1;
        }
        assert(pool@.map_values(|p: Vec<i32>| p@) =~= Seq::new(i as nat, |k: int| Seq::<i32>::empty()));
        let r = LbRouter { backends, pool, conns: HashMap::new(), peers: HashMap::new() };
        assert(r@.peers =~= Map::<i32, Seq<char>>::empty());
        r
    }

    /// Whether `fd` is a backend connection.
    pub fn is_backend(&self, fd: i32) -> (r: bool)
        ensures
            r == self@.peers.contains_key(fd),
    {
        self.peers.contains_key(&fd)
    }

    /// Where bytes from backend connection `bfd` go: to its client.
    pub fn backend_route(&self, bfd: i32) -> (r: Option<i32>)
        ensures
            r == (if self@.conns.contains_key(bfd) {
                Some(self@.conns[bfd])
            } else {
                None::<i32>
            }),
    {
        match self.conns.get(&bfd) {
            Some(c) => Some(*c),
            None => None,
        }
    }

    fn url_index(&self, url: &str) -> (r: Option<usize>)
        ensures
            find_key(self@.urls(), url@, self@.backends.len()) < self@.backends.len(),
            r is None <==> find_key(self@.urls(), url@, self@.backends.len()) < 0,
            r matches Some(k) ==> k == find_key(self@.urls(), url@, self@.backends.len()),
    {
        proof {
            lemma_find_key_bounds(self@.urls(), url@, self@.backends.len());
        }
        let mut i: usize = 0;
        while i < self.backends.len()
            invariant
                i <= self.backends@.len(),
                find_key(self@.urls(), url@, i as nat) == -1,
            decreases self.backends.len() - i,
        {
            if str_eq(self.backends[i].0.as_str(), url) {
                assert(self@.urls()[i as int] == url@);
                proof {
                    lemma_find_key_stable(self@.urls(), url@, i as nat + 1, self@.backends.len());
                }
                return Some(i);
            }
            assert(self@.urls()[i as int] != url@);
            i = i + 1;
        }
        None
    }

    fn addr_index(&self, addr: &str) -> (r: Option<usize>)
        ensures
            find_key(self@.addrs(), addr@, self@.backends.len()) < self@.backends.len(),
            r is None <==> find_key(self@.addrs(), addr@, self@.backends.len()) < 0,
            r matches Some(k) ==> k == find_key(self@.addrs(), addr@, self@.backends.len()),
    {
        proof {
            lemma_find_key_bounds(self@.addrs(), addr@, self@.backends.len());
        }
        let mut i: usize = 0;
        while i < self.backends.len()
            invariant
                i <= self.backends@.len(),
                find_key(self@.addrs(), addr@, i as nat) == -1,
            decreases self.backends.len() - i,
        {
            if str_eq(self.backends[i].1.as_str(), addr) {
                assert(self@.addrs()[i as int] == addr@);
                proof {
                    lemma_find_key_stable(self@.addrs(), addr@, i as nat + 1, self@.backends.len());
                }
                return Some(i);
            }
            assert(self@.addrs()[i as int] != addr@);
            i = i + 1;
        }
        None
    }

    fn pool_push(&mut self, j: usize, fd: i32)
        requires
            old(self).wf(),
            j < old(self).pool@.len(),
        ensures
            final(self).wf(),
            final(self)@ == (RouterView {
                pool: old(self)@.pool.update(j as int, old(self)@.pool[j as int].push(fd)),
                ..old(self)@
            }),
    {
        let ghost before = self@;
        self.pool[j].push(fd);
        assert(self@.pool =~= before.pool.update(j as int, before.pool[j as int].push(fd)));
    }

    fn pool_pop(&mut self, i: usize) -> (r: i32)
        requires
            old(self).wf(),
            i < old(self).pool@.len(),
            old(self).pool@[i as int].len() > 0,
        ensures
            final(self).wf(),
            r == old(self)@.pool[i as int].last(),
            final(self)@ == (RouterView {
                pool: old(self)@.pool.update(i as int, old(self)@.pool[i as int].drop_last()),
                ..old(self)@
            }),
    {
        let ghost before = self@;
        let b = match self.pool[i].pop() {
            Some(b) => b,
            None => 0,
        };
        assert(self@.pool =~= before.pool.update(i as int, before.pool[i as int].drop_last()));
        b
    }

    fn pair(&mut self, cfd: i32, bfd: i32)
        ensures
            final(self)@ == (RouterView { conns: old(self)@.conns.insert(cfd, bfd).insert(bfd, cfd), ..old(self)@ }),
            final(self).pool == old(self).pool,
            final(self).backends == old(self).backends,
    {
        self.conns.insert(cfd, bfd);
        self.conns.insert(bfd, cfd);
    }

    /// Where the bytes of client `cfd` go, when they start a request for
    /// `url` or continue one.
    pub fn route_client(&mut self, cfd: i32, url: Option<&str>) -> (r: ClientRoute)
        requires
            old(self).wf(),
        ensures
            final(self).wf(),
            (final(self)@, r) == route_spec(
                old(self)@,
                cfd,
                match url {
                    Some(u) => Some(u@),
                    None => None,
                },
            ),
    {
        let u = match url {
            None => {
                return match self.conns.get(&cfd) {
                    Some(b) => ClientRoute::Write(*b),
                    None => ClientRoute::Drop,
                };
            },
            Some(u) => u,
        };
        let i = match self.url_index(u) {
            Some(i) => i,
            None => {
                return ClientRoute::Drop;
            },
        };
        assert(self@.backends[i as int].1 == self.backends@[i as int].1@);
        let cur: Option<i32> = match self.conns.get(&cfd) {
            Some(b) => if self.peers.contains_key(b) {
                Some(*b)
            } else {
                None
            },
            None => None,
        };
        let ghost v0 = self@;
        assert(cur == v0.current(cfd));
        if let Some(bfd) = cur {
            let (same, j) = match self.peers.get(&bfd) {
                Some(p) => {
                    assert(v0.peers[bfd] == p@);
                    (str_eq(p.as_str(), self.backends[i].1.as_str()), self.addr_index(p.as_str()))
                },
                None => (false, None),
            };
            if same {
                return ClientRoute::Write(bfd);
            }
            let j = match j {
                Some(j) => j,
                None => {
                    return ClientRoute::UnknownPeer;
                },
            };
            self.pool_push(j, bfd);
            self.conns.remove(&cfd);
            self.conns.remove(&bfd);
            assert(self@ == release(v0, cfd, bfd)->0);
        }
        let ghost v1 = self@;
        assert(self@.pool[i as int] == self.pool@[i as int]@);
        if self.pool[i].len() > 0 {
            let b = self.pool_pop(i);
            self.pair(cfd, b);
            ClientRoute::Write(b)
        } else {
            ClientRoute::Connect(i)
        }
    }

    /// Records the new connection `bfd` to the backend at `peer` and pairs
    /// it with client `cfd`.
    pub fn connected(&mut self, cfd: i32, bfd: i32, peer: String)
        requires
            old(self).wf(),
        ensures
            final(self).wf(),
            final(self)@ == connect_spec(old(self)@, cfd, bfd, peer@),
    {
        let ghost before = self@;
        self.peers.insert(bfd, peer);
        assert(self@.peers =~= before.peers.insert(bfd, peer@));
        self.pair(cfd, bfd);
    }

    /// Where the bytes in `buf` from client `cfd` go: a request goes to a
    /// connection to the backend of its URL, other bytes follow the
    /// client's connection.
    pub fn read_client_req(&mut self, cfd: i32, buf: &[u8]) -> (r: ClientRoute)
        requires
            old(self).wf(),
        ensures
            final(self).wf(),
            (final(self)@, r) == route_spec(
                old(self)@,
                cfd,
                match parse_hdr_spec(utf8_lossy(buf@)) {
                    Some((req, _, _)) => Some(view_url(req)),
                    None => None,
                },
            ),
    {
        match parse_hdr(buf) {
            Some((req, _, _)) => {
                let url = req.url();
                assert(view_url(http_view(req)) == url@);
                self.route_client(cfd, Some(url.as_str()))
            },
            None => self.route_client(cfd, None),
        }
    }
}

/// The (URL, address) pairs by value.
pub open spec fn backends_view(b: Seq<(String, String)>) -> Seq<(Seq<char>, Seq<char>)> {
    b.map_values(|p: (String, String)| (p.0@, p.1@))
}

/// The URLs of the backends.
pub open spec fn backend_urls(b: Seq<(Seq<char>, Seq<char>)>) -> Seq<Seq<char>> {
    b.map_values(|p: (Seq<char>, Seq<char>)| p.0)
}

/// The addresses of the backends.
pub open spec fn backend_addrs(b: Seq<(Seq<char>, Seq<char>)>) -> Seq<Seq<char>> {
    b.map_values(|p: (Seq<char>, Seq<char>)| p.1)
}

/// The first position where `backends` has `key` as its URL (`by_url`) or
/// as its address.
pub fn backend_index(backends: &Vec<(String, String)>, key: &str, by_url: bool) -> (r: Option<usize>)
    ensures
        ({
            let ks = if by_url {
                backend_urls(backends_view(backends@))
            } else {
                backend_addrs(backends_view(backends@))
            };
            let f = find_key(ks, key@, backends@.len());
            &&& f < backends@.len()
            &&& r is None <==> f < 0
            &&& r matches Some(k) ==> k == f
        }),
{
    let ghost ks = if by_url {
        backend_urls(backends_view(backends@))
    } else {
        backend_addrs(backends_view(backends@))
    };
    proof {
        lemma_find_key_bounds(ks, key@, backends@.len());
    }
    let mut i: usize = 0;
    while i < backends.len()
        invariant
            i <= backends@.len(),
            ks == (if by_url {
                backend_urls(backends_view(backends@))
            } else {
                backend_addrs(backends_view(backends@))
            }),
            ks.len() == backends@.len(),
            forall|j: int| 0 <= j < backends@.len() ==> #[trigger] ks[j] == (if by_url {
                backends@[j].0@
            } else {
                backends@[j].1@
            }),
            find_key(ks, key@, i as nat) == -1,
        decreases backends.len() - i,
    {
        let k = if by_url {
            backends[i].0.as_str()
        } else {
            backends[i].1.as_str()
        };
        if str_eq(k, key) {
            assert(ks[i as int] == key@);
            proof {
                lemma_find_key_stable(ks, key@, i as nat + 1, backends@.len());
            }
            return Some(i);
        }
        assert(ks[i as int] != key@);
        i = i + 1;
    }
    None
}

/// What a connection of the multi-threaded load balancer does with bytes
/// from its client.
#[derive(Clone, Copy, Debug, PartialEq, Eq, Structural)]
pub enum ConnStep {
    /// Write them to the current backend connection.
    Write,
    /// Drop them.
    Drop,
    /// Use a connection to the backend at this position: an idle one from
    /// the pool, else a new one; the current backend connection, if any,
    /// is left as `leave_backend` decides.
    Switch(usize),
}

/// The step for bytes asking for `url` (when they start a request) on a
/// connection whose backend connection leads to `current` (when it has one).
pub open spec fn conn_step_spec(
    backends: Seq<(Seq<char>, Seq<char>)>,
    url: Option<Seq<char>>,
    current: Option<Seq<char>>,
) -> ConnStep {
    match url {
        None => if current is Some {
            ConnStep::Write
        } else {
            ConnStep::Drop
        },
        Some(u) => {
            let i = find_key(backend_urls(backends), u, backends.len());
            if i < 0 {
                ConnStep::Drop
            } else if current == Some(backends[i].1) {
                ConnStep::Write
            } else {
                ConnStep::Switch(i as usize)
            }
        },
    }
}

/// The step of a connection of the multi-threaded load balancer.
pub fn conn_step(backends: &Vec<(String, String)>, url: Option<&str>, current: Option<&str>) -> (r:
    ConnStep)
    ensures
        r == conn_step_spec(
            backends_view(backends@),
            match url {
                Some(u) => Some(u@),
                None => None,
            },
            match current {
                Some(c) => Some(c@),
                None => None,
            },
        ),
{
    let u = match url {
        None => {
            return if current.is_some() {
                ConnStep::Write
            } else {
                ConnStep::Drop
            };
        },
        Some(u) => u,
    };
    let i = match backend_index(backends, u, true) {
        Some(i) => i,
        None => {
            return ConnStep::Drop;
        },
    };
    assert(backends_view(backends@)[i as int].1 == backends@[i as int].1@);
    match current {
        Some(c) => {
            if str_eq(c, backends[i].1.as_str()) {
                ConnStep::Write
            } else {
                ConnStep::Switch(i)
            }
        },
        None => ConnStep::Switch(i),
    }
}

/// What becomes of the backend connection a client of the multi-threaded
/// load balancer leaves.
#[derive(Clone, Copy, Debug, PartialEq, Eq, Structural)]
pub enum Leave {
    /// Cancel the read pending on it, whose submission has this user data,
    /// and keep the connection among those closing.
    CancelRead(usize),
    /// No read is pending on it: the connection is let go, not pooled.
    Drop,
}

/// The first pending read of `reads` (user data, socket) on socket `bfd`.
pub open spec fn first_read(reads: Seq<(usize, i32)>, bfd: i32, n: nat) -> int
    decreases n,
{
    if n == 0 {
        -1
    } else {
        let p = first_read(reads, bfd, (n - 1) as nat);
        if p >= 0 {
            p
        } else if reads[n - 1].1 == bfd {
            n - 1
        } else {
            -1
        }
    }
}

/// The backend connection `bfd` that a client leaves: its first pending
/// read among `reads` (user data, socket), in submission order, is
/// cancelled and the connection parked; with no read pending it is let go.
pub fn leave_backend(reads: &Vec<(usize, i32)>, bfd: i32) -> (r: Leave)
    ensures
        ({
            let j = first_read(reads@, bfd, reads@.len());
            if j >= 0 {
                r == Leave::CancelRead(reads@[j].0)
            } else {
                r == Leave::Drop
            }
        }),
{
    let mut i: usize = 0;
    while i < reads.len()
        invariant
            i <= reads@.len(),
            first_read(reads@, bfd, i as nat) == -1,
        decreases reads.len() - i,
    {
        if reads[i].1 == bfd {
            proof {
                lemma_first_read_stays(reads@, bfd, i as nat + 1, reads@.len());
            }
            return Leave::CancelRead(reads[i].0);
        }
        i = i + 1;
    }
    Leave::Drop
}

proof fn lemma_first_read_stays(reads: Seq<(usize, i32)>, bfd: i32, m: nat, n: nat)
    requires
        m <= n <= reads.len(),
        first_read(reads, bfd, m) >= 0,
    ensures
        first_read(reads, bfd, n) == first_read(reads, bfd, m),
    decreases n - m,
{
    if m < n {
        lemma_first_read_stays(reads, bfd, m, (n - 1) as nat);
    }
}

} // verus!
