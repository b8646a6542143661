//! The pipeline of the user-space baseline proxy: the tables it keeps of
//! connections, loads and sockets, the periodic choice of the least loaded
//! instance of each group, and the handling of one message from reading
//! its head to choosing its socket. Backends are numbered.

use crate::config::Config;
use crate::forwarding::{
    authenticate, backend_id, candidate, entry_load, bearer_token, decide_destination, destination_for, fib_groups,
    forward_ds_conn, forward_us_conn, group_of, hs256_verifies, in_group, jwt_key,
    least_loaded, lemma_least_loaded_bounds, lemma_least_loaded_min, min_instance, random_instance_ok, resolve_preconfigured_instance_rand,
    return_token, select_token, signature_backend, token_for, Destination,
    Direction, ForwardingDimension, ForwardingToken, PipelineError,
};
use crate::http_head::{
    conn_id_line, field_value, fields_of, insert_conn_id, message_fields, message_head,
    values_text, HeadError, HeadStatus,
};
use crate::lb::pairs_of;
use crate::net::{u32_of, SocketAddress};
use crate::table::{
    addr_index, bumped, key_index, lemma_key_index_bounds, lemma_key_index_take, lemma_lookup_put,
    lookup, put, LoadState,
};
use crate::text::{chars_of, digit_value, is_digit};
use vstd::prelude::*;

verus! {

broadcast use vstd::string::group_string_axioms;

/// The pipeline's tables by value.
pub ghost struct Tables {
    /// The counters of each downstream connection.
    pub ds: Seq<(SocketAddress, LoadState)>,
    /// Whether each upstream socket is reserved.
    pub us: Seq<(SocketAddress, bool)>,
    /// The counters of each (backend, instance).
    pub loads: Seq<((u8, u16), LoadState)>,
    /// The socket of each token.
    pub fib: Seq<(ForwardingToken, SocketAddress)>,
    /// The least loaded instance of each group.
    pub min: Seq<(ForwardingToken, u16)>,
}

/// The forwarding state of the baseline proxy.
pub struct Pipeline {
    pub config: Config,
    pub ds_state: Vec<(SocketAddress, LoadState)>,
    pub us_state: Vec<(SocketAddress, bool)>,
    pub us_load_state: Vec<((u8, u16), LoadState)>,
    pub fib: Vec<(ForwardingToken, SocketAddress)>,
    pub min_instance: Vec<(ForwardingToken, u16)>,
}

impl View for Pipeline {
    type V = Tables;

    open spec fn view(&self) -> Tables {
        Tables {
            ds: self.ds_state@,
            us: self.us_state@,
            loads: self.us_load_state@,
            fib: self.fib@,
            min: self.min_instance@,
        }
    }
}

/// The sockets the table marks reserved, in its order.
pub open spec fn reserved_of(us: Seq<(SocketAddress, bool)>) -> Seq<SocketAddress>
    decreases us.len(),
{
    if us.len() == 0 {
        Seq::empty()
    } else if us.last().1 {
        reserved_of(us.drop_last()).push(us.last().0)
    } else {
        reserved_of(us.drop_last())
    }
}

/// The bytes counted for each (backend, instance).
pub open spec fn load_bytes(loads: Seq<((u8, u16), LoadState)>) -> Seq<(u8, u16, u32)> {
    loads.map_values(|e: ((u8, u16), LoadState)| (e.0.0, e.0.1, e.1.num_bytes))
}

/// Whether `g` is the group of a FIB entry that names an instance.
pub open spec fn is_group(fib: Seq<(ForwardingToken, SocketAddress)>, g: ForwardingToken) -> bool {
    exists|i: int|
        0 <= i < fib.len() && fib[i].0.instance != ForwardingDimension::<u16>::DontCare && g
            == group_of(#[trigger] fib[i].0)
}

/// The least loaded free instance of group `g`, when there is one.
pub open spec fn least_instance_of(
    fib: Seq<(ForwardingToken, SocketAddress)>,
    g: ForwardingToken,
    us: Seq<(SocketAddress, bool)>,
    loads: Seq<((u8, u16), LoadState)>,
) -> Option<u16> {
    let k = least_loaded(fib, g, reserved_of(us), load_bytes(loads), fib.len());
    if k < 0 {
        None
    } else {
        Some(fib[k].0.instance->Concrete_0)
    }
}

/// Whether every FIB entry in the group of an entry that names an instance
/// names its backend and instance.
pub open spec fn groups_concrete(fib: Seq<(ForwardingToken, SocketAddress)>) -> bool {
    forall|i: int, j: int|
        0 <= i < fib.len() && 0 <= j < fib.len() && fib[j].0.instance
            != ForwardingDimension::<u16>::DontCare && in_group(
            #[trigger] fib[i].0,
            group_of(#[trigger] fib[j].0),
        ) ==> fib[i].0.backend is Concrete && fib[i].0.instance is Concrete
}

fn token_index<V>(s: &Vec<(ForwardingToken, V)>, t: &ForwardingToken) -> (r: Option<usize>)
    ensures
        match r {
            Some(i) => i < s@.len() && key_index(s@, *t) == i,
            None => key_index(s@, *t) == -1,
        },
{
    let mut i: usize = 0;
    while i < s.len()
        invariant
            i <= s@.len(),
            forall|j: int| 0 <= j < i ==> s@[j].0 != *t,
        decreases s.len() - i,
    {
        if s[i].0 == *t {
            proof {
                lemma_key_index_take(s@, *t, i as int);
            }
            return Some(i);
        }
        i = i + 1;
    }
    proof {
        lemma_key_index_take(s@, *t, s@.len() as int);
    }
    None
}

fn load_index(s: &Vec<((u8, u16), LoadState)>, k: (u8, u16)) -> (r: Option<usize>)
    ensures
        match r {
            Some(i) => i < s@.len() && key_index(s@, k) == i,
            None => key_index(s@, k) == -1,
        },
{
    let mut i: usize = 0;
    while i < s.len()
        invariant
            i <= s@.len(),
            forall|j: int| 0 <= j < i ==> s@[j].0 != k,
        decreases s.len() - i,
    {
        if s[i].0.0 == k.0 && s[i].0.1 == k.1 {
            proof {
                lemma_key_index_take(s@, k, i as int);
            }
            return Some(i);
        }
        i = i + 1;
    }
    proof {
        lemma_key_index_take(s@, k, s@.len() as int);
    }
    None
}

fn lookup_token<V: Copy>(s: &Vec<(ForwardingToken, V)>, t: &ForwardingToken) -> (r: Option<V>)
    ensures
        r == lookup(s@, *t),
{
    proof {
        lemma_key_index_bounds(s@, *t);
    }
    match token_index(s, t) {
        Some(i) => Some(s[i].1),
        None => None,
    }
}

fn reserved_list(us: &Vec<(SocketAddress, bool)>) -> (r: Vec<SocketAddress>)
    ensures
        r@ == reserved_of(us@),
{
    let mut out: Vec<SocketAddress> = Vec::new();
    let mut i: usize = 0;
    while i < us.len()
        invariant
            i <= us@.len(),
            out@ == reserved_of(us@.take(i as int)),
        decreases us.len() - i,
    {
        proof {
            let t = us@.take(i as int + 1);
            assert(t.drop_last() =~= us@.take(i as int));
            assert(t.last() == us@[i as int]);
        }
        if us[i].1 {
            out.push(us[i].0);
        }
        i = i + 1;
    }
    assert(us@.take(us@.len() as int) =~= us@);
    out
}

fn load_list(loads: &Vec<((u8, u16), LoadState)>) -> (r: Vec<(u8, u16, u32)>)
    ensures
        r@ == load_bytes(loads@),
{
    let mut out: Vec<(u8, u16, u32)> = Vec::new();
    let mut i: usize = 0;
    while i < loads.len()
        invariant
            i <= loads@.len(),
            out@ == load_bytes(loads@.take(i as int)),
        decreases loads.len() - i,
    {
        let e = loads[i];
        out.push((e.0.0, e.0.1, e.1.num_bytes));
        i = i + 1;
        assert(out@ =~= load_bytes(loads@.take(i as int)));
    }
    assert(loads@.take(loads@.len() as int) =~= loads@);
    out
}

/// Whether `a` begins with the word "Bearer".
fn has_bearer(a: &str) -> (r: bool)
    ensures
        r == (a@.len() >= 6 && a@.take(6) == "Bearer"@),
{
    let v = chars_of(a);
    proof {
        reveal_strlit("Bearer");
    }
    if v.len() < 6 {
        return false;
    }
    let r = v[0] == 'B' && v[1] == 'e' && v[2] == 'a' && v[3] == 'r' && v[4] == 'e' && v[5] == 'r';
    proof {
        if r {
            assert(a@.take(6) =~= "Bearer"@);
        } else {
            assert(a@.take(6) != "Bearer"@) by {
                if a@.take(6) == "Bearer"@ {
                    assert(a@.take(6)[0] == 'B' && a@.take(6)[1] == 'e' && a@.take(6)[2] == 'a'
                        && a@.take(6)[3] == 'r' && a@.take(6)[4] == 'e' && a@.take(6)[5] == 'r');
                }
            }
        }
    }
    r
}

/// The token of a request on its way upstream to backend `id`.
pub open spec fn request_token(id: u8) -> ForwardingToken {
    ForwardingToken {
        reserved: ForwardingDimension::Concrete(false),
        conn_id: ForwardingDimension::DontCare,
        direction: ForwardingDimension::Concrete(Direction::Upstream),
        backend: ForwardingDimension::Concrete(id),
        instance: ForwardingDimension::Min,
    }
}

/// The token of a response on its way back to downstream connection `id`.
pub open spec fn response_token(id: u32) -> ForwardingToken {
    ForwardingToken {
        reserved: ForwardingDimension::Concrete(false),
        conn_id: ForwardingDimension::Concrete(id),
        direction: ForwardingDimension::Concrete(Direction::Downstream),
        backend: ForwardingDimension::DontCare,
        instance: ForwardingDimension::DontCare,
    }
}

/// What a request with header fields `fs` and a head of `len` bytes does,
/// from downstream `origin`, when `res` is the instance a random choice
/// gives: the choice, the tables after it, the buffer after it, and the
/// backend whose instance was chosen at random, if one was.
pub open spec fn request_outcome(
    v: Tables,
    buf: Seq<u8>,
    len: usize,
    fs: Seq<(Seq<char>, Seq<char>)>,
    origin: SocketAddress,
    res: Option<SocketAddress>,
) -> (Result<Destination, PipelineError>, Tables, Seq<u8>, Option<u8>) {
    match lookup(fs, "authorization"@) {
        None => (Err(PipelineError::NoAuthorization), v, buf, None),
        Some(a) => if !(a.len() >= 6 && a.take(6) == "Bearer"@) {
            (Err(PipelineError::NoBearer), v, buf, None)
        } else if !hs256_verifies(bearer_token(a), jwt_key()) {
            (Err(PipelineError::InvalidToken), v, buf, None)
        } else {
            let v1 = Tables {
                ds: put(v.ds, origin, bumped(lookup(v.ds, origin), fs.len() as u32)),
                ..v
            };
            match lookup(fs, "backend"@) {
                None => (Err(PipelineError::NoBackend), v1, buf, None),
                Some(b) => match backend_id(b) {
                    None => (Err(PipelineError::InvalidBackend), v1, buf, None),
                    Some(id) => {
                        let v2 = Tables { fib: put(v1.fib, return_token(origin.port), origin), ..v1 };
                        if len < 2 {
                            (Err(PipelineError::Head(HeadError::Invalid)), v2, buf, None)
                        } else {
                            let buf2 = buf.take(len - 2) + vstd::utf8::encode_utf8(
                                conn_id_line(origin.port),
                            ) + buf.skip(len - 2);
                            let ft = request_token(id);
                            let t = token_for(ft, lookup(v2.min, ft));
                            match lookup(v2.fib, t) {
                                Some(a) => (
                                    Ok(Destination::Existing(a)),
                                    Tables { us: put(v2.us, a, true), ..v2 },
                                    buf2,
                                    None,
                                ),
                                None => (destination_for(ft, None, res), v2, buf2, Some(id)),
                            }
                        }
                    },
                },
            }
        },
    }
}

/// What a response with header fields `fs` does, from upstream `origin`:
/// the choice and the tables after it.
pub open spec fn response_outcome(v: Tables, fs: Seq<(Seq<char>, Seq<char>)>, origin: SocketAddress) -> (
    Result<Destination, PipelineError>,
    Tables,
) {
    match lookup(fs, "signature"@) {
        Some(sig) if sig.len() > 0 => if !is_digit(sig.last()) {
            (Err(PipelineError::InvalidSignature), v)
        } else {
            let b = digit_value(sig.last()) as u8;
            let v1 = Tables {
                loads: put(
                    v.loads,
                    (b, origin.port),
                    bumped(lookup(v.loads, (b, origin.port)), fs.len() as u32),
                ),
                us: put(v.us, origin, false),
                ..v
            };
            match lookup(fs, "conn-id"@) {
                None => (Err(PipelineError::NoConnId), v1),
                Some(c) => match u32_of(c) {
                    None => (Err(PipelineError::InvalidConnId), v1),
                    Some(id) => (
                        destination_for(response_token(id), lookup(v1.fib, response_token(id)), None),
                        v1,
                    ),
                },
            }
        },
        _ => (Err(PipelineError::NoSignature), v),
    }
}

impl Pipeline {
    /// A pipeline with empty tables.
    pub fn new(config: Config) -> (r: Pipeline)
        ensures
            r.config == config,
            r@ == (Tables {
                ds: Seq::empty(),
                us: Seq::empty(),
                loads: Seq::empty(),
                fib: Seq::empty(),
                min: Seq::empty(),
            }),
    {
        Pipeline {
            config,
            ds_state: Vec::new(),
            us_state: Vec::new(),
            us_load_state: Vec::new(),
            fib: Vec::new(),
            min_instance: Vec::new(),
        }
    }

    /// Records, for each group of the FIB, its least loaded instance among
    /// the entries whose sockets are free; a group whose sockets are all
    /// reserved keeps what was recorded for it.
    pub fn update_min_instances(&mut self)
        requires
            groups_concrete(old(self).fib@),
        ensures
            final(self).config == old(self).config,
            final(self)@ == (Tables { min: final(self)@.min, ..old(self)@ }),
            forall|g: ForwardingToken|
                #[trigger] lookup(final(self)@.min, g) == if is_group(old(self)@.fib, g)
                    && least_instance_of(old(self)@.fib, g, old(self)@.us, old(self)@.loads) is Some {
                    least_instance_of(old(self)@.fib, g, old(self)@.us, old(self)@.loads)
                } else {
                    lookup(old(self)@.min, g)
                },
    {
        let ghost v0 = self@;
        let ghost c0 = self.config;
        let groups = fib_groups(&self.fib);
        let reserved = reserved_list(&self.us_state);
        let loads = load_list(&self.us_load_state);
        let mut k: usize = 0;
        while k < groups.len()
            invariant
                k <= groups@.len(),
                self.config == c0,
                self@ == (Tables { min: self@.min, ..v0 }),
                reserved@ == reserved_of(v0.us),
                loads@ == load_bytes(v0.loads),
                groups_concrete(v0.fib),
                forall|g: ForwardingToken|
                    groups@.contains(g) <==> #[trigger] is_group(v0.fib, g),
                forall|g: ForwardingToken|
                    #[trigger] lookup(self@.min, g) == if groups@.take(k as int).contains(g)
                        && least_instance_of(v0.fib, g, v0.us, v0.loads) is Some {
                        least_instance_of(v0.fib, g, v0.us, v0.loads)
                    } else {
                        lookup(v0.min, g)
                    },
            decreases groups.len() - k,
        {
            let g = groups[k];
            assert(groups@.contains(g));
            assert(is_group(v0.fib, g));
            proof {
                let j = choose|j: int|
                    0 <= j < v0.fib.len() && v0.fib[j].0.instance
                        != ForwardingDimension::<u16>::DontCare && g == group_of(
                        #[trigger] v0.fib[j].0,
                    );
                assert forall|i: int|
                    0 <= i < self.fib@.len() && in_group(#[trigger] self.fib@[i].0, g) implies self.fib@[
                    i].0.backend is Concrete && self.fib@[i].0.instance is Concrete by {
                    assert(in_group(v0.fib[i].0, group_of(v0.fib[j].0)));
                }
            }
            let found = min_instance(&self.fib, &g, &reserved, &loads);
            let ghost before = self@.min;
            proof {
                let tk = groups@.take(k as int);
                let tk1 = groups@.take(k as int + 1);
                assert(tk1 =~= tk.push(g));
                assert forall|h: ForwardingToken| tk1.contains(h) <==> (tk.contains(h) || h == g) by {
                    if tk1.contains(h) {
                        let y = choose|y: int| 0 <= y < tk1.len() && #[trigger] tk1[y] == h;
                        if y < k {
                            assert(tk[y] == h);
                        }
                    }
                    if tk.contains(h) {
                        let y = choose|y: int| 0 <= y < tk.len() && #[trigger] tk[y] == h;
                        assert(tk1[y] == h);
                    }
                    if h == g {
                        assert(tk1[k as int] == h);
                    }
                }
            }
            match found {
                Some(inst) => {
                    proof {
                        lemma_key_index_bounds(before, g);
                    }
                    match token_index(&self.min_instance, &g) {
                        Some(p) => {
                            self.min_instance.set(p, (g, inst));
                        },
                        None => {
                            self.min_instance.push((g, inst));
                        },
                    }
                    proof {
                        assert(self@.min =~= put(before, g, inst));
                        assert forall|h: ForwardingToken|
                            #[trigger] lookup(self@.min, h) == if groups@.take(k as int + 1).contains(h)
                                && least_instance_of(v0.fib, h, v0.us, v0.loads) is Some {
                                least_instance_of(v0.fib, h, v0.us, v0.loads)
                            } else {
                                lookup(v0.min, h)
                            } by {
                            lemma_lookup_put(before, g, inst, h);
                        }
                    }
                },
                None => {},
            }
            k = k + 1;
        }
        assert(groups@.take(groups@.len() as int) =~= groups@);
    }

    /// Counts a request of `n` header fields from downstream `origin`.
    pub fn update_ds_conn(&mut self, origin: SocketAddress, n: u32)
        ensures
            final(self).config == old(self).config,
            final(self)@ == (Tables {
                ds: put(old(self)@.ds, origin, bumped(lookup(old(self)@.ds, origin), n)),
                ..old(self)@
            }),
    {
        proof {
            lemma_key_index_bounds(self.ds_state@, origin);
        }
        match addr_index(&self.ds_state, &origin) {
            Some(i) => {
                let l = self.ds_state[i].1;
                self.ds_state.set(
                    i,
                    (
                        origin,
                        LoadState {
                            num_bytes: l.num_bytes.wrapping_add(n),
                            num_reqs: l.num_reqs.wrapping_add(1),
                        },
                    ),
                );
            },
            None => {
                self.ds_state.push((origin, LoadState { num_bytes: n, num_reqs: 1 }));
            },
        }
    }

    /// Counts a response of `n` header fields from upstream `origin` of the
    /// backend whose digit ends its signature, and frees its socket.
    pub fn update_us_conn(&mut self, signature: Option<&str>, origin: SocketAddress, n: u32) -> (r:
        Result<(), PipelineError>)
        requires
            signature matches Some(s) ==> (s@.len() > 0 ==> is_digit(s@.last())),
        ensures
            final(self).config == old(self).config,
            match signature {
                Some(s) if s@.len() > 0 => {
                    let b = digit_value(s@.last()) as u8;
                    r is Ok && final(self)@ == (Tables {
                        loads: put(
                            old(self)@.loads,
                            (b, origin.port),
                            bumped(lookup(old(self)@.loads, (b, origin.port)), n),
                        ),
                        us: put(old(self)@.us, origin, false),
                        ..old(self)@
                    })
                },
                _ => r == Err::<(), PipelineError>(PipelineError::NoSignature) && final(self)@
                    == old(self)@,
            },
    {
        let b = match signature_backend(signature) {
            Ok(b) => b,
            Err(e) => return Err(e),
        };
        let key = (b, origin.port);
        proof {
            lemma_key_index_bounds(self.us_load_state@, key);
            lemma_key_index_bounds(self.us_state@, origin);
        }
        match load_index(&self.us_load_state, key) {
            Some(i) => {
                let l = self.us_load_state[i].1;
                self.us_load_state.set(
                    i,
                    (
                        key,
                        LoadState {
                            num_bytes: l.num_bytes.wrapping_add(n),
                            num_reqs: l.num_reqs.wrapping_add(1),
                        },
                    ),
                );
            },
            None => {
                self.us_load_state.push((key, LoadState { num_bytes: n, num_reqs: 1 }));
            },
        }
        match addr_index(&self.us_state, &origin) {
            Some(i) => {
                self.us_state.set(i, (origin, false));
            },
            None => {
                self.us_state.push((origin, false));
            },
        }
        Ok(())
    }

    /// Registers the socket `addr` under the token `ft`, in place of the one
    /// registered before.
    pub fn add_sock(&mut self, ft: ForwardingToken, addr: SocketAddress)
        ensures
            final(self).config == old(self).config,
            final(self)@ == (Tables { fib: put(old(self)@.fib, ft, addr), ..old(self)@ }),
    {
        proof {
            lemma_key_index_bounds(self.fib@, ft);
        }
        match token_index(&self.fib, &ft) {
            Some(i) => {
                self.fib.set(i, (ft, addr));
            },
            None => {
                self.fib.push((ft, addr));
            },
        }
    }

    /// Marks the socket a request was sent on as reserved.
    fn post_decision_update_us_conn(&mut self, dest: &Destination)
        ensures
            final(self).config == old(self).config,
            final(self)@ == match *dest {
                Destination::Existing(a) => Tables { us: put(old(self)@.us, a, true), ..old(self)@ },
                _ => old(self)@,
            },
    {
        if let Destination::Existing(a) = *dest {
            proof {
                lemma_key_index_bounds(self.us_state@, a);
            }
            match addr_index(&self.us_state, &a) {
                Some(i) => {
                    self.us_state.set(i, (a, true));
                },
                None => {
                    self.us_state.push((a, true));
                },
            }
        }
    }

    /// Chooses where a message with token `ft` goes: the socket registered
    /// under its token, or for a message not to downstream a new connection
    /// to a random instance of its backend.
    fn select_sock(&self, ft: &ForwardingToken) -> (r: Result<Destination, PipelineError>)
        requires
            ft.direction == ForwardingDimension::Concrete(Direction::Downstream)
                || ft.backend is Concrete,
        ensures
            ({
                let found = lookup(self@.fib, token_for(*ft, lookup(self@.min, *ft)));
                if found is Some || ft.direction == ForwardingDimension::Concrete(
                    Direction::Downstream,
                ) {
                    r == destination_for(*ft, found, None)
                } else {
                    exists|res: Option<SocketAddress>|
                        random_instance_ok(self.config.hosts@, ft.backend->Concrete_0, res) && r
                            == destination_for(*ft, found, res)
                }
            }),
    {
        let min = lookup_token(&self.min_instance, ft);
        let t = select_token(ft, min);
        let found = lookup_token(&self.fib, &t);
        if found.is_some() || ft.direction == ForwardingDimension::Concrete(Direction::Downstream) {
            return decide_destination(ft, found, None);
        }
        let backend = match ft.backend {
            ForwardingDimension::Concrete(b) => b,
            _ => 0,
        };
        let res = resolve_preconfigured_instance_rand(&self.config, backend);
        decide_destination(ft, found, res)
    }

    /// Handles one message from `origin`: reads its head, authenticates and
    /// counts a request, counts a response, finds where the message goes
    /// and chooses the socket. A request gets a conn-id header that names
    /// the downstream connection it came from, and the existing socket it
    /// takes is reserved.
    pub fn process(&mut self, buf: &mut Vec<u8>, origin: SocketAddress, is_downstream: bool) -> (r:
        Result<Destination, PipelineError>)
        ensures
            final(self).config == old(self).config,
            match message_head(old(buf)@, is_downstream) {
                (HeadStatus::Invalid, _) => r == Err::<Destination, PipelineError>(
                    PipelineError::Head(HeadError::Invalid),
                ) && final(self)@ == old(self)@ && final(buf)@ == old(buf)@,
                (HeadStatus::Partial, _) => r == Err::<Destination, PipelineError>(
                    PipelineError::Head(HeadError::Partial),
                ) && final(self)@ == old(self)@ && final(buf)@ == old(buf)@,
                (HeadStatus::Complete(len), hs) => if !values_text(hs) {
                    r == Err::<Destination, PipelineError>(PipelineError::Head(HeadError::NotText))
                        && final(self)@ == old(self)@ && final(buf)@ == old(buf)@
                } else if is_downstream {
                    exists|res: Option<SocketAddress>|
                        {
                            let o = #[trigger] request_outcome(
                                old(self)@,
                                old(buf)@,
                                len,
                                fields_of(hs),
                                origin,
                                res,
                            );
                            &&& o.3 matches Some(id) ==> random_instance_ok(
                                old(self).config.hosts@,
                                id,
                                res,
                            )
                            &&& r == o.0
                            &&& final(self)@ == o.1
                            &&& final(buf)@ == o.2
                        }
                } else {
                    let o = response_outcome(old(self)@, fields_of(hs), origin);
                    &&& r == o.0
                    &&& final(self)@ == o.1
                    &&& final(buf)@ == old(buf)@
                },
            },
    {
        let ghost v0 = self@;
        let ghost b0 = buf@;
        let (fields, len) = match message_fields(buf.as_slice(), is_downstream) {
            Ok(x) => x,
            Err(e) => return Err(PipelineError::Head(e)),
        };
        let ghost fs = pairs_of(fields@);
        let n = fields.len() as u32;
        if is_downstream {
            let a = match field_value(&fields, "authorization") {
                Some(a) => a,
                None => {
                    assert(request_outcome(v0, b0, len, fs, origin, None).1 == v0);
                    return Err(PipelineError::NoAuthorization);
                },
            };
            if !has_bearer(a) {
                assert(request_outcome(v0, b0, len, fs, origin, None).1 == v0);
                return Err(PipelineError::NoBearer);
            }
            if let Err(e) = authenticate(Some(a)) {
                assert(request_outcome(v0, b0, len, fs, origin, None).1 == v0);
                return Err(e);
            }
            self.update_ds_conn(origin, n);
            let mut ft = ForwardingToken::dont_care();
            let back = match forward_ds_conn(&mut ft, field_value(&fields, "backend"), origin.port) {
                Ok(t) => t,
                Err(e) => {
                    assert(request_outcome(v0, b0, len, fs, origin, None).1 == self@);
                    return Err(e);
                },
            };
            self.add_sock(back, origin);
            if len < 2 {
                assert(request_outcome(v0, b0, len, fs, origin, None).1 == self@);
                return Err(PipelineError::Head(HeadError::Invalid));
            }
            insert_conn_id(buf, len, origin.port);
            let dest = self.select_sock(&ft);
            if let Ok(d) = dest {
                self.post_decision_update_us_conn(&d);
            }
            proof {
                let o = request_outcome(v0, b0, len, fs, origin, None);
                if o.3 is None {
                    assert(request_outcome(v0, b0, len, fs, origin, None).1 == self@);
                } else {
                    let res = choose|res: Option<SocketAddress>|
                        random_instance_ok(self.config.hosts@, ft.backend->Concrete_0, res)
                            && dest == destination_for(
                            ft,
                            lookup(self@.fib, token_for(ft, lookup(self@.min, ft))),
                            res,
                        );
                    assert(request_outcome(v0, b0, len, fs, origin, res).1 == self@);
                }
            }
            dest
        } else {
            let sig = field_value(&fields, "signature");
            if let Some(s) = sig {
                let v = chars_of(s);
                if v.len() > 0 {
                    let c = v[v.len() - 1];
                    if !('0' <= c && c <= '9') {
                        return Err(PipelineError::InvalidSignature);
                    }
                }
            }
            if let Err(e) = self.update_us_conn(sig, origin, n) {
                return Err(e);
            }
            let mut ft = ForwardingToken::dont_care();
            if let Err(e) = forward_us_conn(&mut ft, field_value(&fields, "conn-id")) {
                return Err(e);
            }
            self.select_sock(&ft)
        }
    }
}

/// The instance recorded as least loaded for a group is that of an entry
/// of the group whose socket is free, and no free entry of the group has
/// less load.
pub proof fn law_least_instance_free_and_least(
    fib: Seq<(ForwardingToken, SocketAddress)>,
    g: ForwardingToken,
    us: Seq<(SocketAddress, bool)>,
    loads: Seq<((u8, u16), LoadState)>,
)
    requires
        forall|x: int| 0 <= x < fib.len() && in_group(#[trigger] fib[x].0, g) ==> fib[x].0.instance is Concrete,
    ensures
        least_instance_of(fib, g, us, loads) matches Some(i) ==> exists|k: int|
            0 <= k < fib.len() && in_group(#[trigger] fib[k].0, g) && fib[k].0.instance
                == ForwardingDimension::Concrete(i) && !reserved_of(us).contains(fib[k].1)
                && forall|j: int|
                0 <= j < fib.len() && candidate(#[trigger] fib[j], g, reserved_of(us)) ==> entry_load(
                    fib[k],
                    load_bytes(loads),
                ) <= entry_load(fib[j], load_bytes(loads)),
        least_instance_of(fib, g, us, loads) is None ==> forall|j: int|
            0 <= j < fib.len() ==> !candidate(#[trigger] fib[j], g, reserved_of(us)),
{
    let rs = reserved_of(us);
    let ls = load_bytes(loads);
    lemma_least_loaded_bounds(fib, g, rs, ls, fib.len());
    let k = least_loaded(fib, g, rs, ls, fib.len());
    assert forall|j: int| 0 <= j < fib.len() && candidate(#[trigger] fib[j], g, rs) implies k >= 0
        && entry_load(fib[k], ls) <= entry_load(fib[j], ls) by {
        lemma_least_loaded_min(fib, g, rs, ls, fib.len(), j);
    }
    if k >= 0 {
        assert(in_group(fib[k].0, g));
        assert(fib[k].0.instance == ForwardingDimension::Concrete(fib[k].0.instance->Concrete_0));
    }
}

} // verus!
