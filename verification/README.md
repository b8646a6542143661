# beeline

Verified building blocks of Beeline, an eBPF fast path for L7 proxying:
the configuration formats and their translation, the compiler that turns a
configuration into data-plane code, the HTTP/1.1 and HTTP/2 pattern DFAs
that are loaded into the data plane, and the forwarding decisions of the
user-space proxies that serve as baselines.

Every function under `src/` carries a `requires`/`ensures` contract, and
Verus proves all of them but those of the small trusted wrappers around
calls into outside crates (httparse, hmac/jwt, rand, httlib-huffman,
serde_yaml) and into std functions that Verus has no specification of
(`String::from_utf8`, `String::from_utf8_lossy`, `u32::from_ne_bytes`,
`String::push`, `str::to_lowercase`); each wrapper's contract is
documented where it is declared.

Layout:

- `src/config`, `src/compiler`, `src/policy.rs`: configurations, their
  translation, the generated filters and benchmark policies.
- `src/h1`, `src/h2`, `src/parser`, `src/transition.rs`, `src/matcher.rs`,
  `src/dataplane.rs`: pattern DFAs and the tables the data plane is
  programmed with.
- `src/forwarding.rs`, `src/baseline.rs`, `src/naive.rs`, `src/table.rs`,
  `src/http_head.rs`,
  `src/downstream.rs`, `src/upstream.rs`, `src/lb.rs`, `src/lb_router.rs`,
  `src/services.rs`: decisions of the proxies, load balancers and test
  services.
- `src/net.rs`, `src/ipv6.rs`, `src/text.rs`, `src/ids.rs`: addresses and
  their text forms, string helpers, state ids.
- `src/laws.rs`: properties that span several functions.
- `tests/`: tests on concrete values.
- `app/`: the command-line front end, which does the file and network I/O
  and the YAML (de)serialisation around the library: `pol-gen`, `compile`,
  the naive user-space proxy (`naive-proxy`, on tokio) and the io_uring load
  balancer (`lb-proxy`). The eBPF proxies load programs that are built from
  the generated C sources outside this crate, so they have no front end here.
