//! The compiler from a Beeline configuration to the filters of the
//! data-plane program: the per-connection context, the RBAC policies, the
//! routes with their JWT, mutation and load-balancing filters, and the
//! dispatch of requests to routes.

pub mod fmt;

use crate::config::beeline::{
    resolved, Config, Filter as CFilter, JwtFilter, LoadBalancer, MutateFilter, Policy, Route as CRoute,
};
use crate::net::{octets_in, octets_u32, ByteOrder, IpAddress, SocketAddress};
use crate::text::{
    blen, occurs_at, occurs_at_exec, push_str, replace_all, replace_str, slice_chars, str_eq,
    string_of, to_lowercase, unicode_lower, chars_of, join, join_strings, views, utf8_len,
    dec_chars, push_dec, lemma_blen_bounds,
};
use vstd::prelude::*;

verus! {

broadcast use vstd::string::group_string_axioms;

/// A piece of the data-plane program: its declarations and its code.
pub struct Filter {
    pub defs: String,
    pub code: String,
}

impl View for Filter {
    type V = (Seq<char>, Seq<char>);

    open spec fn view(&self) -> (Seq<char>, Seq<char>) {
        (self.defs@, self.code@)
    }
}

/// The separator between the declarations and the code of a filter text.
pub open spec fn filter_sep() -> Seq<char> {
    "// ---"@
}

/// The index of the first occurrence of `pat` in `s`, or `s.len()`.
pub open spec fn find_seq(s: Seq<char>, pat: Seq<char>) -> nat
    decreases s.len(),
{
    if s.len() == 0 || occurs_at(s, pat, 0) {
        0
    } else {
        1 + find_seq(s.drop_first(), pat)
    }
}

proof fn lemma_find_seq(s: Seq<char>, pat: Seq<char>, i: int)
    requires
        0 <= i <= s.len(),
        forall|j: int| 0 <= j < i ==> !occurs_at(s, pat, j),
        i == s.len() || occurs_at(s, pat, i),
    ensures
        find_seq(s, pat) == i,
    decreases s.len(),
{
    if i > 0 {
        let t = s.drop_first();
        assert forall|j: int| 0 <= j < i - 1 implies !occurs_at(t, pat, j) by {
            assert(!occurs_at(s, pat, j + 1));
            if occurs_at(t, pat, j) {
                assert(s.subrange(j + 1, j + 1 + pat.len()) =~= t.subrange(j, j + pat.len()));
            }
        }
        if i < s.len() {
            assert(s.subrange(i, i + pat.len()) =~= t.subrange(i - 1, i - 1 + pat.len()));
        }
        lemma_find_seq(t, pat, i - 1);
    }
}

pub(crate) proof fn lemma_find_seq_occurs(s: Seq<char>, pat: Seq<char>)
    requires
        find_seq(s, pat) < s.len(),
    ensures
        occurs_at(s, pat, find_seq(s, pat) as int),
    decreases s.len(),
{
    if !occurs_at(s, pat, 0) {
        let t = s.drop_first();
        lemma_find_seq_occurs(t, pat);
        let k = find_seq(t, pat) as int;
        assert(s.subrange(k + 1, k + 1 + pat.len()) =~= t.subrange(k, k + pat.len()));
    }
}

/// The index of the first occurrence of `pat` in `v` at or after `from`, or `v.len()`.
fn find_seq_from(v: &Vec<char>, pat: &Vec<char>, from: usize) -> (r: usize)
    requires
        from <= v@.len(),
    ensures
        r == from + find_seq(v@.skip(from as int), pat@),
        from <= r <= v@.len(),
{
    let mut i = from;
    while i < v.len() && !occurs_at_exec(v, pat, i)
        invariant
            from <= i <= v@.len(),
            forall|j: int| from <= j < i ==> !occurs_at(v@, pat@, j),
        decreases v.len() - i,
    {
        i = i + 1;
    }
    proof {
        let t = v@.skip(from as int);
        assert forall|j: int| 0 <= j < i - from implies !occurs_at(t, pat@, j) by {
            assert(!occurs_at(v@, pat@, j + from));
            if occurs_at(t, pat@, j) {
                assert(t.subrange(j, j + pat@.len()) =~= v@.subrange(j + from, j + from
                    + pat@.len()));
            }
        }
        if i < v@.len() {
            assert(t.subrange(i - from, i - from + pat@.len()) =~= v@.subrange(
                i as int,
                i + pat@.len(),
            ));
        }
        lemma_find_seq(t, pat@, i - from);
    }
    i
}

/// The index of the first occurrence of `pat` in `v`, or `v.len()`.
pub(crate) fn find_seq_from_pub(v: &Vec<char>, pat: &Vec<char>) -> (r: usize)
    ensures
        r == find_seq(v@, pat@),
        r <= v@.len(),
{
    let r = find_seq_from(v, pat, 0);
    assert(v@.skip(0) =~= v@);
    r
}

/// The filter that a filter text holds: the declarations before the first
/// separator, the code between it and the next separator (or the end).
pub open spec fn filter_of(text: Seq<char>) -> (Seq<char>, Seq<char>) {
    let k = find_seq(text, filter_sep()) as int;
    let rest = text.skip(k + filter_sep().len());
    (text.take(k), rest.take(find_seq(rest, filter_sep()) as int))
}

/// `{key}`, the placeholder for `key` in a filter text.
pub open spec fn brace(key: Seq<char>) -> Seq<char> {
    seq!['{'] + key + seq!['}']
}

fn brace_exec(key: &str) -> (r: String)
    ensures
        r@ == brace(key@),
{
    let mut out = String::new();
    push_str(&mut out, "{");
    push_str(&mut out, key);
    push_str(&mut out, "}");
    proof {
        reveal_strlit("{");
        reveal_strlit("}");
    }
    assert(out@ =~= brace(key@));
    out
}

impl Filter {
    /// A filter with no declarations and no code.
    pub fn empty() -> (r: Filter)
        ensures
            r@ == (Seq::<char>::empty(), Seq::<char>::empty()),
    {
        Filter { defs: String::new(), code: String::new() }
    }

    /// Splits a filter text at its separators.
    pub fn from_text(text: &str) -> (r: Filter)
        requires
            find_seq(text@, filter_sep()) < text@.len(),
        ensures
            r@ == filter_of(text@),
    {
        let v = chars_of(text);
        let sep = chars_of("// ---");
        let k = find_seq_from(&v, &sep, 0);
        assert(v@.skip(0) =~= v@);
        proof {
            lemma_find_seq_occurs(v@, sep@);
            assert(k + sep@.len() <= v@.len());
        }
        let n = v.len();
        let start = k + sep.len();
        let end = find_seq_from(&v, &sep, start);
        let defs = string_of(&slice_chars(&v, 0, k));
        let code = string_of(&slice_chars(&v, start, end));
        proof {
            let rest = v@.skip(start as int);
            assert(defs@ =~= v@.take(k as int));
            assert(code@ =~= rest.take(find_seq(rest, filter_sep()) as int));
        }
        Filter { defs, code }
    }

    /// A copy of the filter.
    pub fn copy(&self) -> (r: Filter)
        ensures
            r@ == self@,
    {
        Filter { defs: self.defs.clone(), code: self.code.clone() }
    }

    /// Replaces `{key}` with `value` in the declarations.
    pub fn replace_defs(&mut self, key: &str, value: &str)
        ensures
            final(self)@ == (replace_all(old(self)@.0, brace(key@), value@), old(self)@.1),
    {
        let pat = brace_exec(key);
        self.defs = replace_str(self.defs.as_str(), pat.as_str(), value);
    }

    /// Replaces `{key}` with `value` in the code.
    pub fn replace_code(&mut self, key: &str, value: &str)
        ensures
            final(self)@ == (old(self)@.0, replace_all(old(self)@.1, brace(key@), value@)),
    {
        let pat = brace_exec(key);
        self.code = replace_str(self.code.as_str(), pat.as_str(), value);
    }
}

/// A route of the program: the condition that dispatches to it, and its filters.
pub struct Route {
    pub cond: String,
    pub filters: Vec<Filter>,
}

/// A variable of the per-connection context.
pub enum Variable {
    /// A buffer: its name, its C type, and for a `char` buffer its size.
    Buffer(String, String, Option<usize>),
    /// A captured range: its name.
    Range(String),
}

/// What a variable is, by value.
pub enum VarView {
    Buffer(Seq<char>, Seq<char>, Option<usize>),
    Range(Seq<char>),
}

impl View for Variable {
    type V = VarView;

    open spec fn view(&self) -> VarView {
        match self {
            Variable::Buffer(n, t, s) => VarView::Buffer(n@, t@, *s),
            Variable::Range(n) => VarView::Range(n@),
        }
    }
}

/// The name of a variable.
pub open spec fn var_name(v: VarView) -> Seq<char> {
    match v {
        VarView::Buffer(n, _, _) => n,
        VarView::Range(n) => n,
    }
}

impl Variable {
    pub fn buffer(name: &str, ty: &str, size: Option<usize>) -> (r: Self)
        ensures
            r@ == VarView::Buffer(name@, ty@, size),
    {
        Variable::Buffer(name.to_string(), ty.to_string(), size)
    }

    pub fn range(name: &str) -> (r: Self)
        ensures
            r@ == VarView::Range(name@),
    {
        Variable::Range(name.to_string())
    }

    pub fn name(&self) -> (r: &str)
        ensures
            r@ == var_name(self@),
    {
        match self {
            Variable::Buffer(name, _, _) => name.as_str(),
            Variable::Range(name) => name.as_str(),
        }
    }

    pub fn is_buffer(&self) -> (r: bool)
        ensures
            r == (self@ is Buffer),
    {
        match self {
            Variable::Buffer(_, _, _) => true,
            Variable::Range(_) => false,
        }
    }

    /// A copy of the variable.
    pub fn copy(&self) -> (r: Self)
        ensures
            r@ == self@,
    {
        match self {
            Variable::Buffer(n, t, s) => Variable::Buffer(n.clone(), t.clone(), *s),
            Variable::Range(n) => Variable::Range(n.clone()),
        }
    }
}

/// The C identifier for a header or variable name: '-' becomes '_', then
/// the name is lower-cased.
pub open spec fn sanitized(var: Seq<char>) -> Seq<char> {
    unicode_lower(replace_all(var, "-"@, "_"@))
}

pub fn sanitize_var_name(var: &str) -> (r: String)
    ensures
        r@ == sanitized(var@),
{
    proof {
        reveal_strlit("-");
    }
    let replaced = replace_str(var, "-", "_");
    to_lowercase(replaced.as_str())
}

/// Whether the variable `u`, already in the context, makes `v` redundant:
/// it has the same name and is a buffer, or is of the same kind.
pub open spec fn shadows(u: VarView, v: VarView) -> bool {
    var_name(u) == var_name(v) && (u is Buffer || (u is Buffer) == (v is Buffer))
}

/// `vars` with `v` added unless a variable there makes it redundant.
pub open spec fn insert_var(vars: Seq<VarView>, v: VarView) -> Seq<VarView> {
    if exists|i: int| 0 <= i < vars.len() && shadows(vars[i], v) {
        vars
    } else {
        vars.push(v)
    }
}

/// `vars` with each of `vs` added in turn.
pub open spec fn insert_vars(vars: Seq<VarView>, vs: Seq<VarView>) -> Seq<VarView>
    decreases vs.len(),
{
    if vs.len() == 0 {
        vars
    } else {
        insert_var(insert_vars(vars, vs.drop_last()), vs.last())
    }
}

/// The variables a route asks for: a `char` buffer for each header it
/// matches, sized by the value, then a range for each header a mutation
/// removes.
pub open spec fn route_vars(r: CRoute) -> Seq<VarView> {
    header_vars(r) + r.filters@.map_values(|f: CFilter| filter_vars(f)).flatten()
}

/// The `char` buffers for the headers a route matches.
pub open spec fn header_vars(r: CRoute) -> Seq<VarView> {
    match r.pattern.headers {
        Some(hs) => hs@.map_values(
            |h: (String, String)| VarView::Buffer(h.0@, "char"@, Some(blen(h.1@) as usize)),
        ),
        None => Seq::empty(),
    }
}

/// The variables a filter asks for.
pub open spec fn filter_vars(f: CFilter) -> Seq<VarView> {
    match f {
        CFilter::Jwt(_) => Seq::empty(),
        CFilter::Mutate(m) => match m.remove {
            Some(ks) => ks@.map_values(|k: String| VarView::Range(k@)),
            None => Seq::empty(),
        },
    }
}

/// The size of the path buffer: 16, or more to hold the longest route path
/// followed by " HTTP/1.1\r\n".
pub open spec fn max_path_len(routes: Seq<CRoute>) -> nat
    decreases routes.len(),
{
    if routes.len() == 0 {
        16
    } else {
        let m = max_path_len(routes.drop_last());
        match routes.last().pattern.path {
            Some(p) => if blen(p@) + 12 > m {
                blen(p@) + 12
            } else {
                m
            },
            None => m,
        }
    }
}

/// Whether some route has a JWT filter.
pub open spec fn has_jwt(routes: Seq<CRoute>) -> bool {
    exists|i: int, j: int|
        0 <= i < routes.len() && 0 <= j < routes[i].filters@.len() && routes[i].filters@[j] is Jwt
}

/// The variables every context holds, and those for JWT checks.
pub open spec fn fixed_vars(path_len: nat, auth: bool) -> Seq<VarView> {
    seq![
        VarView::Buffer("method"@, "char"@, Some(7usize)),
        VarView::Buffer("path"@, "char"@, Some(path_len as usize)),
        VarView::Buffer("status_code"@, "u32"@, None),
        VarView::Buffer("content-length"@, "u32"@, None),
    ] + if auth {
        seq![
            VarView::Buffer("jwt_claims"@, "char"@, Some(4095usize)),
            VarView::Buffer("jwt_sig"@, "char"@, Some(63usize)),
        ]
    } else {
        Seq::empty()
    }
}

/// The variables of the context for a configuration, in order.
pub open spec fn ctx_vars(config: Config) -> Seq<VarView> {
    let routes = config.routes@;
    insert_vars(
        Seq::empty(),
        routes.map_values(|r: CRoute| route_vars(r)).flatten() + fixed_vars(
            max_path_len(routes),
            has_jwt(routes),
        ),
    )
}

/// Whether every route path is short enough for its buffer size to be a `usize`.
pub open spec fn paths_fit(config: Config) -> bool {
    forall|i: int|
        0 <= i < config.routes@.len() ==> ((#[trigger] config.routes@[i]).pattern.path matches Some(
            p,
        ) ==> blen(p@) + 12 <= usize::MAX)
}

/// The views of the variables in `v`.
pub open spec fn var_views(v: Seq<Variable>) -> Seq<VarView> {
    v.map_values(|x: Variable| x@)
}

/// Adds `var` to `ctx` unless a variable there makes it redundant.
fn insert_ctx_var(ctx: &mut Vec<Variable>, var: Variable)
    ensures
        var_views(final(ctx)@) == insert_var(var_views(old(ctx)@), var@),
{
    let mut i: usize = 0;
    while i < ctx.len()
        invariant
            i <= ctx@.len(),
            forall|j: int| 0 <= j < i ==> !shadows(#[trigger] var_views(ctx@)[j], var@),
        decreases ctx.len() - i,
    {
        let u = &ctx[i];
        if str_eq(u.name(), var.name()) && (u.is_buffer() || u.is_buffer() == var.is_buffer()) {
            assert(shadows(var_views(ctx@)[i as int], var@));
            return;
        }
        i = i + 1;
    }
    let ghost before = ctx@;
    ctx.push(var);
    assert(var_views(ctx@) =~= var_views(before).push(var@));
}

/// The templates of the filters, as read from the filter sources.
pub struct Templates {
    pub ctx: Filter,
    pub jwt: Filter,
    pub mutate: Filter,
    pub lb: Filter,
    pub route: Filter,
    pub rbac: Filter,
    pub matching: Filter,
}

/// Compiles a configuration into the filters of the data-plane program.
pub struct Compiler {
    pub config: Config,
    pub templates: Templates,
    /// The byte order of the machine the program runs on.
    pub byte_order: ByteOrder,
}

/// The views of the variables a filter asks for, built in `cands`.
fn push_filter_vars(cands: &mut Vec<Variable>, f: &CFilter)
    ensures
        var_views(final(cands)@) == var_views(old(cands)@) + filter_vars(*f),
{
    let ghost before = var_views(cands@);
    match f {
        CFilter::Jwt(_) => {
            assert(var_views(cands@) =~= before + filter_vars(*f));
        },
        CFilter::Mutate(m) => {
            match &m.remove {
                Some(keys) => {
                    let mut k: usize = 0;
                    while k < keys.len()
                        invariant
                            k <= keys@.len(),
                            m.remove == Some(*keys),
                            *f == CFilter::Mutate(*m),
                            var_views(cands@) == before + keys@.take(k as int).map_values(
                                |x: String| VarView::Range(x@),
                            ),
                        decreases keys.len() - k,
                    {
                        let v = Variable::range(keys[k].as_str());
                        let ghost prev = cands@;
                        cands.push(v);
                        proof {
                            assert(var_views(cands@) =~= var_views(prev).push(v@));
                            assert(keys@.take(k as int + 1).map_values(|x: String| VarView::Range(x@))
                                =~= keys@.take(k as int).map_values(|x: String| VarView::Range(x@)).push(
                                VarView::Range(keys@[k as int]@),
                            ));
                        }
                        k = k + 1;
                    }
                    assert(keys@.take(keys@.len() as int) =~= keys@);
                },
                None => {
                    assert(var_views(cands@) =~= before + filter_vars(*f));
                },
            }
        },
    }
}

/// Adds the variables a route asks for to `cands`; returns whether the route
/// has a JWT filter.
fn push_route_vars(cands: &mut Vec<Variable>, route: &CRoute) -> (auth: bool)
    ensures
        var_views(final(cands)@) == var_views(old(cands)@) + route_vars(*route),
        auth == exists|j: int| 0 <= j < route.filters@.len() && route.filters@[j] is Jwt,
{
    let ghost before = var_views(cands@);
    let ghost hdrs = header_vars(*route);
    match &route.pattern.headers {
        Some(hs) => {
            let mut j: usize = 0;
            while j < hs.len()
                invariant
                    j <= hs@.len(),
                    route.pattern.headers == Some(*hs),
                    var_views(cands@) == before + hs@.take(j as int).map_values(
                        |h: (String, String)|
                            VarView::Buffer(h.0@, "char"@, Some(blen(h.1@) as usize)),
                    ),
                decreases hs.len() - j,
            {
                let len = hs[j].1.as_str().len();
                let v = Variable::buffer(hs[j].0.as_str(), "char", Some(len));
                let ghost prev = cands@;
                cands.push(v);
                proof {
                    assert(var_views(cands@) =~= var_views(prev).push(v@));
                    assert(hs@.take(j as int + 1).map_values(
                        |h: (String, String)|
                            VarView::Buffer(h.0@, "char"@, Some(blen(h.1@) as usize)),
                    ) =~= hs@.take(j as int).map_values(
                        |h: (String, String)|
                            VarView::Buffer(h.0@, "char"@, Some(blen(h.1@) as usize)),
                    ).push(VarView::Buffer(hs@[j as int].0@, "char"@, Some(blen(hs@[j as int].1@) as usize))));
                }
                j = j + 1;
            }
            assert(hs@.take(hs@.len() as int) =~= hs@);
        },
        None => {},
    }
    assert(var_views(cands@) == before + hdrs);
    let mut auth = false;
    let mut f: usize = 0;
    let fs = &route.filters;
    while f < fs.len()
        invariant
            f <= fs@.len(),
            *fs == route.filters,
            var_views(cands@) == before + hdrs + fs@.take(f as int).map_values(
                |x: CFilter| filter_vars(x),
            ).flatten(),
            auth == exists|j: int| 0 <= j < f && fs@[j] is Jwt,
        decreases fs.len() - f,
    {
        let ghost prev = var_views(cands@);
        push_filter_vars(cands, &fs[f]);
        if fs[f].is_jwt() {
            auth = true;
        }
        proof {
            let g = |x: CFilter| filter_vars(x);
            assert(fs@.take(f as int + 1).map_values(g) =~= fs@.take(f as int).map_values(g).push(
                filter_vars(fs@[f as int]),
            ));
            fs@.take(f as int).map_values(g).lemma_flatten_push(filter_vars(fs@[f as int]));
            assert(var_views(cands@) =~= before + hdrs + fs@.take(f as int + 1).map_values(
                g,
            ).flatten());
        }
        f = f + 1;
    }
    assert(fs@.take(fs@.len() as int) =~= fs@);
    assert(var_views(cands@) =~= var_views(old(cands)@) + route_vars(*route));
    auth
}

/// Adds each of `vars`, in order, to `ctx` unless it is redundant there.
fn insert_ctx_vars(ctx: &mut Vec<Variable>, vars: Vec<Variable>)
    ensures
        var_views(final(ctx)@) == insert_vars(var_views(old(ctx)@), var_views(vars@)),
{
    let ghost start = var_views(ctx@);
    let mut i: usize = 0;
    while i < vars.len()
        invariant
            i <= vars@.len(),
            var_views(ctx@) == insert_vars(start, var_views(vars@.take(i as int))),
        decreases vars.len() - i,
    {
        let v = vars[i].copy();
        insert_ctx_var(ctx, v);
        proof {
            let t = var_views(vars@.take(i as int + 1));
            assert(t.drop_last() =~= var_views(vars@.take(i as int)));
            assert(t.last() == vars@[i as int]@);
        }
        i = i + 1;
    }
    assert(vars@.take(vars@.len() as int) =~= vars@);
}

impl Compiler {
    pub fn new(config: Config, templates: Templates, byte_order: ByteOrder) -> (r: Self)
        ensures
            r.config == config,
            r.templates == templates,
            r.byte_order == byte_order,
    {
        Compiler { config, templates, byte_order }
    }

    /// The variables of the per-connection context: those the routes ask
    /// for, then the fixed ones, each added unless redundant.
    pub fn get_ctx_vars(&self) -> (r: Vec<Variable>)
        requires
            paths_fit(self.config),
        ensures
            var_views(r@) == ctx_vars(self.config),
    {
        config_ctx_vars(&self.config)
    }
}

/// The variables of the per-connection context for `config`: those the
/// routes ask for, then the fixed ones, each added unless redundant.
pub fn config_ctx_vars(config: &Config) -> (r: Vec<Variable>)
    requires
        paths_fit(*config),
    ensures
        var_views(r@) == ctx_vars(*config),
{
    let routes = &config.routes;
    let mut cands: Vec<Variable> = Vec::new();
    let mut max_path: usize = 16;
    let mut auth = false;
    let mut i: usize = 0;
    while i < routes.len()
        invariant
            i <= routes@.len(),
            *routes == config.routes,
            paths_fit(*config),
            var_views(cands@) == routes@.take(i as int).map_values(|r: CRoute| route_vars(r)).flatten(),
            max_path == max_path_len(routes@.take(i as int)),
            auth == has_jwt(routes@.take(i as int)),
        decreases routes.len() - i,
    {
        let route = &routes[i];
        if let Some(path) = &route.pattern.path {
            assert(blen(path@) + 12 <= usize::MAX);
            let l = path.as_str().len() + 12;
            if l > max_path {
                max_path = l;
            }
        }
        let ghost prev = var_views(cands@);
        let route_auth = push_route_vars(&mut cands, route);
        auth = auth || route_auth;
        proof {
            let t = routes@.take(i as int + 1);
            assert(t.drop_last() =~= routes@.take(i as int));
            assert(t.map_values(|r: CRoute| route_vars(r)) =~= routes@.take(i as int).map_values(|r: CRoute| route_vars(r)).push(
                route_vars(routes@[i as int]),
            ));
            routes@.take(i as int).map_values(|r: CRoute| route_vars(r)).lemma_flatten_push(
                route_vars(routes@[i as int]),
            );
            if auth {
                if route_auth {
                    let j = choose|j: int|
                        0 <= j < route.filters@.len() && route.filters@[j] is Jwt;
                    assert(t[i as int] == routes@[i as int]);
                    assert(has_jwt(t));
                } else {
                    let (a, b) = choose|a: int, b: int|
                        0 <= a < i && 0 <= b < routes@.take(i as int)[a].filters@.len()
                            && routes@.take(i as int)[a].filters@[b] is Jwt;
                    assert(t[a] == routes@.take(i as int)[a]);
                    assert(has_jwt(t));
                }
            } else {
                assert forall|a: int, b: int|
                    0 <= a < t.len() && 0 <= b < t[a].filters@.len() implies !(
                    t[a].filters@[b] is Jwt) by {
                    if a < i {
                        assert(t[a] == routes@.take(i as int)[a]);
                    }
                }
            }
        }
        i = i + 1;
    }
    assert(routes@.take(routes@.len() as int) =~= routes@);
    let ghost routed = var_views(cands@);
    cands.push(Variable::buffer("method", "char", Some(7)));
    cands.push(Variable::buffer("path", "char", Some(max_path)));
    cands.push(Variable::buffer("status_code", "u32", None));
    cands.push(Variable::buffer("content-length", "u32", None));
    if auth {
        cands.push(Variable::buffer("jwt_claims", "char", Some(4095)));
        cands.push(Variable::buffer("jwt_sig", "char", Some(63)));
    }
    assert(var_views(cands@) =~= routed + fixed_vars(max_path as nat, auth));
    let mut ctx: Vec<Variable> = Vec::new();
    insert_ctx_vars(&mut ctx, cands);
    assert(var_views(Seq::<Variable>::empty()) =~= Seq::<VarView>::empty());
    ctx
}

/// The mask for a buffer of `len` bytes: the first `2^k - 1` (`k` at least
/// one) that is at least `len`, searched from `2 * m`.
pub open spec fn mask_from(m: nat, len: nat) -> nat
    decreases len - m,
{
    if m == 0 {
        0
    } else if 2 * m >= len + 1 {
        (2 * m - 1) as nat
    } else {
        mask_from(2 * m, len)
    }
}

/// The declaration of a context variable.
pub open spec fn var_def(v: VarView) -> Seq<char> {
    match v {
        VarView::Buffer(n, ty, size) => if ty == "char"@ {
            fmt::ctx_def_char(sanitized(n), size->0 as nat)
        } else {
            fmt::ctx_def_other(sanitized(n), ty)
        },
        VarView::Range(n) => fmt::ctx_def_range(sanitized(n)),
    }
}

/// The initialisation of the `i`-th context variable.
pub open spec fn var_init(i: nat, v: VarView) -> Seq<char> {
    match v {
        VarView::Buffer(n, ty, len) => {
            let name = sanitized(n);
            let code = if ty == "char"@ {
                fmt::ctx_init_char(i, name, mask_from(1, len->0 as nat))
            } else {
                fmt::ctx_init_u32(i, name)
            };
            if name == "status_code"@ {
                fmt::ctx_init_stats(code)
            } else {
                code
            }
        },
        VarView::Range(n) => fmt::ctx_init_range(sanitized(n), i),
    }
}

/// Whether the context variables can be declared and initialised: every
/// buffer is of type `char` with a size, or of type `u32`.
pub open spec fn vars_supported(vars: Seq<VarView>) -> bool {
    forall|i: int| 0 <= i < vars.len() ==> var_supported(#[trigger] vars[i])
}

/// Whether a context variable can be declared and initialised.
pub open spec fn var_supported(v: VarView) -> bool {
    match v {
        VarView::Buffer(_, ty, size) => (ty == "char"@ && size is Some) || ty == "u32"@,
        VarView::Range(_) => true,
    }
}

/// The context filter for the variables: the template with their
/// declarations and their initialisations, one per line.
pub open spec fn ctx_filter(tmpl: (Seq<char>, Seq<char>), vars: Seq<VarView>) -> (
    Seq<char>,
    Seq<char>,
) {
    (
        replace_all(tmpl.0, brace("vars"@), join(vars.map_values(|v: VarView| var_def(v)), "\n"@)),
        replace_all(
            tmpl.1,
            brace("init"@),
            join(Seq::new(vars.len(), |i: int| var_init(i as nat, vars[i])), "\n"@),
        ),
    )
}

fn mask_for(len: usize) -> (r: u128)
    ensures
        r == mask_from(1, len as nat),
{
    let mut mask: u128 = 1;
    while 2 * mask < len as u128 + 1
        invariant
            1 <= mask <= len + 1,
            mask_from(mask as nat, len as nat) == mask_from(1, len as nat),
        decreases len - mask,
    {
        mask = mask * 2;
    }
    2 * mask - 1
}

fn push_var_def(out: &mut String, v: &Variable)
    requires
        var_supported(v@),
    ensures
        final(out)@ == old(out)@ + var_def(v@),
{
    proof {
        reveal_strlit("char");
        reveal_strlit("u32");
        assert("char"@ != "u32"@) by {
            assert("char"@.len() == 4);
        }
    }
    match v {
        Variable::Buffer(n, ty, size) => {
            let name = sanitize_var_name(n.as_str());
            if str_eq(ty.as_str(), "char") {
                let size = match size {
                    Some(s) => *s,
                    None => 0,
                };
                fmt::push_ctx_def_char(out, name.as_str(), size as u128);
            } else {
                fmt::push_ctx_def_other(out, name.as_str(), ty.as_str());
            }
        },
        Variable::Range(n) => {
            let name = sanitize_var_name(n.as_str());
            fmt::push_ctx_def_range(out, name.as_str());
        },
    }
}

fn push_var_init(out: &mut String, i: usize, v: &Variable)
    requires
        var_supported(v@),
    ensures
        final(out)@ == old(out)@ + var_init(i as nat, v@),
{
    proof {
        reveal_strlit("char");
        reveal_strlit("u32");
        assert("char"@ != "u32"@) by {
            assert("char"@.len() == 4);
        }
    }
    match v {
        Variable::Buffer(n, ty, len) => {
            let name = sanitize_var_name(n.as_str());
            let mut code = String::new();
            if str_eq(ty.as_str(), "char") {
                let len = match len {
                    Some(l) => *l,
                    None => 0,
                };
                let mask = mask_for(len);
                fmt::push_ctx_init_char(&mut code, i as u128, name.as_str(), mask);
            } else {
                fmt::push_ctx_init_u32(&mut code, i as u128, name.as_str());
            }
            if str_eq(name.as_str(), "status_code") {
                fmt::push_ctx_init_stats(out, code.as_str());
            } else {
                push_str(out, code.as_str());
            }
        },
        Variable::Range(n) => {
            let name = sanitize_var_name(n.as_str());
            fmt::push_ctx_init_range(out, name.as_str(), i as u128);
        },
    }
}

impl Compiler {
    /// The context filter: the declarations and initialisations of `vars`.
    pub fn generate_ctx(&self, vars: &Vec<Variable>) -> (r: Filter)
        requires
            vars_supported(var_views(vars@)),
        ensures
            r@ == ctx_filter(self.templates.ctx@, var_views(vars@)),
    {
        let ghost vs = var_views(vars@);
        let mut defs: Vec<String> = Vec::new();
        let mut inits: Vec<String> = Vec::new();
        let mut i: usize = 0;
        while i < vars.len()
            invariant
                i <= vars@.len(),
                vs == var_views(vars@),
                vars_supported(vs),
                views(defs@) == vs.take(i as int).map_values(|v: VarView| var_def(v)),
                views(inits@) == Seq::new(i as nat, |k: int| var_init(k as nat, vs[k])),
            decreases vars.len() - i,
        {
            assert(var_supported(vars@[i as int]@)) by {
                assert(vs[i as int] == vars@[i as int]@);
            }
            let mut d = String::new();
            push_var_def(&mut d, &vars[i]);
            let mut c = String::new();
            push_var_init(&mut c, i, &vars[i]);
            let ghost (pd, pc) = (defs@, inits@);
            defs.push(d);
            inits.push(c);
            proof {
                assert(views(defs@) =~= views(pd).push(d@));
                assert(views(inits@) =~= views(pc).push(c@));
                assert(vs[i as int] == vars@[i as int]@);
                assert(vs.take(i as int + 1).map_values(|v: VarView| var_def(v)) =~= vs.take(
                    i as int,
                ).map_values(|v: VarView| var_def(v)).push(var_def(vs[i as int])));
                assert(Seq::new(i as nat + 1, |k: int| var_init(k as nat, vs[k])) =~= Seq::new(
                    i as nat,
                    |k: int| var_init(k as nat, vs[k]),
                ).push(var_init(i as nat, vs[i as int])));
            }
            i = i + 1;
        }
        assert(vs.take(vs.len() as int) =~= vs);
        let var_defs = join_strings(&defs, "\n");
        let var_inits = join_strings(&inits, "\n");
        let mut filter = self.templates.ctx.copy();
        filter.replace_defs("vars", var_defs.as_str());
        filter.replace_code("init", var_inits.as_str());
        filter
    }
}

/// The number the program compares an IPv4 address with.
pub open spec fn ip_num(ip: IpAddress, order: ByteOrder) -> nat {
    match ip {
        IpAddress::V4(a) => octets_in(a, order) as nat,
        IpAddress::V6(_) => 0,
    }
}

fn ip_num_exec(ip: &IpAddress, order: ByteOrder) -> (r: u128)
    requires
        ip is V4,
    ensures
        r == ip_num(*ip, order),
{
    match ip {
        IpAddress::V4(a) => octets_u32(*a, order) as u128,
        IpAddress::V6(_) => 0,
    }
}

/// The conditions on the headers of a policy, joined with " && ".
pub open spec fn rbac_hdrs(hdrs: Seq<(String, String)>) -> Seq<char> {
    join(
        hdrs.map_values(
            |h: (String, String)| fmt::rbac_hdr_cond(sanitized(h.0@), blen(h.1@), h.1@),
        ),
        " && "@,
    )
}

/// The check of one policy.
pub open spec fn policy_text(p: Policy, order: ByteOrder) -> Seq<char> {
    let method = match p.method {
        Some(m) => fmt::rbac_method_cond(blen(m@), m@),
        None => "true"@,
    };
    let path = match p.path {
        Some(x) => fmt::rbac_path_cond(blen(x@), x@),
        None => "true"@,
    };
    let dest_ip = match p.dest_ip4 {
        Some(ip) => fmt::rbac_dest_ip_cond(ip_num(ip, order)),
        None => "true"@,
    };
    let dest_port = match p.dest_port {
        Some(port) => fmt::rbac_dest_port_cond(port as nat),
        None => "true"@,
    };
    let src_ip = match p.src_ip4 {
        Some(ip) => fmt::rbac_src_ip_cond(ip_num(ip, order)),
        None => "true"@,
    };
    let hdrs = match p.headers {
        Some(h) => fmt::rbac_paren(rbac_hdrs(h@)),
        None => "true"@,
    };
    let action = if p.allow {
        fmt::rbac_allow(p.name@)
    } else {
        fmt::rbac_deny(p.name@)
    };
    fmt::rbac_policy(method, path, dest_ip, dest_port, src_ip, hdrs, action)
}

/// What the RBAC filter does when no policy matches: pass when there are
/// no policies, deny otherwise.
pub open spec fn rbac_no_match(policies: Seq<char>) -> Seq<char> {
    if policies.len() == 0 {
        "return PR_PASS;"@
    } else {
        "bpf_stats_add(http_rbac_denied, 1);
                return PR_DROP;"@
    }
}

/// The RBAC filter: the template with the check of each policy, one per
/// line, and what to do when none matches.
pub open spec fn rbac_filter(tmpl: (Seq<char>, Seq<char>), policies: Seq<Policy>, order: ByteOrder) -> (
    Seq<char>,
    Seq<char>,
) {
    let text = join(policies.map_values(|p: Policy| policy_text(p, order)), "\n"@);
    (
        tmpl.0,
        replace_all(
            replace_all(tmpl.1, brace("policies"@), text),
            brace("no_match_action"@),
            rbac_no_match(text),
        ),
    )
}

/// Whether every address of the policies is an IPv4 address.
pub open spec fn policies_ipv4(policies: Seq<Policy>) -> bool {
    forall|i: int|
        0 <= i < policies.len() ==> (#[trigger] policies[i].dest_ip4 matches Some(ip) ==> ip is V4)
            && (policies[i].src_ip4 matches Some(ip) ==> ip is V4)
}

fn rbac_hdrs_exec(hdrs: &Vec<(String, String)>) -> (r: String)
    ensures
        r@ == rbac_hdrs(hdrs@),
{
    let mut conds: Vec<String> = Vec::new();
    let mut j: usize = 0;
    while j < hdrs.len()
        invariant
            j <= hdrs@.len(),
            views(conds@) == hdrs@.take(j as int).map_values(
                |h: (String, String)| fmt::rbac_hdr_cond(sanitized(h.0@), blen(h.1@), h.1@),
            ),
        decreases hdrs.len() - j,
    {
        let key = sanitize_var_name(hdrs[j].0.as_str());
        let mut c = String::new();
        fmt::push_rbac_hdr_cond(&mut c, key.as_str(), utf8_len(hdrs[j].1.as_str()), hdrs[j].1.as_str());
        let ghost prev = conds@;
        conds.push(c);
        proof {
            assert(views(conds@) =~= views(prev).push(c@));
            assert(hdrs@.take(j as int + 1).map_values(
                |h: (String, String)| fmt::rbac_hdr_cond(sanitized(h.0@), blen(h.1@), h.1@),
            ) =~= hdrs@.take(j as int).map_values(
                |h: (String, String)| fmt::rbac_hdr_cond(sanitized(h.0@), blen(h.1@), h.1@),
            ).push(fmt::rbac_hdr_cond(sanitized(hdrs@[j as int].0@), blen(hdrs@[j as int].1@), hdrs@[j as int].1@)));
        }
        j = j + 1;
    }
    assert(hdrs@.take(hdrs@.len() as int) =~= hdrs@);
    join_strings(&conds, " && ")
}

fn policy_text_exec(p: &Policy, order: ByteOrder) -> (r: String)
    requires
        p.dest_ip4 matches Some(ip) ==> ip is V4,
        p.src_ip4 matches Some(ip) ==> ip is V4,
    ensures
        r@ == policy_text(*p, order),
{
    let mut method = String::new();
    match &p.method {
        Some(m) => fmt::push_rbac_method_cond(&mut method, utf8_len(m.as_str()), m.as_str()),
        None => push_str(&mut method, "true"),
    }
    let mut path = String::new();
    match &p.path {
        Some(x) => fmt::push_rbac_path_cond(&mut path, utf8_len(x.as_str()), x.as_str()),
        None => push_str(&mut path, "true"),
    }
    let mut dest_ip = String::new();
    match &p.dest_ip4 {
        Some(ip) => fmt::push_rbac_dest_ip_cond(&mut dest_ip, ip_num_exec(ip, order)),
        None => push_str(&mut dest_ip, "true"),
    }
    let mut dest_port = String::new();
    match &p.dest_port {
        Some(port) => fmt::push_rbac_dest_port_cond(&mut dest_port, *port as u128),
        None => push_str(&mut dest_port, "true"),
    }
    let mut src_ip = String::new();
    match &p.src_ip4 {
        Some(ip) => fmt::push_rbac_src_ip_cond(&mut src_ip, ip_num_exec(ip, order)),
        None => push_str(&mut src_ip, "true"),
    }
    let mut hdrs = String::new();
    match &p.headers {
        Some(h) => {
            let cond = rbac_hdrs_exec(h);
            fmt::push_rbac_paren(&mut hdrs, cond.as_str());
        },
        None => push_str(&mut hdrs, "true"),
    }
    let mut action = String::new();
    if p.allow {
        fmt::push_rbac_allow(&mut action, p.name.as_str());
    } else {
        fmt::push_rbac_deny(&mut action, p.name.as_str());
    }
    let mut out = String::new();
    fmt::push_rbac_policy(
        &mut out,
        method.as_str(),
        path.as_str(),
        dest_ip.as_str(),
        dest_port.as_str(),
        src_ip.as_str(),
        hdrs.as_str(),
        action.as_str(),
    );
    assert(out@ =~= policy_text(*p, order));
    out
}

impl Compiler {
    /// The RBAC filter for `policies`.
    pub fn generate_rbac(&self, policies: &Vec<Policy>) -> (r: Filter)
        requires
            policies_ipv4(policies@),
        ensures
            r@ == rbac_filter(self.templates.rbac@, policies@, self.byte_order),
    {
        let order = self.byte_order;
        let mut lines: Vec<String> = Vec::new();
        let mut i: usize = 0;
        while i < policies.len()
            invariant
                i <= policies@.len(),
                order == self.byte_order,
                policies_ipv4(policies@),
                views(lines@) == policies@.take(i as int).map_values(
                    |p: Policy| policy_text(p, order),
                ),
            decreases policies.len() - i,
        {
            assert(policies_ipv4(policies@));
            assert(policies@[i as int].dest_ip4 == policies@[i as int].dest_ip4);
            let line = policy_text_exec(&policies[i], order);
            let ghost prev = lines@;
            lines.push(line);
            proof {
                assert(views(lines@) =~= views(prev).push(line@));
                assert(policies@.take(i as int + 1).map_values(|p: Policy| policy_text(p, order))
                    =~= policies@.take(i as int).map_values(|p: Policy| policy_text(p, order)).push(
                    policy_text(policies@[i as int], order),
                ));
            }
            i = i + 1;
        }
        assert(policies@.take(policies@.len() as int) =~= policies@);
        let text = join_strings(&lines, "\n");
        let mut no_match = String::new();
        if text.as_str().is_empty() {
            push_str(&mut no_match, "return PR_PASS;");
        } else {
            push_str(&mut no_match, "bpf_stats_add(http_rbac_denied, 1);
                return PR_DROP;");
        }
        let mut filter = self.templates.rbac.copy();
        filter.replace_code("policies", text.as_str());
        filter.replace_code("no_match_action", no_match.as_str());
        filter
    }
}

/// The check of the signature of a JWT.
pub const VERIFY_SIG: &'static str = "if (_validate_jwt_signature(ctx->jwt_claims, ctx->jwt_claims_range.len, ctx->jwt_sig, ctx->jwt_sig_range.len, ctx->tmp) != PR_PASS) return PR_DROP;";

/// The admission check of one JWT claim.
pub const ADM_TEMPL: &'static str = "
            adm = \"{adm}\";
            adm_len = {adm_len};
            admitted = false;

            bpf_for(i, 0, claims_len-adm_len) {
                bpf_clamp_uminmax(i, 0, 3072-{adm_len});
                if (bpf_strncmp(ctx->tmp + i, adm_len, adm) == 0) {
                    admitted = true;
                    break;
                }
            }

            if (!admitted) {
                bpf_log(\"JWT admission failed\");
                return PR_DROP;
            }";

/// The admission check for a claim: the claim text and its length without
/// the escapes of its four quotes.
pub open spec fn admission_for(claim: Seq<char>) -> Seq<char> {
    replace_all(
        replace_all(ADM_TEMPL@, "{adm}"@, claim),
        "{adm_len}"@,
        dec_chars((blen(claim) - 4) as nat),
    )
}

/// The admission checks of a JWT filter: the audience, then the issuer.
pub open spec fn jwt_admission(jwt: JwtFilter) -> Seq<char> {
    (match jwt.audience {
        Some(a) => admission_for(fmt::jwt_claim_aud(a@)) + "\n"@,
        None => Seq::empty(),
    }) + (match jwt.issuer {
        Some(i) => admission_for(fmt::jwt_claim_iss(i@)),
        None => Seq::empty(),
    })
}

/// The filter of a JWT check and its call: the signature check alone when
/// no claim is checked.
pub open spec fn jwt_filter(tmpl: (Seq<char>, Seq<char>), idx: nat, jwt: JwtFilter) -> (
    (Seq<char>, Seq<char>),
    Seq<char>,
) {
    if jwt.audience is None && jwt.issuer is None {
        ((Seq::empty(), Seq::empty()), VERIFY_SIG@)
    } else {
        (
            (
                tmpl.0,
                replace_all(
                    replace_all(tmpl.1, brace("idx"@), dec_chars(idx)),
                    brace("admission"@),
                    jwt_admission(jwt),
                ),
            ),
            fmt::jwt_call(VERIFY_SIG@, idx),
        )
    }
}

fn admission_exec(claim: &str) -> (r: String)
    requires
        blen(claim@) >= 4,
    ensures
        r@ == admission_for(claim@),
{
    proof {
        reveal_strlit("{adm}");
        reveal_strlit("{adm_len}");
    }
    let t = replace_str(ADM_TEMPL, "{adm}", claim);
    let n = utf8_len(claim) - 4;
    let mut num = String::new();
    push_dec(&mut num, n);
    assert(num@ =~= dec_chars((blen(claim@) - 4) as nat));
    replace_str(t.as_str(), "{adm_len}", num.as_str())
}

impl Compiler {
    /// The JWT filter of route `idx`, and its call.
    pub fn generate_jwt_filter(&self, idx: usize, jwt: &JwtFilter) -> (r: (Filter, String))
        ensures
            (r.0@, r.1@) == jwt_filter(self.templates.jwt@, idx as nat, *jwt),
    {
        if jwt.audience.is_none() && jwt.issuer.is_none() {
            return (Filter::empty(), VERIFY_SIG.to_string());
        }
        let mut admission = String::new();
        if let Some(aud) = &jwt.audience {
            let mut claim = String::new();
            fmt::push_jwt_claim_aud(&mut claim, aud.as_str());
            proof {
                reveal_strlit("\\\"aud\\\":\\\"");
                reveal_strlit("\\\"");
                lemma_blen_bounds(claim@);
            }
            let a = admission_exec(claim.as_str());
            push_str(&mut admission, a.as_str());
            push_str(&mut admission, "\n");
        }
        if let Some(iss) = &jwt.issuer {
            let mut claim = String::new();
            fmt::push_jwt_claim_iss(&mut claim, iss.as_str());
            proof {
                reveal_strlit("\\\"iss\\\":\\\"");
                reveal_strlit("\\\"");
                lemma_blen_bounds(claim@);
            }
            let a = admission_exec(claim.as_str());
            push_str(&mut admission, a.as_str());
        }
        assert(admission@ =~= jwt_admission(*jwt));
        let mut idx_text = String::new();
        push_dec(&mut idx_text, idx as u128);
        let mut filter = self.templates.jwt.copy();
        filter.replace_code("idx", idx_text.as_str());
        filter.replace_code("admission", admission.as_str());
        let mut call = String::new();
        fmt::push_jwt_call(&mut call, VERIFY_SIG, idx as u128);
        (filter, call)
    }
}

/// The shifts of every captured range behind a removed header.
pub open spec fn offsets(ctx: Seq<VarView>) -> Seq<char> {
    join(
        ctx.map_values(
            |v: VarView|
                fmt::mutate_offset(
                    sanitized(var_name(v)),
                    "remove_range.idx"@,
                    "-remove_range.len"@,
                ),
        ),
        "\n"@,
    )
}

/// The removal of the header `key` (sanitized); for "authorization" the
/// JWT it carries is removed first.
pub open spec fn remove_text(key: Seq<char>, off: Seq<char>) -> Seq<char> {
    let auth = if key == "authorization"@ {
        fmt::mutate_remove_auth(key, blen(key) + 2, blen(key) + 3, off)
    } else {
        Seq::empty()
    };
    fmt::mutate_remove_hdr(auth, key, blen(key) + 2, blen(key) + 3, off)
}

/// The addition of the header `key: val`.
pub open spec fn add_text(key: Seq<char>, val: Seq<char>) -> Seq<char> {
    let h = fmt::mutate_new_hdr(key, val);
    fmt::mutate_add_hdr(h, (blen(h) - 2) as nat)
}

/// The mutations of a filter: the removals, then the additions.
pub open spec fn mutation(m: MutateFilter, off: Seq<char>) -> Seq<char> {
    (match m.remove {
        Some(ks) => ks@.map_values(|k: String| remove_text(sanitized(k@), off)).flatten(),
        None => Seq::empty(),
    }) + (match m.add {
        Some(a) => a@.map_values(|h: (String, String)| add_text(h.0@, h.1@)).flatten(),
        None => Seq::empty(),
    })
}

/// The filter of a mutation and its call, for a context with `ctx`;
/// nothing when the filter neither adds nor removes.
pub open spec fn mutate_filter(
    tmpl: (Seq<char>, Seq<char>),
    idx: nat,
    m: MutateFilter,
    ctx: Seq<VarView>,
) -> ((Seq<char>, Seq<char>), Seq<char>) {
    if m.add is None && m.remove is None {
        ((Seq::empty(), Seq::empty()), Seq::empty())
    } else {
        (
            (
                tmpl.0,
                replace_all(
                    replace_all(tmpl.1, brace("idx"@), dec_chars(idx)),
                    brace("mutation"@),
                    mutation(m, offsets(ctx)),
                ),
            ),
            fmt::mutate_call(idx),
        )
    }
}

fn offsets_exec(ctx: &Vec<Variable>) -> (r: String)
    ensures
        r@ == offsets(var_views(ctx@)),
{
    let ghost vs = var_views(ctx@);
    let mut lines: Vec<String> = Vec::new();
    let mut i: usize = 0;
    while i < ctx.len()
        invariant
            i <= ctx@.len(),
            vs == var_views(ctx@),
            views(lines@) == vs.take(i as int).map_values(
                |v: VarView|
                    fmt::mutate_offset(
                        sanitized(var_name(v)),
                        "remove_range.idx"@,
                        "-remove_range.len"@,
                    ),
            ),
        decreases ctx.len() - i,
    {
        let name = sanitize_var_name(ctx[i].name());
        let mut line = String::new();
        fmt::push_mutate_offset(&mut line, name.as_str(), "remove_range.idx", "-remove_range.len");
        let ghost prev = lines@;
        lines.push(line);
        proof {
            assert(views(lines@) =~= views(prev).push(line@));
            assert(vs[i as int] == ctx@[i as int]@);
            assert(vs.take(i as int + 1).map_values(
                |v: VarView|
                    fmt::mutate_offset(
                        sanitized(var_name(v)),
                        "remove_range.idx"@,
                        "-remove_range.len"@,
                    ),
            ) =~= vs.take(i as int).map_values(
                |v: VarView|
                    fmt::mutate_offset(
                        sanitized(var_name(v)),
                        "remove_range.idx"@,
                        "-remove_range.len"@,
                    ),
            ).push(
                fmt::mutate_offset(
                    sanitized(var_name(vs[i as int])),
                    "remove_range.idx"@,
                    "-remove_range.len"@,
                ),
            ));
        }
        i = i + 1;
    }
    assert(vs.take(vs.len() as int) =~= vs);
    join_strings(&lines, "\n")
}

fn push_remove(out: &mut String, key: &str, off: &str)
    ensures
        final(out)@ == old(out)@ + remove_text(sanitized(key@), off@),
{
    let key = sanitize_var_name(key);
    let n = utf8_len(key.as_str());
    let mut auth = String::new();
    if str_eq(key.as_str(), "authorization") {
        fmt::push_mutate_remove_auth(&mut auth, key.as_str(), n + 2, n + 3, off);
    }
    assert(auth@ =~= (if key@ == "authorization"@ {
        fmt::mutate_remove_auth(key@, blen(key@) + 2, blen(key@) + 3, off@)
    } else {
        Seq::empty()
    }));
    fmt::push_mutate_remove_hdr(out, auth.as_str(), key.as_str(), n + 2, n + 3, off);
}

fn push_add(out: &mut String, key: &str, val: &str)
    ensures
        final(out)@ == old(out)@ + add_text(key@, val@),
{
    let mut h = String::new();
    fmt::push_mutate_new_hdr(&mut h, key, val);
    proof {
        reveal_strlit(": ");
        reveal_strlit("\\r\\n");
        lemma_blen_bounds(h@);
    }
    let n = utf8_len(h.as_str()) - 2;
    fmt::push_mutate_add_hdr(out, h.as_str(), n);
}

fn mutation_exec(m: &MutateFilter, off: &str) -> (r: String)
    ensures
        r@ == mutation(*m, off@),
{
    let mut out = String::new();
    if let Some(keys) = &m.remove {
        let mut k: usize = 0;
        while k < keys.len()
            invariant
                k <= keys@.len(),
                m.remove == Some(*keys),
                out@ == keys@.take(k as int).map_values(
                    |x: String| remove_text(sanitized(x@), off@),
                ).flatten(),
            decreases keys.len() - k,
        {
            let ghost prev = out@;
            push_remove(&mut out, keys[k].as_str(), off);
            proof {
                let f = |x: String| remove_text(sanitized(x@), off@);
                assert(keys@.take(k as int + 1).map_values(f) =~= keys@.take(k as int).map_values(
                    f,
                ).push(f(keys@[k as int])));
                keys@.take(k as int).map_values(f).lemma_flatten_push(f(keys@[k as int]));
            }
            k = k + 1;
        }
        assert(keys@.take(keys@.len() as int) =~= keys@);
    }
    let ghost removed = out@;
    assert(removed == (match m.remove {
        Some(ks) => ks@.map_values(|k: String| remove_text(sanitized(k@), off@)).flatten(),
        None => Seq::empty(),
    }));
    if let Some(add) = &m.add {
        let mut k: usize = 0;
        while k < add.len()
            invariant
                k <= add@.len(),
                m.add == Some(*add),
                out@ == removed + add@.take(k as int).map_values(
                    |h: (String, String)| add_text(h.0@, h.1@),
                ).flatten(),
            decreases add.len() - k,
        {
            push_add(&mut out, add[k].0.as_str(), add[k].1.as_str());
            proof {
                let f = |h: (String, String)| add_text(h.0@, h.1@);
                assert(add@.take(k as int + 1).map_values(f) =~= add@.take(k as int).map_values(
                    f,
                ).push(f(add@[k as int])));
                add@.take(k as int).map_values(f).lemma_flatten_push(f(add@[k as int]));
            }
            k = k + 1;
        }
        assert(add@.take(add@.len() as int) =~= add@);
    }
    assert(out@ =~= mutation(*m, off@));
    out
}

impl Compiler {
    /// The mutation filter of route `idx`, and its call.
    pub fn generate_mutate_filter(&self, idx: usize, mutate: &MutateFilter) -> (r: (Filter, String))
        requires
            paths_fit(self.config),
        ensures
            (r.0@, r.1@) == mutate_filter(
                self.templates.mutate@,
                idx as nat,
                *mutate,
                ctx_vars(self.config),
            ),
    {
        if mutate.add.is_none() && mutate.remove.is_none() {
            return (Filter::empty(), String::new());
        }
        let ctx = self.get_ctx_vars();
        let off = offsets_exec(&ctx);
        let mutation = mutation_exec(mutate, off.as_str());
        let mut idx_text = String::new();
        push_dec(&mut idx_text, idx as u128);
        let mut filter = self.templates.mutate.copy();
        filter.replace_code("idx", idx_text.as_str());
        filter.replace_code("mutation", mutation.as_str());
        let mut call = String::new();
        fmt::push_mutate_call(&mut call, idx as u128);
        (filter, call)
    }
}

/// `s` written `n` times.
pub open spec fn repeat(s: Seq<char>, n: nat) -> Seq<char>
    decreases n,
{
    if n == 0 {
        Seq::empty()
    } else {
        repeat(s, (n - 1) as nat) + s
    }
}

/// The slots of the hash ring: each instance `per` times, in order.
pub open spec fn ring_text(instances: Seq<SocketAddress>, per: nat, order: ByteOrder) -> Seq<char> {
    instances.map_values(
        |a: SocketAddress| repeat(fmt::lb_ring_entry(ip_num(a.ip, order), a.port as nat), per),
    ).flatten()
}

/// The size of the ring of a load balancer.
pub open spec fn ring_size(lb: LoadBalancer) -> nat {
    match lb {
        LoadBalancer::Ring(r) => r.size as nat,
    }
}

/// The load-balancing filter of route `idx` and its call: the ring holds
/// each instance equally often, as often as fits in the configured size.
pub open spec fn lb_filter(
    tmpl: (Seq<char>, Seq<char>),
    idx: nat,
    lb: LoadBalancer,
    instances: Seq<SocketAddress>,
    order: ByteOrder,
) -> ((Seq<char>, Seq<char>), Seq<char>) {
    let per = ring_size(lb) / instances.len();
    (
        (
            replace_all(
                replace_all(tmpl.0, brace("idx"@), dec_chars(idx)),
                brace("ring"@),
                ring_text(instances, per, order),
            ),
            replace_all(
                replace_all(tmpl.1, brace("idx"@), dec_chars(idx)),
                brace("ring_len"@),
                dec_chars(per * instances.len()),
            ),
        ),
        fmt::lb_call(idx),
    )
}

/// Whether every address is an IPv4 address.
pub open spec fn all_ipv4(instances: Seq<SocketAddress>) -> bool {
    forall|i: int| 0 <= i < instances.len() ==> (#[trigger] instances[i]).ip is V4
}

fn push_repeat(out: &mut String, s: &str, n: usize)
    ensures
        final(out)@ == old(out)@ + repeat(s@, n as nat),
{
    let ghost before = out@;
    let mut k: usize = 0;
    while k < n
        invariant
            k <= n,
            out@ == before + repeat(s@, k as nat),
        decreases n - k,
    {
        push_str(out, s);
        k = k + 1;
        assert(out@ =~= before + repeat(s@, k as nat));
    }
}

impl Compiler {
    /// The load-balancing filter of route `idx` over `instances`, and its call.
    pub fn generate_load_balancing(
        &self,
        idx: usize,
        lb: &LoadBalancer,
        instances: &Vec<SocketAddress>,
    ) -> (r: (Filter, String))
        requires
            instances@.len() > 0,
            all_ipv4(instances@),
        ensures
            (r.0@, r.1@) == lb_filter(self.templates.lb@, idx as nat, *lb, instances@, self.byte_order),
    {
        let size = match lb {
            LoadBalancer::Ring(r) => r.size,
        };
        let per = size / instances.len();
        let mut ring = String::new();
        let mut i: usize = 0;
        while i < instances.len()
            invariant
                i <= instances@.len(),
                all_ipv4(instances@),
                per == ring_size(*lb) / instances@.len(),
                ring@ == instances@.take(i as int).map_values(
                    |a: SocketAddress|
                        repeat(fmt::lb_ring_entry(ip_num(a.ip, self.byte_order), a.port as nat), per as nat),
                ).flatten(),
            decreases instances.len() - i,
        {
            let a = instances[i];
            assert(instances@[i as int].ip is V4);
            let mut entry = String::new();
            fmt::push_lb_ring_entry(&mut entry, ip_num_exec(&a.ip, self.byte_order), a.port as u128);
            let ghost prev = ring@;
            push_repeat(&mut ring, entry.as_str(), per);
            proof {
                let f = |a: SocketAddress|
                    repeat(fmt::lb_ring_entry(ip_num(a.ip, self.byte_order), a.port as nat), per as nat);
                assert(instances@.take(i as int + 1).map_values(f) =~= instances@.take(i as int).map_values(
                    f,
                ).push(f(instances@[i as int])));
                instances@.take(i as int).map_values(f).lemma_flatten_push(f(instances@[i as int]));
            }
            i = i + 1;
        }
        assert(instances@.take(instances@.len() as int) =~= instances@);
        proof {
            let n = instances@.len() as int;
            let sz = size as int;
            let q = per as int;
            assert(q * n <= sz) by (nonlinear_arith)
                requires
                    q == sz / n,
                    n > 0,
                    sz >= 0,
            ;
        }
        let ring_len = per * instances.len();
        let mut idx_text = String::new();
        push_dec(&mut idx_text, idx as u128);
        let mut len_text = String::new();
        push_dec(&mut len_text, ring_len as u128);
        let mut filter = self.templates.lb.copy();
        filter.replace_code("idx", idx_text.as_str());
        filter.replace_defs("idx", idx_text.as_str());
        filter.replace_code("ring_len", len_text.as_str());
        filter.replace_defs("ring", ring.as_str());
        let mut call = String::new();
        fmt::push_lb_call(&mut call, idx as u128);
        (filter, call)
    }
}

/// The condition on the request path of a route ("*" matches any path).
pub open spec fn path_condition(r: CRoute) -> Seq<char> {
    match r.pattern.path {
        Some(p) => if p@ == "*"@ {
            "true"@
        } else {
            fmt::route_path_cond(blen(p@) + 1, p@)
        },
        None => "true"@,
    }
}

/// The conditions on the headers of a route, joined with " && ".
pub open spec fn header_condition(r: CRoute) -> Seq<char> {
    match r.pattern.headers {
        Some(hs) => join(
            hs@.map_values(|h: (String, String)| fmt::route_hdr_cond(h.0@, blen(h.1@), h.1@)),
            " && "@,
        ),
        None => "true"@,
    }
}

/// The dispatch to route `idx`: an `else if` after the first route.
pub open spec fn route_condition(idx: nat, r: CRoute) -> Seq<char> {
    fmt::route_cond(
        if idx > 0 {
            "else "@
        } else {
            ""@
        },
        path_condition(r),
        header_condition(r),
        idx,
    )
}

/// The filter of a route filter and its call.
pub open spec fn filter_pair(t: Templates, idx: nat, f: CFilter, ctx: Seq<VarView>) -> (
    (Seq<char>, Seq<char>),
    Seq<char>,
) {
    match f {
        CFilter::Jwt(j) => jwt_filter(t.jwt@, idx, j),
        CFilter::Mutate(m) => mutate_filter(t.mutate@, idx, m, ctx),
    }
}

/// The filters of route `idx`: those of its filters, the load balancer when
/// its host has several instances, and the route itself, which calls the
/// filters and then forwards.
pub open spec fn route_filters(config: Config, t: Templates, order: ByteOrder, idx: nat, r: CRoute) -> Seq<
    (Seq<char>, Seq<char>),
> {
    let pairs = r.filters@.map_values(|f: CFilter| filter_pair(t, idx, f, ctx_vars(config)));
    let fs = pairs.map_values(|p: ((Seq<char>, Seq<char>), Seq<char>)| p.0);
    let calls = pairs.map_values(|p: ((Seq<char>, Seq<char>), Seq<char>)| p.1);
    let host = resolved(config, r.dest@)->0;
    let inst = host.1;
    let lb = lb_filter(t.lb@, idx, host.0->0, inst, order);
    let extra = if inst.len() == 1 {
        Seq::empty()
    } else {
        seq![lb.0]
    };
    let code = if inst.len() == 1 {
        fmt::route_dest(ip_num(inst[0].ip, order), inst[0].port as nat)
    } else {
        lb.1
    };
    let chain = fmt::route_chain(join(calls, "\n"@), code);
    fs + extra + seq![
        (
            t.route@.0,
            replace_all(
                replace_all(t.route@.1, brace("idx"@), dec_chars(idx)),
                brace("route"@),
                chain,
            ),
        ),
    ]
}

/// A route of the program by value.
pub open spec fn route_view(r: Route) -> (Seq<char>, Seq<(Seq<char>, Seq<char>)>) {
    (r.cond@, r.filters@.map_values(|f: Filter| f@))
}

/// Whether route `r` can be compiled: its destination resolves to at least
/// one IPv4 instance, and to a load balancer when there are several.
pub open spec fn route_ok(config: Config, r: CRoute) -> bool {
    match resolved(config, r.dest@) {
        Some(host) => {
            &&& host.1.len() >= 1
            &&& host.1.len() >= 2 ==> host.0 is Some
            &&& all_ipv4(host.1)
        },
        None => false,
    }
}

/// Whether every route can be compiled.
pub open spec fn routes_ok(config: Config) -> bool {
    &&& paths_fit(config)
    &&& forall|i: int| 0 <= i < config.routes@.len() ==> route_ok(config, #[trigger] config.routes@[i])
}

/// The downstream routes of a configuration.
pub open spec fn ds_routes(config: Config, t: Templates, order: ByteOrder) -> Seq<
    (Seq<char>, Seq<(Seq<char>, Seq<char>)>),
> {
    Seq::new(
        config.routes@.len(),
        |i: int|
            (
                route_condition(i as nat, config.routes@[i]),
                route_filters(config, t, order, i as nat, config.routes@[i]),
            ),
    )
}

fn path_condition_exec(r: &CRoute) -> (s: String)
    ensures
        s@ == path_condition(*r),
{
    let mut out = String::new();
    match &r.pattern.path {
        Some(p) => {
            if str_eq(p.as_str(), "*") {
                push_str(&mut out, "true");
            } else {
                fmt::push_route_path_cond(&mut out, utf8_len(p.as_str()) + 1, p.as_str());
            }
        },
        None => push_str(&mut out, "true"),
    }
    assert(out@ =~= path_condition(*r));
    out
}

fn header_condition_exec(r: &CRoute) -> (s: String)
    ensures
        s@ == header_condition(*r),
{
    match &r.pattern.headers {
        Some(hs) => {
            let mut conds: Vec<String> = Vec::new();
            let mut j: usize = 0;
            while j < hs.len()
                invariant
                    j <= hs@.len(),
                    views(conds@) == hs@.take(j as int).map_values(
                        |h: (String, String)| fmt::route_hdr_cond(h.0@, blen(h.1@), h.1@),
                    ),
                decreases hs.len() - j,
            {
                let mut c = String::new();
                fmt::push_route_hdr_cond(
                    &mut c,
                    hs[j].0.as_str(),
                    utf8_len(hs[j].1.as_str()),
                    hs[j].1.as_str(),
                );
                let ghost prev = conds@;
                conds.push(c);
                proof {
                    let f = |h: (String, String)| fmt::route_hdr_cond(h.0@, blen(h.1@), h.1@);
                    assert(views(conds@) =~= views(prev).push(c@));
                    assert(hs@.take(j as int + 1).map_values(f) =~= hs@.take(j as int).map_values(
                        f,
                    ).push(f(hs@[j as int])));
                }
                j = j + 1;
            }
            assert(hs@.take(hs@.len() as int) =~= hs@);
            join_strings(&conds, " && ")
        },
        None => {
            let mut out = String::new();
            push_str(&mut out, "true");
            out
        },
    }
}

impl Compiler {
    /// The filters of route `idx` and the calls that run them.
    fn route_filter_pairs(&self, idx: usize, route: &CRoute) -> (r: (Vec<Filter>, Vec<String>))
        requires
            paths_fit(self.config),
        ensures
            r.0@.map_values(|f: Filter| f@) == route.filters@.map_values(
                |f: CFilter| filter_pair(self.templates, idx as nat, f, ctx_vars(self.config)),
            ).map_values(|p: ((Seq<char>, Seq<char>), Seq<char>)| p.0),
            views(r.1@) == route.filters@.map_values(
                |f: CFilter| filter_pair(self.templates, idx as nat, f, ctx_vars(self.config)),
            ).map_values(|p: ((Seq<char>, Seq<char>), Seq<char>)| p.1),
    {
        let ghost pairs = route.filters@.map_values(
            |f: CFilter| filter_pair(self.templates, idx as nat, f, ctx_vars(self.config)),
        );
        let mut fs: Vec<Filter> = Vec::new();
        let mut calls: Vec<String> = Vec::new();
        let mut k: usize = 0;
        while k < route.filters.len()
            invariant
                k <= route.filters@.len(),
                paths_fit(self.config),
                pairs == route.filters@.map_values(
                    |f: CFilter| filter_pair(self.templates, idx as nat, f, ctx_vars(self.config)),
                ),
                fs@.map_values(|f: Filter| f@) == pairs.take(k as int).map_values(
                    |p: ((Seq<char>, Seq<char>), Seq<char>)| p.0,
                ),
                views(calls@) == pairs.take(k as int).map_values(
                    |p: ((Seq<char>, Seq<char>), Seq<char>)| p.1,
                ),
            decreases route.filters.len() - k,
        {
            let (f, c) = match &route.filters[k] {
                CFilter::Jwt(j) => self.generate_jwt_filter(idx, j),
                CFilter::Mutate(m) => self.generate_mutate_filter(idx, m),
            };
            let ghost (pf, pc) = (fs@, calls@);
            fs.push(f);
            calls.push(c);
            proof {
                assert(pairs[k as int] == filter_pair(
                    self.templates,
                    idx as nat,
                    route.filters@[k as int],
                    ctx_vars(self.config),
                ));
                assert(fs@.map_values(|f: Filter| f@) =~= pf.map_values(|f: Filter| f@).push(f@));
                assert(views(calls@) =~= views(pc).push(c@));
                assert(pairs.take(k as int + 1).map_values(|p: ((Seq<char>, Seq<char>), Seq<char>)| p.0)
                    =~= pairs.take(k as int).map_values(|p: ((Seq<char>, Seq<char>), Seq<char>)| p.0).push(
                    pairs[k as int].0,
                ));
                assert(pairs.take(k as int + 1).map_values(|p: ((Seq<char>, Seq<char>), Seq<char>)| p.1)
                    =~= pairs.take(k as int).map_values(|p: ((Seq<char>, Seq<char>), Seq<char>)| p.1).push(
                    pairs[k as int].1,
                ));
            }
            k = k + 1;
        }
        assert(pairs.take(pairs.len() as int) =~= pairs);
        (fs, calls)
    }

    /// Route `idx`: its dispatch condition and its filters.
    pub fn generate_route(&self, idx: usize, route: &CRoute) -> (r: Route)
        requires
            paths_fit(self.config),
            route_ok(self.config, *route),
        ensures
            route_view(r) == (
                route_condition(idx as nat, *route),
                route_filters(self.config, self.templates, self.byte_order, idx as nat, *route),
            ),
    {
        let pc = path_condition_exec(route);
        let hc = header_condition_exec(route);
        let mut cond = String::new();
        if idx > 0 {
            fmt::push_route_cond(&mut cond, "else ", pc.as_str(), hc.as_str(), idx as u128);
        } else {
            fmt::push_route_cond(&mut cond, "", pc.as_str(), hc.as_str(), idx as u128);
        }
        let (mut fs, calls) = self.route_filter_pairs(idx, route);
        let ghost fs0 = fs@.map_values(|f: Filter| f@);
        let host = self.config.resolve_host(route.dest.as_str());
        let host = match host {
            Some(h) => h,
            None => {
                assert(false);
                return Route { cond, filters: fs };
            },
        };
        let code = if host.instances.len() == 1 {
            let a = host.instances[0];
            assert(all_ipv4(host.instances@));
            assert(host.instances@[0].ip is V4);
            let mut c = String::new();
            fmt::push_route_dest(&mut c, ip_num_exec(&a.ip, self.byte_order), a.port as u128);
            assert(fs@.map_values(|f: Filter| f@) =~= fs0 + Seq::<(Seq<char>, Seq<char>)>::empty());
            c
        } else {
            let lb = match host.load_balancer {
                Some(lb) => lb,
                None => {
                    assert(false);
                    LoadBalancer::Ring(crate::config::beeline::RingLoadBalancer { size: 0 })
                },
            };
            let (lf, call) = self.generate_load_balancing(idx, &lb, &host.instances);
            let ghost prev = fs@;
            fs.push(lf);
            assert(fs@.map_values(|f: Filter| f@) =~= fs0 + seq![lf@]);
            call
        };
        let ghost fs1 = fs@.map_values(|f: Filter| f@);
        let joined = join_strings(&calls, "\n");
        let mut chain = String::new();
        fmt::push_route_chain(&mut chain, joined.as_str(), code.as_str());
        let mut idx_text = String::new();
        push_dec(&mut idx_text, idx as u128);
        let mut rf = self.templates.route.copy();
        rf.replace_code("idx", idx_text.as_str());
        rf.replace_code("route", chain.as_str());
        fs.push(rf);
        assert(fs@.map_values(|f: Filter| f@) =~= fs1.push(rf@));
        let r = Route { cond, filters: fs };
        assert(route_view(r).1 =~= route_filters(
            self.config,
            self.templates,
            self.byte_order,
            idx as nat,
            *route,
        ));
        r
    }

    /// The downstream routes, in the order of the configuration.
    pub fn generate_ds_routes(&self) -> (r: Vec<Route>)
        requires
            routes_ok(self.config),
        ensures
            r@.map_values(|x: Route| route_view(x)) == ds_routes(
                self.config,
                self.templates,
                self.byte_order,
            ),
    {
        let mut out: Vec<Route> = Vec::new();
        let mut idx: usize = 0;
        while idx < self.config.routes.len()
            invariant
                idx <= self.config.routes@.len(),
                routes_ok(self.config),
                out@.map_values(|x: Route| route_view(x)) == ds_routes(
                    self.config,
                    self.templates,
                    self.byte_order,
                ).take(idx as int),
            decreases self.config.routes.len() - idx,
        {
            assert(route_ok(self.config, self.config.routes@[idx as int]));
            let r = self.generate_route(idx, &self.config.routes[idx]);
            let ghost prev = out@;
            out.push(r);
            proof {
                let d = ds_routes(self.config, self.templates, self.byte_order);
                assert(d[idx as int] == route_view(r));
                assert(out@.map_values(|x: Route| route_view(x)) =~= prev.map_values(
                    |x: Route| route_view(x),
                ).push(route_view(r)));
            }
            assert(out@.map_values(|x: Route| route_view(x)) =~= ds_routes(
                self.config,
                self.templates,
                self.byte_order,
            ).take(idx as int + 1));
            idx = idx + 1;
        }
        assert(ds_routes(self.config, self.templates, self.byte_order).take(
            self.config.routes@.len() as int,
        ) =~= ds_routes(self.config, self.templates, self.byte_order));
        out
    }
}

/// The dispatch filter: the conditions of the downstream routes, one per
/// line, with a final `else` for requests that match none; then those of
/// the upstream routes.
pub open spec fn match_filter(
    tmpl: (Seq<char>, Seq<char>),
    downstream: Seq<Seq<char>>,
    upstream: Seq<Seq<char>>,
) -> (Seq<char>, Seq<char>) {
    (
        tmpl.0,
        replace_all(
            replace_all(
                tmpl.1,
                brace("downstream"@),
                join(downstream, "\n"@) + "else { bpf_err(\"ERROR: No match\"); }"@,
            ),
            brace("upstream"@),
            join(upstream, "\n"@),
        ),
    )
}

/// All filters of the program: the context, the RBAC policies, the filters
/// of each downstream route, and the dispatch.
pub open spec fn all_filters(config: Config, t: Templates, order: ByteOrder) -> Seq<
    (Seq<char>, Seq<char>),
> {
    let routes = ds_routes(config, t, order);
    seq![ctx_filter(t.ctx@, ctx_vars(config)), rbac_filter(t.rbac@, config.policies@, order)]
        + routes.map_values(|r: (Seq<char>, Seq<(Seq<char>, Seq<char>)>)| r.1).flatten() + seq![
        match_filter(
            t.matching@,
            routes.map_values(|r: (Seq<char>, Seq<(Seq<char>, Seq<char>)>)| r.0),
            Seq::empty(),
        ),
    ]
}

/// The program: the base program with the declarations and the code of all
/// filters, one per line, in place of `{{DEFS}}` and `{{FILTERS}}`.
pub open spec fn program(config: Config, t: Templates, order: ByteOrder, base: Seq<char>) -> Seq<char> {
    let fs = all_filters(config, t, order);
    replace_all(
        replace_all(
            base,
            "{{DEFS}}"@,
            join(fs.map_values(|f: (Seq<char>, Seq<char>)| f.0), "\n"@),
        ),
        "{{FILTERS}}"@,
        join(fs.map_values(|f: (Seq<char>, Seq<char>)| f.1), "\n"@),
    )
}

/// Whether the configuration can be compiled: its routes can, and its
/// policies name IPv4 addresses only.
pub open spec fn compilable(config: Config) -> bool {
    routes_ok(config) && policies_ipv4(config.policies@)
}

fn all_ipv4_exec(v: &Vec<SocketAddress>) -> (r: bool)
    ensures
        r == all_ipv4(v@),
{
    let mut i: usize = 0;
    while i < v.len()
        invariant
            i <= v@.len(),
            forall|j: int| 0 <= j < i ==> (#[trigger] v@[j]).ip is V4,
        decreases v.len() - i,
    {
        if let IpAddress::V6(_) = v[i].ip {
            return false;
        }
        i = i + 1;
    }
    true
}

fn route_ok_exec(config: &Config, r: &CRoute) -> (b: bool)
    ensures
        b == route_ok(*config, *r),
{
    match config.resolve_host(r.dest.as_str()) {
        Some(h) => {
            let n = h.instances.len();
            n >= 1 && (n < 2 || h.load_balancer.is_some()) && all_ipv4_exec(&h.instances)
        },
        None => false,
    }
}

/// Whether `config` can be compiled: every route names a host with IPv4
/// instances (several only with a load balancer) and a path of sensible
/// length, and every policy names IPv4 addresses.
pub fn is_compilable(config: &Config) -> (r: bool)
    ensures
        r == compilable(*config),
{
    let routes = &config.routes;
    let mut i: usize = 0;
    while i < routes.len()
        invariant
            i <= routes@.len(),
            *routes == config.routes,
            forall|j: int| 0 <= j < i ==> route_ok(*config, #[trigger] config.routes@[j]),
            forall|j: int|
                0 <= j < i ==> ((#[trigger] config.routes@[j]).pattern.path matches Some(p) ==> blen(p@)
                    + 12 <= usize::MAX),
        decreases routes.len() - i,
    {
        if let Some(p) = &routes[i].pattern.path {
            if utf8_len(p.as_str()) + 12 > usize::MAX as u128 {
                return false;
            }
        }
        if !route_ok_exec(config, &routes[i]) {
            return false;
        }
        i = i + 1;
    }
    let policies = &config.policies;
    let mut k: usize = 0;
    while k < policies.len()
        invariant
            k <= policies@.len(),
            *policies == config.policies,
            forall|j: int|
                0 <= j < k ==> (#[trigger] policies@[j].dest_ip4 matches Some(ip) ==> ip is V4) && (
                policies@[j].src_ip4 matches Some(ip) ==> ip is V4),
        decreases policies.len() - k,
    {
        if let Some(IpAddress::V6(_)) = policies[k].dest_ip4 {
            return false;
        }
        if let Some(IpAddress::V6(_)) = policies[k].src_ip4 {
            return false;
        }
        k = k + 1;
    }
    true
}

proof fn lemma_insert_vars_supported(vars: Seq<VarView>, vs: Seq<VarView>)
    requires
        vars_supported(vars),
        vars_supported(vs),
    ensures
        vars_supported(insert_vars(vars, vs)),
    decreases vs.len(),
{
    if vs.len() > 0 {
        assert(vars_supported(vs.drop_last())) by {
            assert forall|i: int| 0 <= i < vs.drop_last().len() implies var_supported(
                #[trigger] vs.drop_last()[i],
            ) by {
                assert(vs.drop_last()[i] == vs[i]);
            }
        }
        lemma_insert_vars_supported(vars, vs.drop_last());
        let w = insert_vars(vars, vs.drop_last());
        assert(var_supported(vs[vs.len() - 1]));
        assert forall|i: int| 0 <= i < insert_vars(vars, vs).len() implies var_supported(
            #[trigger] insert_vars(vars, vs)[i],
        ) by {
            if i < w.len() {
                assert(w[i] == insert_vars(vars, vs)[i]);
            }
        }
    }
}

/// Every variable of the context can be declared and initialised.
pub proof fn lemma_ctx_vars_supported(config: Config)
    ensures
        vars_supported(ctx_vars(config)),
{
    reveal_strlit("char");
    reveal_strlit("u32");
    let routes = config.routes@;
    let rs = routes.map_values(|r: CRoute| route_vars(r));
    assert forall|k: int| 0 <= k < rs.len() implies vars_supported(#[trigger] rs[k]) by {
        let r = routes[k];
        let fv = r.filters@.map_values(|f: CFilter| filter_vars(f));
        assert forall|j: int| 0 <= j < fv.len() implies vars_supported(#[trigger] fv[j]) by {
            assert(fv[j] == filter_vars(r.filters@[j]));
        }
        lemma_flatten_supported(fv);
        let h = header_vars(r);
        assert(vars_supported(h));
        assert(rs[k] == h + fv.flatten());
        assert forall|i: int| 0 <= i < rs[k].len() implies var_supported(#[trigger] rs[k][i]) by {
            if i < h.len() {
                assert(rs[k][i] == h[i]);
            } else {
                assert(rs[k][i] == fv.flatten()[i - h.len()]);
            }
        }
    }
    lemma_flatten_supported(rs);
    let fixed = fixed_vars(max_path_len(routes), has_jwt(routes));
    assert(vars_supported(fixed));
    let all = rs.flatten() + fixed;
    assert forall|i: int| 0 <= i < all.len() implies var_supported(#[trigger] all[i]) by {
        if i < rs.flatten().len() {
            assert(all[i] == rs.flatten()[i]);
        } else {
            assert(all[i] == fixed[i - rs.flatten().len()]);
        }
    }
    lemma_insert_vars_supported(Seq::empty(), all);
}

proof fn lemma_flatten_supported(s: Seq<Seq<VarView>>)
    requires
        forall|k: int| 0 <= k < s.len() ==> vars_supported(#[trigger] s[k]),
    ensures
        vars_supported(s.flatten()),
    decreases s.len(),
{
    if s.len() > 0 {
        lemma_flatten_supported(s.drop_first());
        let f = s.drop_first().flatten();
        assert(s.flatten() == s[0] + f);
        assert(vars_supported(s[0]));
        assert forall|i: int| 0 <= i < s.flatten().len() implies var_supported(
            #[trigger] s.flatten()[i],
        ) by {
            if i < s[0].len() {
                assert(s.flatten()[i] == s[0][i]);
            } else {
                assert(s.flatten()[i] == f[i - s[0].len()]);
            }
        }
    }
}

impl Compiler {
    /// The dispatch filter for the downstream and upstream routes.
    pub fn generate_match(&self, downstream: &Vec<Route>, upstream: &Vec<Route>) -> (r: Filter)
        ensures
            r@ == match_filter(
                self.templates.matching@,
                downstream@.map_values(|x: Route| x.cond@),
                upstream@.map_values(|x: Route| x.cond@),
            ),
    {
        let ds = conds_of(downstream);
        let mut ds_text = join_strings(&ds, "\n");
        push_str(&mut ds_text, "else { bpf_err(\"ERROR: No match\"); }");
        let us = conds_of(upstream);
        let us_text = join_strings(&us, "\n");
        let mut filter = self.templates.matching.copy();
        filter.replace_code("downstream", ds_text.as_str());
        filter.replace_code("upstream", us_text.as_str());
        filter
    }

    /// All filters of the program, in order.
    pub fn generate_filters(&self) -> (r: Vec<Filter>)
        requires
            compilable(self.config),
        ensures
            r@.map_values(|f: Filter| f@) == all_filters(self.config, self.templates, self.byte_order),
    {
        let vars = self.get_ctx_vars();
        proof {
            lemma_ctx_vars_supported(self.config);
        }
        let ctx = self.generate_ctx(&vars);
        let rbac = self.generate_rbac(&self.config.policies);
        let ds = self.generate_ds_routes();
        let us_routes: Vec<Route> = Vec::new();
        let match_reqs = self.generate_match(&ds, &us_routes);
        let ghost routes = ds_routes(self.config, self.templates, self.byte_order);
        let mut filters: Vec<Filter> = Vec::new();
        filters.push(ctx);
        filters.push(rbac);
        let ghost head = filters@.map_values(|f: Filter| f@);
        let ghost rf = routes.map_values(|r: (Seq<char>, Seq<(Seq<char>, Seq<char>)>)| r.1);
        let mut i: usize = 0;
        while i < ds.len()
            invariant
                i <= ds@.len(),
                ds@.map_values(|x: Route| route_view(x)) == routes,
                rf == routes.map_values(|r: (Seq<char>, Seq<(Seq<char>, Seq<char>)>)| r.1),
                filters@.map_values(|f: Filter| f@) == head + rf.take(i as int).flatten(),
            decreases ds.len() - i,
        {
            let route = &ds[i];
            assert(routes[i as int] == route_view(*route));
            let ghost before = filters@.map_values(|f: Filter| f@);
            let mut j: usize = 0;
            while j < route.filters.len()
                invariant
                    j <= route.filters@.len(),
                    filters@.map_values(|f: Filter| f@) == before + route.filters@.take(
                        j as int,
                    ).map_values(|f: Filter| f@),
                decreases route.filters.len() - j,
            {
                let f = route.filters[j].copy();
                let ghost prev = filters@;
                filters.push(f);
                proof {
                    assert(filters@.map_values(|f: Filter| f@) =~= prev.map_values(|f: Filter| f@).push(
                        f@,
                    ));
                    assert(route.filters@.take(j as int + 1).map_values(|f: Filter| f@)
                        =~= route.filters@.take(j as int).map_values(|f: Filter| f@).push(
                        route.filters@[j as int]@,
                    ));
                }
                j = j + 1;
            }
            proof {
                assert(route.filters@.take(route.filters@.len() as int) =~= route.filters@);
                assert(rf.take(i as int + 1) =~= rf.take(i as int).push(rf[i as int]));
                rf.take(i as int).lemma_flatten_push(rf[i as int]);
                assert(rf[i as int] == route_view(*route).1);
            }
            i = i + 1;
        }
        assert(rf.take(rf.len() as int) =~= rf);
        let ghost mid = filters@;
        filters.push(match_reqs);
        proof {
            assert(ds@.map_values(|x: Route| x.cond@) =~= routes.map_values(
                |r: (Seq<char>, Seq<(Seq<char>, Seq<char>)>)| r.0,
            ));
            assert(us_routes@.map_values(|x: Route| x.cond@) =~= Seq::<Seq<char>>::empty());
            assert(filters@.map_values(|f: Filter| f@) =~= mid.map_values(|f: Filter| f@).push(
                match_reqs@,
            ));
        }
        filters
    }

    /// The data-plane program built on the base program `base`.
    pub fn generate(&self, base: &str) -> (r: String)
        requires
            compilable(self.config),
        ensures
            r@ == program(self.config, self.templates, self.byte_order, base@),
    {
        let filters = self.generate_filters();
        let mut defs: Vec<String> = Vec::new();
        let mut code: Vec<String> = Vec::new();
        let ghost fs = filters@.map_values(|f: Filter| f@);
        let mut i: usize = 0;
        while i < filters.len()
            invariant
                i <= filters@.len(),
                fs == filters@.map_values(|f: Filter| f@),
                views(defs@) == fs.take(i as int).map_values(|f: (Seq<char>, Seq<char>)| f.0),
                views(code@) == fs.take(i as int).map_values(|f: (Seq<char>, Seq<char>)| f.1),
            decreases filters.len() - i,
        {
            let ghost (pd, pc) = (defs@, code@);
            defs.push(filters[i].defs.clone());
            code.push(filters[i].code.clone());
            proof {
                assert(views(defs@) =~= views(pd).push(fs[i as int].0));
                assert(views(code@) =~= views(pc).push(fs[i as int].1));
                assert(fs.take(i as int + 1).map_values(|f: (Seq<char>, Seq<char>)| f.0) =~= fs.take(
                    i as int,
                ).map_values(|f: (Seq<char>, Seq<char>)| f.0).push(fs[i as int].0));
                assert(fs.take(i as int + 1).map_values(|f: (Seq<char>, Seq<char>)| f.1) =~= fs.take(
                    i as int,
                ).map_values(|f: (Seq<char>, Seq<char>)| f.1).push(fs[i as int].1));
            }
            i = i + 1;
        }
        assert(fs.take(fs.len() as int) =~= fs);
        let defs_text = join_strings(&defs, "\n");
        let code_text = join_strings(&code, "\n");
        proof {
            reveal_strlit("{{DEFS}}");
            reveal_strlit("{{FILTERS}}");
        }
        let prog = replace_str(base, "{{DEFS}}", defs_text.as_str());
        replace_str(prog.as_str(), "{{FILTERS}}", code_text.as_str())
    }
}

/// The dispatch conditions of the routes.
fn conds_of(routes: &Vec<Route>) -> (r: Vec<String>)
    ensures
        views(r@) == routes@.map_values(|x: Route| x.cond@),
{
    let mut out: Vec<String> = Vec::new();
    let mut i: usize = 0;
    while i < routes.len()
        invariant
            i <= routes@.len(),
            views(out@) == routes@.take(i as int).map_values(|x: Route| x.cond@),
        decreases routes.len() - i,
    {
        let ghost prev = out@;
        out.push(routes[i].cond.clone());
        proof {
            assert(views(out@) =~= views(prev).push(routes@[i as int].cond@));
            assert(routes@.take(i as int + 1).map_values(|x: Route| x.cond@) =~= routes@.take(
                i as int,
            ).map_values(|x: Route| x.cond@).push(routes@[i as int].cond@));
        }
        i = i + 1;
    }
    assert(routes@.take(routes@.len() as int) =~= routes@);
    out
}

} // verus!
