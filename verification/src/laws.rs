//! Laws of the library: properties that relate several of its functions.

use crate::config::beeline::{cidr_of, ipv4_text, Cidr};
use crate::h1::dfa::{
    apply, build, end_target, prefix_len, push_seq, run, spec_end_pattern, spec_push, start_cursor,
    step_char, Cursor, DfaView, Op,
};
use crate::h1::Action;
use crate::lb_router::{connect_spec, consistent, release, route_spec, take_idle, RouterView};
use crate::downstream::conn_key;
use crate::policy::{keys_text, lemma_keys_len, policy_keys};
use crate::compiler::{ctx_vars, fixed_vars, has_jwt, insert_var, insert_vars, max_path_len, route_vars, shadows, VarView};
use crate::config::beeline::{Config, Route as CRoute};
use crate::parser::dfa::DfaState;
use crate::forwarding::{downstream_token, return_token, ForwardingDimension, ForwardingToken};
use crate::net::{gateway_of, ipv4_of, octet_of, octets_in, u32_of, ByteOrder, Ipv4Address, SocketAddress};
use crate::upstream::{addr_key_of, SockKey};
use crate::text::{ascii_lower, ascii_upper, all_digits, dec_chars, dec_value, digit_char, digit_value, find_char, is_digit};
use crate::baseline::{request_outcome, response_outcome, response_token, Tables};
use crate::forwarding::{Destination, PipelineError};
use crate::naive::{
    request_outcome as naive_request_outcome, response_outcome as naive_response_outcome, DestView,
    NaiveError, PipelineView,
};
use crate::config::Host;
use crate::table::{lemma_lookup_put, lookup};
use crate::compiler::policy_text;
use crate::h1::http::{pattern, status_code_ops};
use crate::config::beeline::Policy;
use crate::config::envoy;
use crate::config::envoy_hosts;
use crate::forwarding::{backend_id, backend_name};
use vstd::prelude::*;

verus! {

proof fn lemma_digit(d: nat)
    requires
        d < 10,
    ensures
        digit_value(digit_char(d)) == d,
        is_digit(digit_char(d)),
        d > 0 ==> digit_char(d) != '0',
{
}

/// The decimal form of a number is digits, starts with '0' only for zero,
/// and spells the number back.
pub proof fn lemma_dec_chars(n: nat)
    ensures
        all_digits(dec_chars(n)),
        dec_chars(n).len() >= 1,
        dec_value(dec_chars(n)) == n,
        dec_chars(n)[0] == '0' ==> n == 0,
        n < 10 ==> dec_chars(n).len() == 1,
        10 <= n < 100 ==> dec_chars(n).len() == 2,
        100 <= n < 1000 ==> dec_chars(n).len() == 3,
    decreases n,
{
    lemma_digit(n % 10);
    if n < 10 {
        assert(dec_chars(n) == seq![digit_char(n)]);
        assert(seq![digit_char(n)].drop_last() =~= Seq::<char>::empty());
        assert(dec_value(Seq::<char>::empty()) == 0);
    } else {
        lemma_dec_chars(n / 10);
        let p = dec_chars(n / 10);
        let s = dec_chars(n);
        assert(s == p.push(digit_char(n % 10)));
        assert(s.drop_last() =~= p);
        assert forall|i: int| 0 <= i < s.len() implies is_digit(#[trigger] s[i]) by {
            if i < p.len() {
                assert(s[i] == p[i]);
            }
        }
        assert(s[0] == p[0]);
    }
}

proof fn lemma_find_char_concat(x: Seq<char>, y: Seq<char>, c: char)
    requires
        forall|i: int| 0 <= i < x.len() ==> x[i] != c,
    ensures
        find_char(x + y, c) == x.len() + find_char(y, c),
    decreases x.len(),
{
    if x.len() > 0 {
        assert((x + y)[0] == x[0]);
        assert((x + y).drop_first() =~= x.drop_first() + y);
        lemma_find_char_concat(x.drop_first(), y, c);
    } else {
        assert(x + y =~= y);
    }
}

proof fn lemma_find_char_absent(x: Seq<char>, c: char)
    requires
        forall|i: int| 0 <= i < x.len() ==> x[i] != c,
    ensures
        find_char(x, c) == x.len(),
{
    lemma_find_char_concat(x, Seq::empty(), c);
    assert(x + Seq::<char>::empty() =~= x);
}

proof fn lemma_octet(n: u8)
    ensures
        octet_of(dec_chars(n as nat)) == Some(n),
        forall|i: int| 0 <= i < dec_chars(n as nat).len() ==> dec_chars(n as nat)[i] != '.',
        forall|i: int| 0 <= i < dec_chars(n as nat).len() ==> dec_chars(n as nat)[i] != '/',
{
    lemma_dec_chars(n as nat);
    let d = dec_chars(n as nat);
    assert forall|i: int| 0 <= i < d.len() implies d[i] != '.' && d[i] != '/' by {
        assert(is_digit(d[i]));
    }
}

proof fn lemma_split_at(x: Seq<char>, y: Seq<char>, c: char)
    requires
        forall|i: int| 0 <= i < x.len() ==> x[i] != c,
    ensures
        find_char(x + seq![c] + y, c) == x.len(),
        (x + seq![c] + y).take(x.len() as int) == x,
        (x + seq![c] + y).skip(x.len() as int + 1) == y,
        x.len() < (x + seq![c] + y).len(),
{
    let s = x + seq![c] + y;
    assert(s =~= x + (seq![c] + y));
    lemma_find_char_concat(x, seq![c] + y, c);
    assert(s.take(x.len() as int) =~= x);
    assert(s.skip(x.len() as int + 1) =~= y);
}

/// The dotted-decimal form of an address reads back as the address.
pub proof fn law_ipv4_text_roundtrip(a: Ipv4Address)
    ensures
        ipv4_of(ipv4_text(a)) == Some(a),
{
    lemma_octet(a.0);
    lemma_octet(a.1);
    lemma_octet(a.2);
    lemma_octet(a.3);
    let d0 = dec_chars(a.0 as nat);
    let d1 = dec_chars(a.1 as nat);
    let d2 = dec_chars(a.2 as nat);
    let d3 = dec_chars(a.3 as nat);
    let dot = seq!['.'];
    let s2 = d2 + dot + d3;
    let s1 = d1 + dot + s2;
    let t = ipv4_text(a);
    assert(t =~= d0 + dot + s1);
    lemma_split_at(d0, s1, '.');
    lemma_split_at(d1, s2, '.');
    lemma_split_at(d2, d3, '.');
    lemma_find_char_absent(d3, '.');
}

proof fn lemma_concat_absent(x: Seq<char>, y: Seq<char>, c: char)
    requires
        forall|i: int| 0 <= i < x.len() ==> x[i] != c,
        forall|i: int| 0 <= i < y.len() ==> y[i] != c,
    ensures
        forall|i: int| 0 <= i < (x + y).len() ==> (x + y)[i] != c,
{
    assert forall|i: int| 0 <= i < (x + y).len() implies (x + y)[i] != c by {
        if i < x.len() {
            assert((x + y)[i] == x[i]);
        } else {
            assert((x + y)[i] == y[i - x.len()]);
        }
    }
}

proof fn lemma_ipv4_text_no_slash(a: Ipv4Address)
    ensures
        forall|i: int| 0 <= i < ipv4_text(a).len() ==> ipv4_text(a)[i] != '/',
{
    lemma_octet(a.0);
    lemma_octet(a.1);
    lemma_octet(a.2);
    lemma_octet(a.3);
    let d0 = dec_chars(a.0 as nat);
    let d1 = dec_chars(a.1 as nat);
    let d2 = dec_chars(a.2 as nat);
    let d3 = dec_chars(a.3 as nat);
    let dot = seq!['.'];
    assert(dot[0] != '/');
    lemma_concat_absent(d0, dot, '/');
    lemma_concat_absent(d0 + dot, d1, '/');
    lemma_concat_absent(d0 + dot + d1, dot, '/');
    lemma_concat_absent(d0 + dot + d1 + dot, d2, '/');
    lemma_concat_absent(d0 + dot + d1 + dot + d2, dot, '/');
    lemma_concat_absent(d0 + dot + d1 + dot + d2 + dot, d3, '/');
}

/// Writing a network as "address/prefix" and reading it back gives the network.
pub proof fn law_cidr_text_roundtrip(c: Cidr)
    ensures
        cidr_of(ipv4_text(c.addr) + seq!['/'] + dec_chars(c.mask as nat)) == Some(c),
{
    law_ipv4_text_roundtrip(c.addr);
    lemma_ipv4_text_no_slash(c.addr);
    lemma_dec_chars(c.mask as nat);
    let t = ipv4_text(c.addr);
    let m = dec_chars(c.mask as nat);
    let s = t + seq!['/'] + m;
    assert(s =~= t + (seq!['/'] + m));
    lemma_find_char_concat(t, seq!['/'] + m, '/');
    assert(find_char(s, '/') == t.len());
    let rest = s.skip(t.len() as int + 1);
    assert(rest =~= m);
    assert forall|i: int| 0 <= i < m.len() implies m[i] != '/' by {
        assert(is_digit(m[i]));
    }
    lemma_find_char_absent(m, '/');
    assert(s.take(t.len() as int) =~= t);
    assert(is_digit(m[0]));
    assert(u32_of(m) == Some(c.mask));
}

/// The conn-id that a forwarded request carries leads its response back:
/// the decimal form of the origin port, read by `forward_us_conn` into a
/// token that names no backend instance, gives the token under which
/// `forward_ds_conn` registered the downstream connection.
pub proof fn law_conn_id_leads_back(ft: ForwardingToken, port: u16)
    requires
        ft.backend == ForwardingDimension::<u8>::DontCare,
        ft.instance == ForwardingDimension::<u16>::DontCare,
    ensures
        u32_of(dec_chars(port as nat)) == Some(port as u32),
        downstream_token(ft, port as u32) == return_token(port),
{
    lemma_dec_chars(port as nat);
    let d = dec_chars(port as nat);
    assert(is_digit(d[0]));
}

/// Every input of `s` is its own lower case.
pub open spec fn all_lower(s: Seq<char>) -> bool {
    forall|i: int| 0 <= i < s.len() ==> ascii_lower(#[trigger] s[i]) == s[i]
}

/// Every lower-case key of `a` is in `b`, with the same target.
pub open spec fn keeps_lower(
    a: Map<(u16, char), (u16, Action)>,
    b: Map<(u16, char), (u16, Action)>,
) -> bool {
    forall|k: (u16, char)|
        ascii_lower(k.1) == k.1 && #[trigger] a.contains_key(k) ==> b.contains_key(k) && b[k]
            == a[k]
}

proof fn lemma_upper_not_lower(ch: char)
    requires
        ascii_lower(ch) == ch,
        ascii_upper(ch) != ch,
    ensures
        ascii_lower(ascii_upper(ch)) != ascii_upper(ch),
{
    assert('a' <= ch && ch <= 'z');
    let u = ascii_upper(ch);
    assert(u == ((ch as u32) - 32) as char);
    assert('A' <= u && u <= 'Z');
}

proof fn lemma_step_keeps(c: Cursor, at: u16, ch: char)
    requires
        ascii_lower(ch) == ch,
    ensures
        keeps_lower(c.dfa.trans, step_char(c, at, ch).0.dfa.trans),
        step_char(c, at, ch).2 is None ==> step_char(c, at, ch).0.dfa.trans.contains_key((at, ch))
            && step_char(c, at, ch).0.dfa.trans[(at, ch)].0 == step_char(c, at, ch).1,
{
    if !c.dfa.trans.contains_key((at, ch)) {
        let uc = ascii_upper(ch);
        if uc != ch {
            lemma_upper_not_lower(ch);
        }
    }
}

proof fn lemma_push_seq_keeps(c: Cursor, at: u16, s: Seq<char>)
    requires
        all_lower(s),
    ensures
        keeps_lower(c.dfa.trans, push_seq(c, at, s).0.dfa.trans),
    decreases s.len(),
{
    if s.len() > 0 {
        assert(ascii_lower(s[0]) == s[0]);
        lemma_step_keeps(c, at, s[0]);
        let r = step_char(c, at, s[0]);
        if r.2 is None {
            let rest = s.drop_first();
            assert forall|i: int| 0 <= i < rest.len() implies ascii_lower(#[trigger] rest[i])
                == rest[i] by {
                assert(rest[i] == s[i + 1]);
            }
            lemma_push_seq_keeps(r.0, r.1, rest);
        }
    }
}

/// Following lower-case inputs while building a pattern and then looking
/// them up from where the pattern began reaches the state where it ended.
pub proof fn law_pushed_inputs_found(c: Cursor, at: u16, s: Seq<char>)
    requires
        all_lower(s),
        push_seq(c, at, s).2 is None,
    ensures
        push_seq(c, at, s).0.dfa.walk_lower(at, s) == Some(push_seq(c, at, s).1),
    decreases s.len(),
{
    if s.len() > 0 {
        assert(ascii_lower(s[0]) == s[0]);
        lemma_step_keeps(c, at, s[0]);
        let r = step_char(c, at, s[0]);
        let rest = s.drop_first();
        assert forall|i: int| 0 <= i < rest.len() implies ascii_lower(#[trigger] rest[i])
            == rest[i] by {
            assert(rest[i] == s[i + 1]);
        }
        law_pushed_inputs_found(r.0, r.1, rest);
        lemma_push_seq_keeps(r.0, r.1, rest);
        let f = push_seq(r.0, r.1, rest).0.dfa;
        assert(f.trans.contains_key((at, s[0])));
    }
}

/// A pattern of lower-case inputs pushed onto a builder is found again by
/// looking it up from the state the builder started in: the lookup reaches
/// the builder's new current state.
pub proof fn law_pushed_pattern_found(c: Cursor, s: Seq<char>)
    requires
        all_lower(s),
        spec_push(c, s).1 is None,
    ensures
        spec_push(c, s).0.dfa.walk_lower(c.sid, s) == Some(spec_push(c, s).0.sid),
{
    law_pushed_inputs_found(c, c.sid, s);
}

/// Whether `s` leads from `at` to `end` in `d` along transitions without
/// actions.
pub open spec fn plain_path(d: DfaView, at: u16, s: Seq<char>, end: u16) -> bool
    decreases s.len(),
{
    if s.len() == 0 {
        at == end
    } else {
        &&& d.trans.contains_key((at, s[0]))
        &&& d.trans[(at, s[0])].1 == Action::NoAction
        &&& plain_path(d, d.trans[(at, s[0])].0, s.drop_first(), end)
    }
}

proof fn lemma_rest_lower(s: Seq<char>)
    requires
        all_lower(s),
        s.len() > 0,
    ensures
        all_lower(s.drop_first()),
        ascii_lower(s[0]) == s[0],
{
    assert forall|i: int| 0 <= i < s.drop_first().len() implies ascii_lower(#[trigger] s.drop_first()[i])
        == s.drop_first()[i] by {
        assert(s.drop_first()[i] == s[i + 1]);
    }
}

proof fn lemma_plain_path_kept(a: DfaView, b: DfaView, at: u16, s: Seq<char>, end: u16)
    requires
        keeps_lower(a.trans, b.trans),
        all_lower(s),
        plain_path(a, at, s, end),
    ensures
        plain_path(b, at, s, end),
    decreases s.len(),
{
    if s.len() > 0 {
        lemma_rest_lower(s);
        assert(a.trans.contains_key((at, s[0])));
        lemma_plain_path_kept(a, b, a.trans[(at, s[0])].0, s.drop_first(), end);
    }
}

proof fn lemma_push_seq_plain(c: Cursor, at: u16, s: Seq<char>)
    requires
        all_lower(s),
        !c.starts_capture(),
        push_seq(c, at, s).2 is None,
    ensures
        plain_path(push_seq(c, at, s).0.dfa, at, s, push_seq(c, at, s).1),
        !push_seq(c, at, s).0.starts_capture(),
    decreases s.len(),
{
    if s.len() > 0 {
        lemma_rest_lower(s);
        lemma_step_keeps(c, at, s[0]);
        let r = step_char(c, at, s[0]);
        let rest = s.drop_first();
        if !c.dfa.trans.contains_key((at, s[0])) {
            let uc = ascii_upper(s[0]);
            if uc != s[0] {
                lemma_upper_not_lower(s[0]);
            }
        }
        assert(r.0.dfa.trans.contains_key((at, s[0])) && r.0.dfa.trans[(at, s[0])] == (
            r.1,
            Action::NoAction,
        ));
        lemma_push_seq_plain(r.0, r.1, rest);
        lemma_push_seq_keeps(r.0, r.1, rest);
        let f = push_seq(r.0, r.1, rest).0.dfa;
        assert(f.trans.contains_key((at, s[0])));
        assert(f.trans[(at, s[0])] == r.0.dfa.trans[(at, s[0])]);
    }
}

proof fn lemma_push_seq_follows(c: Cursor, at: u16, s: Seq<char>, end: u16)
    requires
        !c.starts_capture(),
        plain_path(c.dfa, at, s, end),
    ensures
        push_seq(c, at, s) == (c, end, Option::<crate::h1::DfaError>::None),
    decreases s.len(),
{
    if s.len() > 0 {
        lemma_push_seq_follows(c, c.dfa.trans[(at, s[0])].0, s.drop_first(), end);
    }
}

/// Pushing the same lower-case inputs a second time from the same state,
/// outside a capture, reuses the path the first push made: the DFA stays
/// as it was and the pattern ends in the same state.
pub proof fn law_push_twice(c: Cursor, s: Seq<char>)
    requires
        all_lower(s),
        !c.starts_capture(),
        spec_push(c, s).1 is None,
    ensures
        ({
            let c1 = spec_push(c, s).0;
            spec_push(c1.with_sid(c.sid), s) == (c1, Option::<crate::h1::DfaError>::None)
        }),
{
    lemma_push_seq_plain(c, c.sid, s);
    let r = push_seq(c, c.sid, s);
    let c1 = r.0.with_sid(r.1);
    let c2 = c1.with_sid(c.sid);
    assert(c2.dfa == r.0.dfa);
    assert(!c2.starts_capture());
    lemma_push_seq_follows(c2, c.sid, s, r.1);
    assert(c2.with_sid(r.1) == c1);
}

/// Looking up no input stays put; looking up one more input follows its
/// lower-case transition; and a pattern is looked up as its lower case.
pub proof fn law_walk_lower(d: DfaView, from: u16, w: Seq<char>, c: char)
    ensures
        d.walk_lower(from, Seq::empty()) == Some(from),
        d.walk_lower(from, w.push(c)) == match d.walk_lower(from, w) {
            Some(t) => if d.trans.contains_key((t, ascii_lower(c))) {
                Some(d.trans[(t, ascii_lower(c))].0)
            } else {
                None::<u16>
            },
            None => None,
        },
        d.walk_lower(from, w) == d.walk_lower(from, w.map_values(|x: char| ascii_lower(x))),
    decreases w.len(),
{
    if w.len() > 0 {
        assert(w.push(c).drop_first() =~= w.drop_first().push(c));
        assert(w.push(c)[0] == w[0]);
        if d.trans.contains_key((from, ascii_lower(w[0]))) {
            law_walk_lower(d, d.trans[(from, ascii_lower(w[0]))].0, w.drop_first(), c);
        }
        let lw = w.map_values(|x: char| ascii_lower(x));
        assert(lw.drop_first() =~= w.drop_first().map_values(|x: char| ascii_lower(x)));
        lemma_lower_twice(w[0]);
        if d.trans.contains_key((from, ascii_lower(w[0]))) {
            law_walk_lower(d, d.trans[(from, ascii_lower(w[0]))].0, w.drop_first(), c);
        }
    } else {
        assert(w.push(c).drop_first() =~= Seq::<char>::empty());
        assert(w.push(c)[0] == c);
        if d.trans.contains_key((from, ascii_lower(c))) {
            assert(d.walk_lower(d.trans[(from, ascii_lower(c))].0, Seq::<char>::empty()) == Some(
                d.trans[(from, ascii_lower(c))].0,
            ));
        }
        assert(w.map_values(|x: char| ascii_lower(x)) =~= Seq::<char>::empty());
    }
}

proof fn lemma_lower_twice(c: char)
    ensures
        ascii_lower(ascii_lower(c)) == ascii_lower(c),
{
}

/// Two transitions of a DFA with the same state and input are the same:
/// the automaton is deterministic, and a lower-case input's transition is
/// what looking that input up from its state finds.
pub proof fn law_transitions_deterministic(d: DfaView, t: (u16, u16, char, Action), u: (u16, u16, char, Action))
    requires
        d.get(t.0, t.2) == Some((t.1, t.3)),
        d.get(u.0, u.2) == Some((u.1, u.3)),
    ensures
        t.0 == u.0 && t.2 == u.2 ==> t == u,
        ascii_lower(t.2) == t.2 ==> d.walk_lower(t.0, seq![t.2]) == Some(t.1),
{
    assert(seq![t.2].drop_first() =~= Seq::<char>::empty());
    assert(d.walk_lower(t.1, Seq::<char>::empty()) == Some(t.1));
}

/// Capturing a field value with a fresh id takes one more capture id;
/// with a given id, the capture ids stay as they were.
pub proof fn law_capture_counts(c: crate::h2::dfa::Cursor, cid: Option<u8>)
    requires
        cid is None ==> c.dfa.cid < 255,
    ensures
        crate::h2::dfa::spec_capture(c, cid).dfa.cid == match cid {
            Some(_) => c.dfa.cid as int,
            None => c.dfa.cid + 1,
        },
{
}

/// Whether every ASCII letter input of `d` is there in both cases or in
/// neither, as inserting a transition stores it.
pub open spec fn paired(d: DfaView) -> bool {
    forall|f: u16, c: char|
        'a' <= c && c <= 'z' ==> (#[trigger] d.trans.contains_key((f, c)) <==> d.trans.contains_key(
            (f, ascii_upper(c)),
        ))
}

/// Every entry of `a` is in `b`, unchanged.
pub open spec fn keeps_all(a: Map<(u16, char), (u16, Action)>, b: Map<(u16, char), (u16, Action)>) -> bool {
    forall|k: (u16, char)| #[trigger] a.contains_key(k) ==> b.contains_key(k) && b[k] == a[k]
}

proof fn lemma_case_pair(ch: char)
    ensures
        'A' <= ch && ch <= 'Z' ==> 'a' <= ascii_lower(ch) && ascii_lower(ch) <= 'z' && ascii_upper(
            ascii_lower(ch),
        ) == ch && ascii_upper(ch) == ch,
        'a' <= ch && ch <= 'z' ==> ascii_lower(ch) == ch && 'A' <= ascii_upper(ch) && ascii_upper(ch)
            <= 'Z' && ascii_lower(ascii_upper(ch)) == ch,
        !('A' <= ch && ch <= 'Z') && !('a' <= ch && ch <= 'z') ==> ascii_lower(ch) == ch
            && ascii_upper(ch) == ch,
{
    let n = ch as u32;
    if 'A' <= ch && ch <= 'Z' {
        let l = ascii_lower(ch);
        assert(l == ((n + 32) as char));
        assert(l as u32 == n + 32);
        assert(ascii_upper(l) == ((l as u32 - 32) as char));
    }
    if 'a' <= ch && ch <= 'z' {
        let u = ascii_upper(ch);
        assert(u as u32 == n - 32);
        assert(ascii_lower(u) == ((u as u32 + 32) as char));
    }
}

proof fn lemma_ins_new(d: DfaView, from: u16, to: u16, ch: char, a: Action)
    requires
        paired(d),
        !d.trans.contains_key((from, ch)),
    ensures
        keeps_all(d.trans, d.ins(from, to, ch, a).0.trans),
        paired(d.ins(from, to, ch, a).0),
        d.ins(from, to, ch, a).0.trans.contains_key((from, ch)),
        d.ins(from, to, ch, a).0.trans[(from, ch)] == (to, a),
        d.ins(from, to, ch, a).0.states == d.states,
{
    lemma_case_pair(ch);
    let lc = ascii_lower(ch);
    let uc = ascii_upper(ch);
    if 'A' <= ch && ch <= 'Z' {
        assert(!d.trans.contains_key((from, lc)));
    }
    assert(!d.trans.contains_key((from, lc)));
    let n = d.ins(from, to, ch, a).0;
    assert forall|f: u16, c: char| 'a' <= c && c <= 'z' implies (#[trigger] n.trans.contains_key((f, c))
        <==> n.trans.contains_key((f, ascii_upper(c)))) by {
        lemma_case_pair(c);
        assert(d.trans.contains_key((f, c)) <==> d.trans.contains_key((f, ascii_upper(c))));
        if lc != uc {
            lemma_case_pair(lc);
        }
    }
}

proof fn lemma_step_plain(c: Cursor, at: u16, ch: char)
    requires
        paired(c.dfa),
        !c.starts_capture(),
        step_char(c, at, ch).2 is None,
    ensures
        keeps_all(c.dfa.trans, step_char(c, at, ch).0.dfa.trans),
        paired(step_char(c, at, ch).0.dfa),
        !step_char(c, at, ch).0.starts_capture(),
        step_char(c, at, ch).0.dfa.trans.contains_key((at, ch)),
        step_char(c, at, ch).0.dfa.trans[(at, ch)] == (step_char(c, at, ch).1, Action::NoAction),
{
    if !c.dfa.trans.contains_key((at, ch)) {
        let d2 = c.dfa.alloc_state().0;
        let next = c.dfa.alloc_state().1;
        lemma_ins_new(d2, at, next, ch, Action::NoAction);
    }
}

proof fn lemma_push_seq_plain_all(c: Cursor, at: u16, s: Seq<char>)
    requires
        paired(c.dfa),
        !c.starts_capture(),
        push_seq(c, at, s).2 is None,
    ensures
        plain_path(push_seq(c, at, s).0.dfa, at, s, push_seq(c, at, s).1),
        keeps_all(c.dfa.trans, push_seq(c, at, s).0.dfa.trans),
        paired(push_seq(c, at, s).0.dfa),
        !push_seq(c, at, s).0.starts_capture(),
    decreases s.len(),
{
    if s.len() > 0 {
        lemma_step_plain(c, at, s[0]);
        let r = step_char(c, at, s[0]);
        lemma_push_seq_plain_all(r.0, r.1, s.drop_first());
        let f = push_seq(r.0, r.1, s.drop_first()).0.dfa;
        assert(r.0.dfa.trans.contains_key((at, s[0])));
        assert(f.trans[(at, s[0])] == r.0.dfa.trans[(at, s[0])]);
        assert forall|k: (u16, char)| #[trigger] c.dfa.trans.contains_key(k) implies f.trans.contains_key(k)
            && f.trans[k] == c.dfa.trans[k] by {
            assert(r.0.dfa.trans.contains_key(k));
        }
    }
}

/// Pushing the same inputs a second time from the same state, outside a
/// capture, reuses the path the first push made, in a DFA whose letter
/// inputs come in both cases (as inserting transitions keeps them): the
/// DFA stays as it was and the pattern ends in the same state.
pub proof fn law_push_twice_any_case(c: Cursor, s: Seq<char>)
    requires
        paired(c.dfa),
        !c.starts_capture(),
        spec_push(c, s).1 is None,
    ensures
        ({
            let c1 = spec_push(c, s).0;
            spec_push(c1.with_sid(c.sid), s) == (c1, Option::<crate::h1::DfaError>::None)
        }),
{
    lemma_push_seq_plain_all(c, c.sid, s);
    let r = push_seq(c, c.sid, s);
    let c1 = r.0.with_sid(r.1);
    let c2 = c1.with_sid(c.sid);
    assert(c2.dfa == r.0.dfa);
    lemma_push_seq_follows(c2, c.sid, s, r.1);
    assert(c2.with_sid(r.1) == c1);
}

/// Inserting a transition keeps the letter inputs of a DFA in both cases,
/// and a DFA without transitions has them so: every DFA the builders make
/// is `paired`.
pub proof fn law_ins_keeps_paired(d: DfaView, from: u16, to: u16, ch: char, a: Action)
    requires
        paired(d),
    ensures
        paired(d.ins(from, to, ch, a).0),
        paired(d.with_trans(Map::empty())),
{
    if !d.trans.contains_key((from, ch)) {
        lemma_ins_new(d, from, to, ch, a);
    } else {
        lemma_case_pair(ch);
        let lc = ascii_lower(ch);
        if 'A' <= ch && ch <= 'Z' {
            assert(d.trans.contains_key((from, lc)));
        }
        let n = d.ins(from, to, ch, a).0;
        assert forall|f: u16, c: char| 'a' <= c && c <= 'z' implies (#[trigger] n.trans.contains_key((f, c))
            <==> n.trans.contains_key((f, ascii_upper(c)))) by {
            lemma_case_pair(c);
            assert(d.trans.contains_key((f, c)) <==> d.trans.contains_key((f, ascii_upper(c))));
        }
    }
}

/// Turning a connection key around twice gives the key back.
pub proof fn law_invert_twice(k: SockKey)
    ensures
        k.inverted().inverted() == k,
{
}

/// The gateway of a gateway is itself.
pub proof fn law_gateway_fixed(ip: Ipv4Address)
    ensures
        gateway_of(gateway_of(ip)) == gateway_of(ip),
{
}

proof fn lemma_pack_distinct(a0: u8, a1: u8, a2: u8, a3: u8, b0: u8, b1: u8, b2: u8, b3: u8)
    by (bit_vector)
    requires
        a0 as u32 + a1 as u32 * 0x100 + a2 as u32 * 0x1_0000 + a3 as u32 * 0x100_0000 == b0 as u32
            + b1 as u32 * 0x100 + b2 as u32 * 0x1_0000 + b3 as u32 * 0x100_0000,
    ensures
        a0 == b0 && a1 == b1 && a2 == b2 && a3 == b3,
{
}

proof fn lemma_pack_value(a0: u8, a1: u8, a2: u8, a3: u8)
    ensures
        (a0 as int + a1 as int * 0x100 + a2 as int * 0x1_0000 + a3 as int * 0x100_0000) as u32
            == a0 as u32 + a1 as u32 * 0x100 + a2 as u32 * 0x1_0000 + a3 as u32 * 0x100_0000,
{
    let v = a0 as int + a1 as int * 0x100 + a2 as int * 0x1_0000 + a3 as int * 0x100_0000;
    assert(0 <= v < 0x1_0000_0000);
}

/// Different addresses pack into different numbers, in either byte order.
pub proof fn law_octets_distinct(a: Ipv4Address, b: Ipv4Address, order: ByteOrder)
    ensures
        octets_in(a, order) == octets_in(b, order) ==> a == b,
{
    lemma_pack_value(a.0, a.1, a.2, a.3);
    lemma_pack_value(b.0, b.1, b.2, b.3);
    lemma_pack_value(a.3, a.2, a.1, a.0);
    lemma_pack_value(b.3, b.2, b.1, b.0);
    if octets_in(a, order) == octets_in(b, order) {
        match order {
            ByteOrder::Little => lemma_pack_distinct(a.0, a.1, a.2, a.3, b.0, b.1, b.2, b.3),
            ByteOrder::Big => lemma_pack_distinct(a.3, a.2, a.1, a.0, b.3, b.2, b.1, b.0),
        }
    }
}

/// Two IPv4 socket addresses with the same key are the same address.
pub proof fn law_addr_key_distinct(a: SocketAddress, b: SocketAddress, order: ByteOrder)
    requires
        addr_key_of(a, order) is Ok,
        addr_key_of(a, order) == addr_key_of(b, order),
    ensures
        a == b,
{
    law_octets_distinct(a.ip->V4_0, b.ip->V4_0, order);
}

/// A transition added to a parser DFA is taken on its input in either case,
/// and every transition that was there stays as it was.
pub proof fn law_added_transition_any_case(d: DfaState, from: u16, to: u16, c: char, action: u16)
    requires
        d.add(from, to, c, action) is Some,
    ensures
        d.add(from, to, c, action)->0.trans[(from, ascii_lower(c))] == (to, action),
        d.add(from, to, c, action)->0.trans[(from, ascii_upper(c))] == (to, action),
        forall|k: (u16, char)|
            #[trigger] d.trans.contains_key(k) ==> d.add(from, to, c, action)->0.trans.contains_key(k)
                && d.add(from, to, c, action)->0.trans[k] == d.trans[k],
{
}

proof fn lemma_flatten_has<A>(ss: Seq<Seq<A>>, i: int, k: int)
    requires
        0 <= i < ss.len(),
        0 <= k < ss[i].len(),
    ensures
        ss.flatten().contains(ss[i][k]),
    decreases ss.len(),
{
    let f = ss.flatten();
    assert(f == ss.first() + ss.drop_first().flatten());
    if i == 0 {
        assert(f[k] == ss[0][k]);
    } else {
        lemma_flatten_has(ss.drop_first(), i - 1, k);
        let rest = ss.drop_first().flatten();
        let j = choose|j: int| 0 <= j < rest.len() && rest[j] == ss[i][k];
        assert(f[ss.first().len() + j] == rest[j]);
    }
}

/// Adding variables keeps those there and leaves each added one shadowed
/// by some variable of the result.
pub proof fn law_insert_vars_cover(vars: Seq<VarView>, vs: Seq<VarView>)
    ensures
        vars.len() <= insert_vars(vars, vs).len(),
        forall|j: int| 0 <= j < vars.len() ==> insert_vars(vars, vs)[j] == vars[j],
        forall|i: int|
            #![trigger vs[i]]
            0 <= i < vs.len() ==> exists|j: int|
                0 <= j < insert_vars(vars, vs).len() && shadows(
                    #[trigger] insert_vars(vars, vs)[j],
                    vs[i],
                ),
    decreases vs.len(),
{
    if vs.len() > 0 {
        let front = vs.drop_last();
        law_insert_vars_cover(vars, front);
        let p = insert_vars(vars, front);
        let r = insert_vars(vars, vs);
        assert(r == insert_var(p, vs.last()));
        assert forall|i: int| #![trigger vs[i]] 0 <= i < vs.len() implies exists|j: int|
            0 <= j < r.len() && shadows(#[trigger] r[j], vs[i]) by {
            if i < vs.len() - 1 {
                assert(vs[i] == front[i]);
                let j = choose|j: int| 0 <= j < p.len() && shadows(#[trigger] p[j], front[i]);
                assert(r[j] == p[j]);
            } else if exists|j: int| 0 <= j < p.len() && shadows(p[j], vs.last()) {
                let j = choose|j: int| 0 <= j < p.len() && shadows(p[j], vs.last());
                assert(r[j] == p[j]);
            } else {
                assert(r[p.len() as int] == vs.last());
            }
        }
    }
}

/// Every variable that a route of the configuration uses, and every fixed
/// variable, is declared in the generated context: some context variable
/// of the same name covers it.
pub proof fn law_ctx_vars_declared(config: Config, v: VarView)
    requires
        fixed_vars(max_path_len(config.routes@), has_jwt(config.routes@)).contains(v) || exists|i: int|
            0 <= i < config.routes@.len() && route_vars(#[trigger] config.routes@[i]).contains(v),
    ensures
        exists|j: int| 0 <= j < ctx_vars(config).len() && shadows(#[trigger] ctx_vars(config)[j], v),
{
    let routes = config.routes@;
    let per = routes.map_values(|r: CRoute| route_vars(r));
    let fixed = fixed_vars(max_path_len(routes), has_jwt(routes));
    let all = per.flatten() + fixed;
    assert(ctx_vars(config) == insert_vars(Seq::empty(), all));
    law_insert_vars_cover(Seq::empty(), all);
    if fixed.contains(v) {
        let k = choose|k: int| 0 <= k < fixed.len() && fixed[k] == v;
        assert(all[per.flatten().len() + k] == v);
    } else {
        let i = choose|i: int| 0 <= i < routes.len() && route_vars(#[trigger] routes[i]).contains(v);
        let k = choose|k: int| 0 <= k < route_vars(routes[i]).len() && route_vars(routes[i])[k] == v;
        assert(per[i] == route_vars(routes[i]));
        lemma_flatten_has(per, i, k);
        let m = choose|m: int| 0 <= m < per.flatten().len() && per.flatten()[m] == v;
        assert(all[m] == v);
    }
}

proof fn lemma_keys_ascending(i: int, j: int)
    requires
        0 <= i < j < 25,
    ensures
        keys_text()[i] < keys_text()[j],
    decreases j - i,
{
    reveal_strlit("abcdefghijklmopqrstuvwxyz");
    let k = keys_text();
    assert(forall|x: int| 0 <= x < 24 ==> #[trigger] k[x] < k[x + 1]) by {
        assert(k =~= seq![
            'a', 'b', 'c', 'd', 'e', 'f', 'g', 'h', 'i', 'j', 'k', 'l', 'm', 'o', 'p', 'q', 'r',
            's', 't', 'u', 'v', 'w', 'x', 'y', 'z',
        ]);
    }
    if j > i + 1 {
        lemma_keys_ascending(i, j - 1);
        assert(k[j - 1] < k[j]);
    } else {
        assert(k[i] < k[i + 1]);
    }
}

/// The header names that the generated policies use are distinct, so that
/// `n` of them make `n` different headers.
pub proof fn law_policy_keys_distinct(n: nat)
    requires
        n <= 25,
    ensures
        policy_keys(n).no_duplicates(),
{
    lemma_keys_len();
    let p = policy_keys(n);
    assert forall|i: int, j: int| 0 <= i < p.len() && 0 <= j < p.len() && i != j implies p[i]
        != p[j] by {
        if i < j {
            lemma_keys_ascending(i, j);
        } else {
            lemma_keys_ascending(j, i);
        }
        assert(p[i][0] == keys_text()[i]);
        assert(p[j][0] == keys_text()[j]);
    }
}

/// The HTTP/1.1 and the HTTP/2 handlers announce an upstream connection
/// under the same key, with TLS and without.
pub proof fn law_upstream_keys_agree(
    us_local: SocketAddress,
    us_remote: SocketAddress,
    tls: bool,
    order: ByteOrder,
)
    ensures
        (if tls {
            conn_key(us_local, us_remote, order)
        } else {
            conn_key(us_remote, us_local, order)
        }) == (if tls {
            conn_key(us_remote, us_local, order).inverted()
        } else {
            conn_key(us_remote, us_local, order)
        }),
{
}

proof fn lemma_release_consistent(v: RouterView, cfd: i32, bfd: i32)
    requires
        consistent(v),
        v.pool.len() == v.backends.len(),
        v.conns.contains_key(cfd),
        v.conns[cfd] == bfd,
        v.peers.contains_key(bfd),
        !v.peers.contains_key(cfd),
        release(v, cfd, bfd) is Some,
    ensures
        consistent(release(v, cfd, bfd)->0),
        release(v, cfd, bfd)->0.pool.len() == v.backends.len(),
        !release(v, cfd, bfd)->0.conns.contains_key(cfd),
{
    let w = release(v, cfd, bfd)->0;
    let j = crate::lb_router::find_key(v.addrs(), v.peers[bfd], v.backends.len());
    crate::lb_router::lemma_find_key_bounds_pub(v.addrs(), v.peers[bfd], v.backends.len());
    assert(0 <= j < v.pool.len());
    assert(v.conns[bfd] == cfd);
    assert forall|a: i32| #[trigger] w.conns.contains_key(a) implies w.conns.contains_key(w.conns[a])
        && w.conns[w.conns[a]] == a && w.peers.contains_key(a) != w.peers.contains_key(w.conns[a]) by {
        assert(v.conns.contains_key(a));
        assert(v.conns.contains_key(v.conns[a]));
    }
    assert forall|i: int, k: int|
        0 <= i < w.pool.len() && 0 <= k < w.pool[i].len() implies !w.conns.contains_key(
        #[trigger] w.pool[i][k]) && w.peers.contains_key(w.pool[i][k]) by {
        if i == j && k == v.pool[j].len() {
            assert(w.pool[i][k] == bfd);
        } else {
            assert(w.pool[i][k] == v.pool[i][k]);
        }
    }
    assert forall|i: int, k: int, i2: int, k2: int|
        0 <= i < w.pool.len() && 0 <= k < w.pool[i].len() && 0 <= i2 < w.pool.len() && 0 <= k2
            < w.pool[i2].len() && (i != i2 || k != k2) implies #[trigger] w.pool[i][k]
        != #[trigger] w.pool[i2][k2] by {
        if i == j && k == v.pool[j].len() {
            assert(w.pool[i2][k2] == v.pool[i2][k2]);
            assert(!v.conns.contains_key(v.pool[i2][k2]));
        } else if i2 == j && k2 == v.pool[j].len() {
            assert(w.pool[i][k] == v.pool[i][k]);
            assert(!v.conns.contains_key(v.pool[i][k]));
        } else {
            assert(w.pool[i][k] == v.pool[i][k]);
            assert(w.pool[i2][k2] == v.pool[i2][k2]);
        }
    }
}

proof fn lemma_take_idle_consistent(v: RouterView, cfd: i32, i: int)
    requires
        consistent(v),
        0 <= i < v.pool.len(),
        !v.conns.contains_key(cfd),
        !v.peers.contains_key(cfd),
    ensures
        consistent(take_idle(v, cfd, i).0),
        take_idle(v, cfd, i).0.pool.len() == v.pool.len(),
{
    if v.pool[i].len() > 0 {
        let w = take_idle(v, cfd, i).0;
        let n = v.pool[i].len() - 1;
        let b = v.pool[i][n];
        assert(v.pool[i].last() == b);
        assert(!v.conns.contains_key(b) && v.peers.contains_key(b));
        assert forall|a: i32| #[trigger] w.conns.contains_key(a) implies w.conns.contains_key(
            w.conns[a]) && w.conns[w.conns[a]] == a && w.peers.contains_key(a) != w.peers.contains_key(
            w.conns[a]) by {
            if a != cfd && a != b {
                assert(v.conns.contains_key(a));
                assert(v.conns.contains_key(v.conns[a]));
            }
        }
        assert forall|x: int, k: int|
            0 <= x < w.pool.len() && 0 <= k < w.pool[x].len() implies !w.conns.contains_key(
            #[trigger] w.pool[x][k]) && w.peers.contains_key(w.pool[x][k]) by {
            assert(w.pool[x][k] == v.pool[x][k]);
            assert(v.pool[x][k] != b);
        }
        assert forall|x: int, k: int, x2: int, k2: int|
            0 <= x < w.pool.len() && 0 <= k < w.pool[x].len() && 0 <= x2 < w.pool.len() && 0 <= k2
                < w.pool[x2].len() && (x != x2 || k != k2) implies #[trigger] w.pool[x][k]
            != #[trigger] w.pool[x2][k2] by {
            assert(w.pool[x][k] == v.pool[x][k]);
            assert(w.pool[x2][k2] == v.pool[x2][k2]);
        }
    }
}

/// Routing a client's bytes keeps the connection tables consistent.
pub proof fn law_route_keeps_tables_consistent(v: RouterView, cfd: i32, url: Option<Seq<char>>)
    requires
        consistent(v),
        v.pool.len() == v.backends.len(),
        !v.peers.contains_key(cfd),
    ensures
        consistent(route_spec(v, cfd, url).0),
{
    if let Some(u) = url {
        let i = crate::lb_router::find_key(v.urls(), u, v.backends.len());
        if i >= 0 {
            crate::lb_router::lemma_find_key_bounds_pub(v.urls(), u, v.backends.len());
            match v.current(cfd) {
                Some(bfd) => {
                    if v.peers[bfd] != v.backends[i].1 {
                        if release(v, cfd, bfd) is Some {
                            lemma_release_consistent(v, cfd, bfd);
                            lemma_take_idle_consistent(release(v, cfd, bfd)->0, cfd, i);
                        }
                    }
                },
                None => {
                    if v.conns.contains_key(cfd) {
                        assert(v.peers.contains_key(v.conns[cfd]));
                    }
                    lemma_take_idle_consistent(v, cfd, i);
                },
            }
        }
    }
}

/// Recording a new backend connection for a client that has none keeps
/// the connection tables consistent.
pub proof fn law_connect_keeps_tables_consistent(v: RouterView, cfd: i32, bfd: i32, peer: Seq<char>)
    requires
        consistent(v),
        !v.peers.contains_key(cfd),
        !v.conns.contains_key(cfd),
        !v.conns.contains_key(bfd),
        !v.peers.contains_key(bfd),
        cfd != bfd,
    ensures
        consistent(connect_spec(v, cfd, bfd, peer)),
{
    let w = connect_spec(v, cfd, bfd, peer);
    assert forall|a: i32| #[trigger] w.conns.contains_key(a) implies w.conns.contains_key(w.conns[a])
        && w.conns[w.conns[a]] == a && w.peers.contains_key(a) != w.peers.contains_key(w.conns[a]) by {
        if a != cfd && a != bfd {
            assert(v.conns.contains_key(a));
            assert(v.conns.contains_key(v.conns[a]));
        }
    }
    assert forall|x: int, k: int|
        0 <= x < w.pool.len() && 0 <= k < w.pool[x].len() implies !w.conns.contains_key(
        #[trigger] w.pool[x][k]) && w.peers.contains_key(w.pool[x][k]) by {
        assert(v.peers.contains_key(v.pool[x][k]));
    }
}

/// A response that carries the conn-id the baseline gave a forwarded
/// request, with a valid signature, goes back to the connection that the
/// request came from.
pub proof fn law_baseline_response_returns(
    v: Tables,
    buf: Seq<u8>,
    len: usize,
    req: Seq<(Seq<char>, Seq<char>)>,
    origin: SocketAddress,
    res: Option<SocketAddress>,
    resp: Seq<(Seq<char>, Seq<char>)>,
    upstream: SocketAddress,
)
    requires
        request_outcome(v, buf, len, req, origin, res).0 is Ok,
        lookup(resp, "signature"@) matches Some(s) && s.len() > 0 && is_digit(s.last()),
        lookup(resp, "conn-id"@) == Some(dec_chars(origin.port as nat)),
    ensures
        response_outcome(request_outcome(v, buf, len, req, origin, res).1, resp, upstream).0
            == Ok::<Destination, PipelineError>(Destination::Existing(origin)),
{
    let o = request_outcome(v, buf, len, req, origin, res);
    let rt = return_token(origin.port);
    lemma_lookup_put(v.fib, rt, origin, rt);
    assert(lookup(o.1.fib, rt) == Some(origin));
    lemma_dec_chars(origin.port as nat);
    assert(is_digit(dec_chars(origin.port as nat)[0]));
    assert(u32_of(dec_chars(origin.port as nat)) == Some(origin.port as u32));
    assert(response_token(origin.port as u32) == rt);
}

/// A response that carries the conn-id the naive proxy gave a forwarded
/// request, with a signature, goes back to the connection that the request
/// came from.
pub proof fn law_naive_response_returns(
    v: PipelineView,
    hosts: Seq<Host>,
    buf: Seq<u8>,
    len: usize,
    req: Seq<(Seq<char>, Seq<char>)>,
    origin: SocketAddress,
    resp: Seq<(Seq<char>, Seq<char>)>,
    upstream: SocketAddress,
)
    requires
        naive_request_outcome(v, hosts, buf, len, req, origin).0 is Ok,
        lookup(resp, "signature"@) matches Some(s) && s.len() > 0,
        lookup(resp, "conn-id"@) == Some(dec_chars(origin.port as nat)),
    ensures
        naive_response_outcome(naive_request_outcome(v, hosts, buf, len, req, origin).1, hosts, resp, upstream).0
            == Ok::<DestView, NaiveError>(DestView::Existing(origin)),
{
    let o = naive_request_outcome(v, hosts, buf, len, req, origin);
    let rt = crate::naive::return_token(origin.port);
    lemma_lookup_put(
        v.fib,
        rt,
        seq![origin],
        rt,
    );
    assert(lookup(o.1.fib, rt) == Some(seq![origin]));
    lemma_dec_chars(origin.port as nat);
    assert(is_digit(dec_chars(origin.port as nat)[0]));
    assert(u32_of(dec_chars(origin.port as nat)) == Some(origin.port as u32));
}

/// Neither letter case changes `ch`.
pub open spec fn caseless(ch: char) -> bool {
    ascii_lower(ch) == ch && ascii_upper(ch) == ch
}

proof fn lemma_step_caseless(c: Cursor, at: u16, ch: char)
    requires
        caseless(ch),
    ensures
        keeps_all(c.dfa.trans, step_char(c, at, ch).0.dfa.trans),
{
    if !c.dfa.trans.contains_key((at, ch)) {
        let d1 = if c.starts_capture() {
            c.dfa.new_cid().0
        } else {
            c.dfa
        };
        let d2 = d1.alloc_state().0;
        assert(d2.trans == c.dfa.trans);
    }
}

proof fn lemma_push_seq_caseless(c: Cursor, at: u16, s: Seq<char>)
    requires
        forall|i: int| 0 <= i < s.len() ==> caseless(#[trigger] s[i]),
    ensures
        keeps_all(c.dfa.trans, push_seq(c, at, s).0.dfa.trans),
    decreases s.len(),
{
    if s.len() > 0 {
        lemma_step_caseless(c, at, s[0]);
        let r = step_char(c, at, s[0]);
        if r.2 is None {
            assert forall|i: int| 0 <= i < s.drop_first().len() implies caseless(
                #[trigger] s.drop_first()[i],
            ) by {
                assert(s.drop_first()[i] == s[i + 1]);
            }
            lemma_push_seq_caseless(r.0, r.1, s.drop_first());
        }
    }
}

proof fn lemma_walk_crlf(d: DfaView, f: u16)
    ensures
        d.walk(f, seq!['\r', '\n']) == if d.trans.contains_key((f, '\r')) && d.trans.contains_key(
            (d.trans[(f, '\r')].0, '\n'),
        ) {
            Some(d.trans[(d.trans[(f, '\r')].0, '\n')].0)
        } else {
            None::<u16>
        },
{
    let s = seq!['\r', '\n'];
    assert(s.drop_first() =~= seq!['\n']);
    assert(seq!['\n'].drop_first() =~= Seq::<char>::empty());
    assert(s[0] == '\r' && s.len() == 2);
    assert(seq!['\n'][0] == '\n' && seq!['\n'].len() == 1);
    if d.trans.contains_key((f, '\r')) {
        let x = d.trans[(f, '\r')].0;
        assert(d.walk(f, s) == d.walk(x, seq!['\n']));
        if d.trans.contains_key((x, '\n')) {
            let y = d.trans[(x, '\n')].0;
            assert(d.walk(y, Seq::<char>::empty()) == Some(y));
            assert(d.walk(x, seq!['\n']) == d.walk(y, Seq::<char>::empty()));
        } else {
            assert(d.walk(x, seq!['\n']) == None::<u16>);
        }
    } else {
        assert(d.walk(f, s) == None::<u16>);
    }
}

/// Ending a header line's capture on "\r\n" and restarting, when "\r\n"
/// already leads from the pattern's start to some state (the CRLF state
/// after the start): on success the builder stands in that state, "\r\n"
/// still leads there, and a transition on '\n' ends the capture there.
/// So after each captured header line the parser is back in the CRLF state.
pub proof fn law_header_capture_ends_in_crlf(c: Cursor, from: u16)
    requires
        c.capturing,
        c.cid is Some,
        c.dfa.walk(c.start, seq!['\r', '\n']) is Some,
        apply(c, Op::EndRestart(seq!['\r', '\n'], from)).1 is None,
    ensures
        ({
            let r = apply(c, Op::EndRestart(seq!['\r', '\n'], from)).0;
            let t = c.dfa.walk(c.start, seq!['\r', '\n'])->0;
            &&& r.sid == t
            &&& r.dfa.walk(c.start, seq!['\r', '\n']) == Some(t)
            &&& exists|q: u16|
                #[trigger] r.dfa.trans.contains_key((q, '\n')) && r.dfa.trans[(q, '\n')] == (
                    t,
                    Action::EndCapture(c.cid->0, c.dfa.rid),
                )
        }),
{
    let s = seq!['\r', '\n'];
    let (d1, rid) = c.dfa.new_rid();
    let c1 = c.with_dfa(d1);
    let action = Action::EndCapture(c.cid->0, rid);
    lemma_walk_crlf(c.dfa, c.start);
    lemma_walk_crlf(d1, c.start);
    let t = c.dfa.walk(c.start, s)->0;
    assert(d1.walk(c.start, s) == Some(t));
    let x1 = c.dfa.trans[(c.start, '\r')].0;
    assert(apply(c, Op::EndRestart(s, from)) == spec_end_pattern(c1, s, action, Some(t)));
    let n = prefix_len(s);
    assert(0 <= n <= 2);
    let r1 = if n > 0 {
        spec_push(c1, s.take(n))
    } else {
        (c1, None)
    };
    if n > 0 {
        assert forall|i: int| 0 <= i < s.take(n).len() implies caseless(#[trigger] s.take(n)[i]) by {
            assert(s.take(n)[i] == s[i]);
        }
        lemma_push_seq_caseless(c1, c1.sid, s.take(n));
    }
    assert(r1.1 is None);
    let cc = r1.0;
    assert(keeps_all(d1.trans, cc.dfa.trans));
    assert(s.last() == '\n');
    let r3 = cc.dfa.ins(cc.sid, t, '\n', action);
    assert(r3.0.trans == cc.dfa.trans.insert((cc.sid, '\n'), (t, action)));
    let r = apply(c, Op::EndRestart(s, from)).0;
    assert(r.dfa == r3.0);
    assert(r.sid == t);
    assert(r.dfa.trans.contains_key((cc.sid, '\n')));
    assert(r.dfa.trans.contains_key((c.start, '\r')) && r.dfa.trans[(c.start, '\r')].0 == x1);
    assert(r.dfa.trans.contains_key((x1, '\n')) && r.dfa.trans[(x1, '\n')].0 == t);
    lemma_walk_crlf(r.dfa, c.start);
}

proof fn lemma_step_paired(c: Cursor, at: u16, ch: char)
    requires
        paired(c.dfa),
    ensures
        paired(step_char(c, at, ch).0.dfa),
{
    if !c.dfa.trans.contains_key((at, ch)) {
        let d1 = if c.starts_capture() {
            c.dfa.new_cid().0
        } else {
            c.dfa
        };
        let d2 = d1.alloc_state().0;
        let next = d1.alloc_state().1;
        let action = if c.starts_capture() {
            Action::StartCapture(c.dfa.cid)
        } else {
            Action::NoAction
        };
        assert(d2.trans == c.dfa.trans);
        law_ins_keeps_paired(d2, at, next, ch, action);
    }
}

proof fn lemma_push_seq_paired(c: Cursor, at: u16, s: Seq<char>)
    requires
        paired(c.dfa),
    ensures
        paired(push_seq(c, at, s).0.dfa),
    decreases s.len(),
{
    if s.len() > 0 {
        lemma_step_paired(c, at, s[0]);
        let r = step_char(c, at, s[0]);
        if r.2 is None {
            lemma_push_seq_paired(r.0, r.1, s.drop_first());
        }
    }
}

proof fn lemma_end_pattern_paired(c: Cursor, s: Seq<char>, action: Action, to: Option<u16>)
    requires
        paired(c.dfa),
    ensures
        paired(spec_end_pattern(c, s, action, to).0.dfa),
{
    let n = prefix_len(s);
    if n > 0 {
        lemma_push_seq_paired(c, c.sid, s.take(n));
    }
    let r1 = if n > 0 {
        spec_push(c, s.take(n))
    } else {
        (c, None)
    };
    if r1.1 is None {
        let c1 = r1.0;
        let dt = match to {
            Some(t) => (c1.dfa, t),
            None => end_target(c1.dfa, c1.sid, s.last(), action),
        };
        assert(dt.0.trans == c1.dfa.trans);
        law_ins_keeps_paired(dt.0, c1.sid, dt.1, s.last(), action);
    }
}

proof fn lemma_apply_paired(c: Cursor, op: Op)
    requires
        paired(c.dfa),
    ensures
        paired(apply(c, op).0.dfa),
{
    match op {
        Op::Push(s) => {
            lemma_push_seq_paired(c, c.sid, s);
        },
        Op::PushOptional(ch) => {
            if c.starts_capture() {
                lemma_push_seq_paired(c, c.sid, seq![ch]);
            }
            let r1 = if c.starts_capture() {
                spec_push(c, seq![ch])
            } else {
                (c, None)
            };
            if r1.1 is None {
                law_ins_keeps_paired(r1.0.dfa, r1.0.sid, r1.0.sid, ch, Action::NoAction);
            }
        },
        Op::StartCapturing => {},
        Op::EndCapturing(s) => {
            if c.capturing && c.cid is Some {
                let (d1, rid) = c.dfa.new_rid();
                let (d2, to) = d1.alloc_state();
                assert(d2.trans == c.dfa.trans);
                lemma_end_pattern_paired(c.with_dfa(d2), s, Action::EndCapture(c.cid->0, rid), Some(to));
            }
        },
        Op::EndRestart(s, from) => {
            if c.capturing && c.cid is Some {
                let (d1, rid) = c.dfa.new_rid();
                let c1 = c.with_dfa(d1);
                let action = Action::EndCapture(c.cid->0, rid);
                match d1.walk(c.start, s) {
                    Some(t) => {
                        lemma_end_pattern_paired(c1, s, action, Some(t));
                    },
                    None => {
                        lemma_push_seq_paired(c1, from, s);
                        let r = push_seq(c1, from, s);
                        if r.2 is None {
                            lemma_end_pattern_paired(r.0, s, action, Some(r.1));
                        }
                    },
                }
            }
        },
        Op::DoneOn(s) => {
            if !(c.capturing || c.cid is Some) {
                lemma_end_pattern_paired(c, s, Action::Done, None);
            }
        },
    }
}

proof fn lemma_run_paired(c: Cursor, ops: Seq<Op>)
    requires
        paired(c.dfa),
    ensures
        paired(run(c, ops).0.dfa),
    decreases ops.len(),
{
    if ops.len() > 0 {
        lemma_apply_paired(c, ops[0]);
        let r = apply(c, ops[0]);
        if r.1 is None {
            lemma_run_paired(r.0, ops.drop_first());
        }
    }
}

/// Every DFA that patterns build from a `paired` one (such as a new DFA,
/// which has no transitions) is `paired`, so pushing the same inputs twice
/// changes nothing the second time in any DFA the builders make.
pub proof fn law_build_keeps_paired(d: DfaView, ps: Seq<(u16, Seq<Op>)>)
    requires
        paired(d),
    ensures
        paired(build(d, ps)),
    decreases ps.len(),
{
    if ps.len() > 0 {
        let c = start_cursor(d, ps[0].0);
        lemma_run_paired(c, ps[0].1);
        law_build_keeps_paired(run(c, ps[0].1).0.dfa, ps.drop_first());
    }
}

/// `s` ends with `t`.
pub open spec fn ends_with(s: Seq<char>, t: Seq<char>) -> bool {
    t.len() <= s.len() && s.subrange(s.len() - t.len(), s.len() as int) == t
}

proof fn lemma_ends_with(pre: Seq<char>, t: Seq<char>)
    ensures
        ends_with(pre + t, t),
{
    assert((pre + t).subrange(pre.len() as int, (pre + t).len() as int) =~= t);
}

/// The RBAC check of a policy ends in its action: an allowing policy logs
/// that it allowed, counts the request as allowed and lets it pass; a
/// denying policy logs that it denied, counts it as denied and drops it.
pub proof fn law_policy_action(p: Policy, order: ByteOrder)
    ensures
        p.allow ==> ends_with(
            policy_text(p, order),
            "bpf_log(\"RBAC: "@ + p.name@ + "\");
                    bpf_stats_add(http_rbac_allowed, 1);
                    return PR_PASS;
                    }"@,
        ),
        !p.allow ==> ends_with(
            policy_text(p, order),
            "bpf_log(\"RBAC "@ + p.name@ + " denied\");
                    bpf_stats_add(http_rbac_denied, 1);
                    return SK_DROP;
                    }"@,
        ),
{
    reveal_strlit("\");
                    bpf_stats_add(http_rbac_allowed, 1);
                    return PR_PASS;");
    reveal_strlit("\");
                    bpf_stats_add(http_rbac_allowed, 1);
                    return PR_PASS;
                    }");
    reveal_strlit(" denied\");
                    bpf_stats_add(http_rbac_denied, 1);
                    return SK_DROP;");
    reveal_strlit(" denied\");
                    bpf_stats_add(http_rbac_denied, 1);
                    return SK_DROP;
                    }");
    reveal_strlit("
                    }");
    let t = policy_text(p, order);
    let tail = "
                    }"@;
    let action = if p.allow {
        crate::compiler::fmt::rbac_allow(p.name@)
    } else {
        crate::compiler::fmt::rbac_deny(p.name@)
    };
    let pre = t.subrange(0, t.len() - action.len() - tail.len());
    assert(t =~= pre + action + tail);
    if p.allow {
        let lit = "bpf_log(\"RBAC: "@ + p.name@ + "\");
                    bpf_stats_add(http_rbac_allowed, 1);
                    return PR_PASS;
                    }"@;
        assert(action + tail =~= lit);
        assert(t =~= pre + lit);
        lemma_ends_with(pre, lit);
    } else {
        let lit = "bpf_log(\"RBAC "@ + p.name@ + " denied\");
                    bpf_stats_add(http_rbac_denied, 1);
                    return SK_DROP;
                    }"@;
        assert(action + tail =~= lit);
        assert(t =~= pre + lit);
        lemma_ends_with(pre, lit);
    }
}

/// The Backend header value `server<k>` names backend `k`, for `k` from 1
/// to 4, and no other value names a backend: a backend number read from a
/// name spells that name back.
pub proof fn law_backend_names(name: Seq<char>, k: u8)
    ensures
        backend_id(name) matches Some(b) ==> 1 <= b <= 4 && backend_name(b) == name,
        1 <= k <= 4 ==> backend_id(backend_name(k)) == Some(k),
{
    reveal_strlit("server");
    reveal_strlit("server1");
    reveal_strlit("server2");
    reveal_strlit("server3");
    reveal_strlit("server4");
    assert(dec_chars(1) =~= seq!['1']);
    assert(dec_chars(2) =~= seq!['2']);
    assert(dec_chars(3) =~= seq!['3']);
    assert(dec_chars(4) =~= seq!['4']);
    assert(backend_name(1) =~= "server1"@);
    assert(backend_name(2) =~= "server2"@);
    assert(backend_name(3) =~= "server3"@);
    assert(backend_name(4) =~= "server4"@);
    assert("server2"@[6] != "server1"@[6]);
    assert("server3"@[6] != "server1"@[6] && "server3"@[6] != "server2"@[6]);
    assert("server4"@[6] != "server1"@[6] && "server4"@[6] != "server2"@[6] && "server4"@[6]
        != "server3"@[6]);
    if 1 <= k <= 4 {
        assert(k == 1 || k == 2 || k == 3 || k == 4);
        if k == 1 {
            assert(backend_id(backend_name(k)) == Some(1u8));
        } else if k == 2 {
            assert(backend_id(backend_name(k)) == Some(2u8));
        } else if k == 3 {
            assert(backend_id(backend_name(k)) == Some(3u8));
        } else {
            assert(backend_id(backend_name(k)) == Some(4u8));
        }
    }
}

/// Translating an Envoy configuration gives one host per cluster, in the
/// order of the clusters, each named after its cluster.
pub proof fn law_one_host_per_cluster(c: envoy::Config)
    ensures
        envoy_hosts(c).len() == c.static_resources.clusters@.len(),
        forall|i: int|
            0 <= i < c.static_resources.clusters@.len() ==> (#[trigger] envoy_hosts(c)[i]).0
                == c.static_resources.clusters@[i].name@,
{
}

/// Every entry of `a` whose input is not `x` is in `b`, unchanged.
pub open spec fn keeps_off(a: Map<(u16, char), (u16, Action)>, b: Map<(u16, char), (u16, Action)>, x: char) -> bool {
    forall|k: (u16, char)|
        #[trigger] a.contains_key(k) && k.1 != x ==> b.contains_key(k) && b[k] == a[k]
}

proof fn lemma_push_seq_cid(c: Cursor, at: u16, s: Seq<char>)
    requires
        !c.starts_capture(),
    ensures
        push_seq(c, at, s).0.cid == c.cid,
        push_seq(c, at, s).0.capturing == c.capturing,
    decreases s.len(),
{
    if s.len() > 0 {
        let r = step_char(c, at, s[0]);
        assert(r.0.cid == c.cid && r.0.capturing == c.capturing);
        if r.2 is None {
            lemma_push_seq_cid(r.0, r.1, s.drop_first());
        }
    }
}

proof fn lemma_plain_path_off(a: DfaView, b: DfaView, at: u16, s: Seq<char>, end: u16, x: char)
    requires
        plain_path(a, at, s, end),
        keeps_off(a.trans, b.trans, x),
        forall|i: int| 0 <= i < s.len() ==> #[trigger] s[i] != x,
    ensures
        plain_path(b, at, s, end),
        b.walk(at, s) == Some(end),
    decreases s.len(),
{
    if s.len() > 0 {
        assert(s[0] != x);
        assert(a.trans.contains_key((at, s[0])));
        assert forall|i: int| 0 <= i < s.drop_first().len() implies #[trigger] s.drop_first()[i] != x by {
            assert(s.drop_first()[i] == s[i + 1]);
        }
        lemma_plain_path_off(a, b, a.trans[(at, s[0])].0, s.drop_first(), end, x);
    }
}

proof fn lemma_end_pattern_off(c: Cursor, s: Seq<char>, action: Action, t: u16)
    requires
        forall|i: int| 0 <= i < s.len() ==> caseless(#[trigger] s[i]),
        s.len() > 0,
    ensures
        keeps_off(c.dfa.trans, spec_end_pattern(c, s, action, Some(t)).0.dfa.trans, s.last()),
{
    let n = prefix_len(s);
    if n > 0 {
        assert forall|i: int| 0 <= i < s.take(n).len() implies caseless(#[trigger] s.take(n)[i]) by {
            assert(s.take(n)[i] == s[i]);
        }
        lemma_push_seq_caseless(c, c.sid, s.take(n));
    }
    let r1 = if n > 0 {
        spec_push(c, s.take(n))
    } else {
        (c, None)
    };
    if r1.1 is None {
        let c1 = r1.0;
        let last = s.last();
        assert(caseless(s[s.len() - 1]));
        let r3 = c1.dfa.ins(c1.sid, t, last, action);
        assert(r3.0.trans == c1.dfa.trans.insert((c1.sid, last), (t, action)));
    }
}

proof fn lemma_end_restart_off(c: Cursor, s: Seq<char>, from: u16)
    requires
        forall|i: int| 0 <= i < s.len() ==> caseless(#[trigger] s[i]),
        s.len() > 0,
    ensures
        keeps_off(c.dfa.trans, apply(c, Op::EndRestart(s, from)).0.dfa.trans, s.last()),
{
    if c.capturing && c.cid is Some {
        let (d1, rid) = c.dfa.new_rid();
        let c1 = c.with_dfa(d1);
        let action = Action::EndCapture(c.cid->0, rid);
        match d1.walk(c.start, s) {
            Some(t) => {
                lemma_end_pattern_off(c1, s, action, t);
            },
            None => {
                lemma_push_seq_caseless(c1, from, s);
                let r = push_seq(c1, from, s);
                if r.2 is None {
                    lemma_end_pattern_off(r.0, s, action, r.1);
                }
            },
        }
    }
}

/// The status-code pattern of the HTTP/1.1 parser: once it is added to a
/// DFA whose letter inputs come in both cases (as every DFA the builders
/// make), following the text "HTTP/1.1 " from the initial state reaches a
/// state whose next input starts a capture, the capture of the status.
pub proof fn law_status_code_after_http11(d: DfaView, s_init: u16, s_any: u16)
    requires
        paired(d),
        pattern(d, s_init, status_code_ops(s_any)).1 is Ok,
    ensures
        ({
            let r = pattern(d, s_init, status_code_ops(s_any)).0;
            r.walk(s_init, "HTTP/1.1 "@) matches Some(q) && r.trans.contains_key((q, '*'))
                && r.trans[(q, '*')].1 is StartCapture
        }),
{
    reveal_strlit("HTTP/1.1 ");
    reveal_strlit("\r\n");
    let h = "HTTP/1.1 "@;
    assert(h =~= seq!['H', 'T', 'T', 'P', '/', '1', '.', '1', ' ']);
    let crlf = "\r\n"@;
    assert(crlf =~= seq!['\r', '\n']);
    let ops = status_code_ops(s_any);
    assert(ops[0] == Op::Push(h));
    assert(ops[1] == Op::StartCapturing);
    assert(ops[2] == Op::PushOptional('*'));
    assert(ops[3] == Op::EndRestart(crlf, s_any));
    let c0 = start_cursor(d, s_init);
    assert(ops.skip(0) =~= ops);
    crate::h1::dfa::lemma_run_step(c0, ops, 0);
    let a0 = apply(c0, ops[0]);
    assert(a0.1 is None);
    let c1 = a0.0;
    lemma_push_seq_plain_all(c0, s_init, h);
    lemma_push_seq_cid(c0, s_init, h);
    let q = c1.sid;
    assert(plain_path(c1.dfa, s_init, h, q));
    assert(c1.cid is None && !c1.capturing);
    crate::h1::dfa::lemma_run_step(c1, ops, 1);
    let c2 = apply(c1, ops[1]).0;
    assert(c2.starts_capture() && c2.sid == q && c2.dfa == c1.dfa);
    crate::h1::dfa::lemma_run_step(c2, ops, 2);
    let a2 = apply(c2, ops[2]);
    assert(a2.1 is None);
    // the capture starts on '*' out of q
    let one = seq!['*'];
    assert(one[0] == '*');
    assert(one.drop_first() =~= Seq::<char>::empty());
    let st = step_char(c2, q, '*');
    assert(push_seq(c2, q, one) == (if st.2 is Some { st } else { push_seq(st.0, st.1, Seq::<char>::empty()) }));
    assert(st.2 is None);
    lemma_step_caseless(c2, q, '*');
    let c3 = st.0.with_sid(st.1);
    let q1 = st.1;
    assert(c3.dfa.trans.contains_key((q, '*')));
    assert(c3.dfa.trans[(q, '*')] == (q1, c3.dfa.trans[(q, '*')].1));
    assert(c3.dfa.trans[(q, '*')].1 is StartCapture);
    let r2 = c3.dfa.ins(q1, q1, '*', Action::NoAction);
    assert(r2.0.trans == c3.dfa.trans.insert((q1, '*'), (q1, Action::NoAction)));
    assert(q1 != q);
    let c4 = a2.0;
    assert(c4.dfa == r2.0);
    assert(keeps_off(c2.dfa.trans, c4.dfa.trans, '*'));
    assert(c4.dfa.trans.contains_key((q, '*')) && c4.dfa.trans[(q, '*')] == c3.dfa.trans[(q, '*')]);
    crate::h1::dfa::lemma_run_step(c4, ops, 3);
    let a3 = apply(c4, ops[3]);
    assert(a3.1 is None);
    assert(ops.skip(4).len() == 0);
    assert(run(a3.0, ops.skip(4)) == (a3.0, Option::<crate::h1::DfaError>::None));
    assert forall|i: int| 0 <= i < crlf.len() implies caseless(#[trigger] crlf[i]) by {
    }
    lemma_end_restart_off(c4, crlf, s_any);
    assert(crlf.last() == '\n');
    let r = a3.0.dfa;
    assert(r == pattern(d, s_init, ops).0);
    assert(r.trans.contains_key((q, '*')) && r.trans[(q, '*')] == c3.dfa.trans[(q, '*')]);
    assert forall|i: int| 0 <= i < h.len() implies #[trigger] h[i] != '*' && h[i] != '\n' by {
    }
    lemma_plain_path_off(c1.dfa, c4.dfa, s_init, h, q, '*');
    lemma_plain_path_off(c4.dfa, r, s_init, h, q, '\n');
}

} // verus!
