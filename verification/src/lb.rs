//! The request-header reader of the io_uring load balancer.

use crate::compiler::find_seq;
use crate::forwarding::{is_white, lead_white, trail_white, trim};
use crate::text::{blen, chars_of, slice_chars, str_eq, string_of, to_lowercase, unicode_lower, utf8_len};
use vstd::prelude::*;

verus! {

broadcast use vstd::string::group_string_axioms;

/// A request: its method and its URL.
#[derive(Clone, Debug)]
pub enum HTTP {
    GET(String),
    POST(String),
    PUT(String),
    DELETE(String),
}

/// The URL of a request.
pub open spec fn url_of(r: HTTP) -> Seq<char> {
    match r {
        HTTP::GET(u) => u@,
        HTTP::POST(u) => u@,
        HTTP::PUT(u) => u@,
        HTTP::DELETE(u) => u@,
    }
}

impl HTTP {
    pub fn url(&self) -> (r: &String)
        ensures
            r@ == url_of(*self),
    {
        match self {
            HTTP::GET(url) => url,
            HTTP::POST(url) => url,
            HTTP::PUT(url) => url,
            HTTP::DELETE(url) => url,
        }
    }
}

/// What `String::from_utf8_lossy` gives for `bytes`: the text they encode,
/// with U+FFFD for each invalid sequence.
pub uninterp spec fn utf8_lossy(bytes: Seq<u8>) -> Seq<char>;

/// Calls `String::from_utf8_lossy`, a function of the bytes alone, which
/// gives the text that valid UTF-8 encodes.
#[verifier::external_body]
fn from_utf8_lossy(buf: &[u8]) -> (r: String)
    ensures
        r@ == utf8_lossy(buf@),
        vstd::utf8::valid_utf8(buf@) ==> r@ == vstd::utf8::decode_utf8(buf@),
{
    String::from_utf8_lossy(buf).into_owned()
}

/// "\r\n".
pub open spec fn crlf() -> Seq<char> {
    seq!['\r', '\n']
}

/// The pieces of `s` between the separators "\r\n", as `str::split` gives them.
pub open spec fn lines_of(s: Seq<char>) -> Seq<Seq<char>>
    decreases s.len(),
{
    let k = find_seq(s, crlf()) as int;
    if k + 2 > s.len() {
        seq![s]
    } else {
        seq![s.take(k)] + lines_of(s.skip(k + 2))
    }
}

/// Whether `s` starts with `p`.
pub open spec fn starts_with(s: Seq<char>, p: Seq<char>) -> bool {
    p.len() <= s.len() && s.take(p.len() as int) == p
}

/// Whether a line is a request line: it starts with a method.
pub open spec fn is_req_line(l: Seq<char>) -> bool {
    starts_with(l, "GET"@) || starts_with(l, "POST"@) || starts_with(l, "PUT"@) || starts_with(
        l,
        "DELETE"@,
    )
}

/// The number of characters before the first white space of `s`.
pub open spec fn word_len(s: Seq<char>) -> nat
    decreases s.len(),
{
    if s.len() > 0 && !is_white(s[0]) {
        1 + word_len(s.drop_first())
    } else {
        0
    }
}

/// The first word of `s` and what follows it.
pub open spec fn first_word(s: Seq<char>) -> (Seq<char>, Seq<char>) {
    let t = s.skip(lead_white(s) as int);
    (t.take(word_len(t) as int), t.skip(word_len(t) as int))
}

/// The request a request line names: its first word is the method, its
/// second the URL.
pub open spec fn request_of(l: Seq<char>) -> Option<HttpView> {
    let (m, rest) = first_word(l);
    let (u, _) = first_word(rest);
    if u.len() == 0 {
        None
    } else if m == "GET"@ {
        Some(HttpView::Get(u))
    } else if m == "POST"@ {
        Some(HttpView::Post(u))
    } else if m == "PUT"@ {
        Some(HttpView::Put(u))
    } else if m == "DELETE"@ {
        Some(HttpView::Delete(u))
    } else {
        None
    }
}

/// A request by value.
pub enum HttpView {
    Get(Seq<char>),
    Post(Seq<char>),
    Put(Seq<char>),
    Delete(Seq<char>),
}

pub open spec fn http_view(r: HTTP) -> HttpView {
    match r {
        HTTP::GET(u) => HttpView::Get(u@),
        HTTP::POST(u) => HttpView::Post(u@),
        HTTP::PUT(u) => HttpView::Put(u@),
        HTTP::DELETE(u) => HttpView::Delete(u@),
    }
}

/// The header of a line that holds a ':': the name before it and the
/// value after it, each trimmed and in lower case.
pub open spec fn header_of(l: Seq<char>) -> Option<(Seq<char>, Seq<char>)> {
    let k = crate::text::find_char(l, ':') as int;
    if k >= l.len() {
        None
    } else {
        Some((unicode_lower(trim(l.take(k))), unicode_lower(trim(l.skip(k + 1)))))
    }
}

/// The headers of the lines, in order.
pub open spec fn headers_of(ls: Seq<Seq<char>>) -> Seq<(Seq<char>, Seq<char>)>
    decreases ls.len(),
{
    if ls.len() == 0 {
        Seq::empty()
    } else {
        headers_of(ls.drop_last()) + match header_of(ls.last()) {
            Some(h) => seq![h],
            None => Seq::empty(),
        }
    }
}

/// Whether a header of the same name follows the one at `j`.
pub open spec fn named_later(hs: Seq<(Seq<char>, Seq<char>)>, j: int) -> bool {
    exists|k: int| j < k < hs.len() && hs[k].0 == hs[j].0
}

/// The first `n` headers, each name kept only at its last occurrence.
pub open spec fn last_of_each(hs: Seq<(Seq<char>, Seq<char>)>, n: nat) -> Seq<(Seq<char>, Seq<char>)>
    decreases n,
{
    if n == 0 {
        Seq::empty()
    } else {
        last_of_each(hs, (n - 1) as nat) + if named_later(hs, n - 1) {
            Seq::empty()
        } else {
            seq![hs[n - 1]]
        }
    }
}

/// The index of the first request line, or the number of lines.
pub open spec fn first_req_line(ls: Seq<Seq<char>>) -> nat
    decreases ls.len(),
{
    if ls.len() == 0 || is_req_line(ls[0]) {
        0
    } else {
        1 + first_req_line(ls.drop_first())
    }
}

/// What a request header reads as: the request of its first request line,
/// its headers (the last value of each name), and the length of the header
/// with its final empty line, in bytes of its text.
pub open spec fn parse_hdr_spec(text: Seq<char>) -> Option<(HttpView, Seq<(Seq<char>, Seq<char>)>, nat)> {
    let k = find_seq(text, crlf() + crlf()) as int;
    let ls = lines_of(text.take(k));
    let i = first_req_line(ls) as int;
    if k >= text.len() || i >= ls.len() {
        None
    } else {
        match request_of(ls[i]) {
            Some(r) => {
                let hs = headers_of(ls);
                Some((r, last_of_each(hs, hs.len()), blen(text.take(k)) + 4))
            },
            None => None,
        }
    }
}

/// Pairs of strings by value.
pub open spec fn pairs_of(v: Seq<(String, String)>) -> Seq<(Seq<char>, Seq<char>)> {
    v.map_values(|p: (String, String)| (p.0@, p.1@))
}

proof fn lemma_word_len(s: Seq<char>, i: int)
    requires
        0 <= i <= s.len(),
        forall|j: int| 0 <= j < i ==> !is_white(s[j]),
        i == s.len() || is_white(s[i]),
    ensures
        word_len(s) == i,
    decreases s.len(),
{
    if i > 0 {
        let t = s.drop_first();
        assert forall|j: int| 0 <= j < i - 1 implies !is_white(t[j]) by {
            assert(t[j] == s[j + 1]);
        }
        if i < s.len() {
            assert(t[i - 1] == s[i]);
        }
        lemma_word_len(t, i - 1);
    }
}

proof fn lemma_lead(s: Seq<char>, i: int)
    requires
        0 <= i <= s.len(),
        forall|j: int| 0 <= j < i ==> is_white(s[j]),
        i == s.len() || !is_white(s[i]),
    ensures
        lead_white(s) == i,
    decreases s.len(),
{
    if i > 0 {
        let t = s.drop_first();
        assert forall|j: int| 0 <= j < i - 1 implies is_white(t[j]) by {
            assert(t[j] == s[j + 1]);
        }
        if i < s.len() {
            assert(t[i - 1] == s[i]);
        }
        lemma_lead(t, i - 1);
    }
}

fn is_white_char(c: char) -> (r: bool)
    ensures
        r == is_white(c),
{
    ('\u{9}' <= c && c <= '\u{d}') || c == ' ' || c == '\u{85}' || c == '\u{a0}' || c == '\u{1680}'
        || ('\u{2000}' <= c && c <= '\u{200a}') || c == '\u{2028}' || c == '\u{2029}' || c
        == '\u{202f}' || c == '\u{205f}' || c == '\u{3000}'
}

/// The first word of `v` and what follows it.
fn first_word_exec(v: &Vec<char>) -> (r: (Vec<char>, Vec<char>))
    ensures
        (r.0@, r.1@) == first_word(v@),
{
    let mut i: usize = 0;
    while i < v.len() && is_white_char(v[i])
        invariant
            i <= v@.len(),
            forall|j: int| 0 <= j < i ==> is_white(v@[j]),
        decreases v.len() - i,
    {
        i = i + 1;
    }
    proof {
        lemma_lead(v@, i as int);
    }
    let t = slice_chars(v, i, v.len());
    assert(t@ =~= v@.skip(i as int));
    let mut k: usize = 0;
    while k < t.len() && !is_white_char(t[k])
        invariant
            k <= t@.len(),
            forall|j: int| 0 <= j < k ==> !is_white(t@[j]),
        decreases t.len() - k,
    {
        k = k + 1;
    }
    proof {
        lemma_word_len(t@, k as int);
    }
    let w = slice_chars(&t, 0, k);
    let rest = slice_chars(&t, k, t.len());
    assert(w@ =~= t@.take(k as int));
    assert(rest@ =~= t@.skip(k as int));
    (w, rest)
}

fn starts_with_exec(v: &Vec<char>, p: &str) -> (r: bool)
    ensures
        r == starts_with(v@, p@),
{
    let pv = chars_of(p);
    if pv.len() > v.len() {
        return false;
    }
    let head = slice_chars(v, 0, pv.len());
    let hs = string_of(&head);
    assert(head@ =~= v@.take(pv@.len() as int));
    str_eq(hs.as_str(), p)
}

fn request_exec(l: &Vec<char>) -> (r: Option<HTTP>)
    ensures
        match r {
            Some(x) => request_of(l@) == Some(http_view(x)),
            None => request_of(l@) is None,
        },
{
    let (m, rest) = first_word_exec(l);
    let (u, _) = first_word_exec(&rest);
    if u.len() == 0 {
        return None;
    }
    let ms = string_of(&m);
    let us = string_of(&u);
    if str_eq(ms.as_str(), "GET") {
        Some(HTTP::GET(us))
    } else if str_eq(ms.as_str(), "POST") {
        Some(HTTP::POST(us))
    } else if str_eq(ms.as_str(), "PUT") {
        Some(HTTP::PUT(us))
    } else if str_eq(ms.as_str(), "DELETE") {
        Some(HTTP::DELETE(us))
    } else {
        None
    }
}

fn header_exec(l: &Vec<char>) -> (r: Option<(String, String)>)
    ensures
        match r {
            Some(h) => header_of(l@) == Some((h.0@, h.1@)),
            None => header_of(l@) is None,
        },
{
    let k = crate::text::find_char_from(l, ':', 0);
    assert(l@.skip(0) =~= l@);
    if k >= l.len() {
        return None;
    }
    let key = slice_chars(l, 0, k);
    let val = slice_chars(l, k + 1, l.len());
    assert(key@ =~= l@.take(k as int));
    assert(val@ =~= l@.skip(k + 1));
    let key = trimmed(&key);
    let val = trimmed(&val);
    Some((to_lowercase(key.as_str()), to_lowercase(val.as_str())))
}

fn trimmed(v: &Vec<char>) -> (r: String)
    ensures
        r@ == trim(v@),
{
    let mut lo: usize = 0;
    while lo < v.len() && is_white_char(v[lo])
        invariant
            lo <= v@.len(),
            forall|j: int| 0 <= j < lo ==> is_white(v@[j]),
        decreases v.len() - lo,
    {
        lo = lo + 1;
    }
    proof {
        lemma_lead(v@, lo as int);
    }
    let t = slice_chars(v, lo, v.len());
    assert(t@ =~= v@.skip(lo as int));
    let mut k: usize = 0;
    while k < t.len() && is_white_char(t[t.len() - 1 - k])
        invariant
            k <= t@.len(),
            forall|j: int| t@.len() - k <= j < t@.len() ==> is_white(t@[j]),
        decreases t.len() - k,
    {
        k = k + 1;
    }
    proof {
        lemma_trail(t@, k as int);
    }
    let out = slice_chars(&t, 0, t.len() - k);
    assert(out@ =~= t@.take(t@.len() - k));
    string_of(&out)
}

proof fn lemma_trail(s: Seq<char>, i: int)
    requires
        0 <= i <= s.len(),
        forall|j: int| s.len() - i <= j < s.len() ==> is_white(s[j]),
        i == s.len() || !is_white(s[s.len() - 1 - i]),
    ensures
        trail_white(s) == i,
    decreases s.len(),
{
    if i > 0 {
        let t = s.drop_last();
        assert forall|j: int| t.len() - (i - 1) <= j < t.len() implies is_white(t[j]) by {
            assert(t[j] == s[j]);
        }
        if i < s.len() {
            assert(t[t.len() - 1 - (i - 1)] == s[s.len() - 1 - i]);
        }
        lemma_trail(t, i - 1);
    }
}

/// The lines of `v`, split at each "\r\n".
fn lines_exec(v: &Vec<char>) -> (r: Vec<Vec<char>>)
    ensures
        r@.map_values(|l: Vec<char>| l@) == lines_of(v@),
{
    let sep = chars_of("\r\n");
    proof {
        reveal_strlit("\r\n");
        assert(sep@ =~= crlf());
    }
    let mut out: Vec<Vec<char>> = Vec::new();
    let mut start: usize = 0;
    let mut done = false;
    assert(v@.skip(0) =~= v@);
    while !done
        invariant
            start <= v@.len(),
            sep@ == crlf(),
            !done ==> out@.map_values(|l: Vec<char>| l@) + lines_of(v@.skip(start as int))
                == lines_of(v@),
            done ==> out@.map_values(|l: Vec<char>| l@) == lines_of(v@),
        decreases (if done { 0int } else { 1int }), v.len() - start,
    {
        let rest = slice_chars(v, start, v.len());
        assert(rest@ =~= v@.skip(start as int));
        let k = crate::compiler::find_seq_from_pub(&rest, &sep);
        let ghost prev = out@;
        if k >= rest.len() {
            out.push(rest);
            proof {
                assert(out@.map_values(|l: Vec<char>| l@) =~= prev.map_values(|l: Vec<char>| l@)
                    + lines_of(v@.skip(start as int)));
            }
            done = true;
        } else {
            let line = slice_chars(&rest, 0, k);
            proof {
                crate::compiler::lemma_find_seq_occurs(rest@, sep@);
                assert(k + 2 <= rest@.len());
                assert(line@ =~= rest@.take(k as int));
                assert(rest@.skip(k + 2) =~= v@.skip(start + k + 2));
            }
            out.push(line);
            proof {
                assert(out@.map_values(|l: Vec<char>| l@) + lines_of(v@.skip(start + k + 2))
                    =~= prev.map_values(|l: Vec<char>| l@) + lines_of(v@.skip(start as int)));
            }
            start = start + k + 2;
        }
    }
    out
}

/// Reads a request header: the request of its first request line, its
/// headers, and the length of the header in bytes of its text; nothing
/// when the header has not ended, has no request line, or the request
/// line names no known method and URL.
pub fn parse_hdr(buf: &[u8]) -> (r: Option<(HTTP, Vec<(String, String)>, u128)>)
    ensures
        match r {
            Some((req, hs, len)) => parse_hdr_spec(utf8_lossy(buf@)) == Some(
                (http_view(req), pairs_of(hs@), len as nat),
            ),
            None => parse_hdr_spec(utf8_lossy(buf@)) is None,
        },
{
    let raw = from_utf8_lossy(buf);
    let text = chars_of(raw.as_str());
    let end = chars_of("\r\n\r\n");
    proof {
        reveal_strlit("\r\n\r\n");
        assert(end@ =~= crlf() + crlf());
    }
    let k = crate::compiler::find_seq_from_pub(&text, &end);
    if k >= text.len() {
        return None;
    }
    let head = slice_chars(&text, 0, k);
    assert(head@ =~= text@.take(k as int));
    let lines = lines_exec(&head);
    let ghost ls = lines@.map_values(|l: Vec<char>| l@);
    let mut i: usize = 0;
    while i < lines.len() && !(starts_with_exec(&lines[i], "GET") || starts_with_exec(&lines[i], "POST")
        || starts_with_exec(&lines[i], "PUT") || starts_with_exec(&lines[i], "DELETE"))
        invariant
            i <= lines@.len(),
            ls == lines@.map_values(|l: Vec<char>| l@),
            forall|j: int| 0 <= j < i ==> !is_req_line(#[trigger] ls[j]),
        decreases lines.len() - i,
    {
        i = i + 1;
    }
    proof {
        lemma_first_req_line(ls, i as int);
    }
    if i >= lines.len() {
        return None;
    }
    let req = match request_exec(&lines[i]) {
        Some(req) => req,
        None => return None,
    };
    let mut all: Vec<(String, String)> = Vec::new();
    let mut j: usize = 0;
    while j < lines.len()
        invariant
            j <= lines@.len(),
            ls == lines@.map_values(|l: Vec<char>| l@),
            pairs_of(all@) == headers_of(ls.take(j as int)),
        decreases lines.len() - j,
    {
        let ghost prev = all@;
        match header_exec(&lines[j]) {
            Some(h) => {
                all.push(h);
            },
            None => {},
        }
        proof {
            assert(ls.take(j as int + 1).drop_last() =~= ls.take(j as int));
            assert(ls.take(j as int + 1).last() == lines@[j as int]@);
            assert(pairs_of(all@) =~= headers_of(ls.take(j as int + 1)));
        }
        j = j + 1;
    }
    assert(ls.take(ls.len() as int) =~= ls);
    let hs = keep_last(&all);
    let len = utf8_len(string_of(&head).as_str()) + 4;
    Some((req, hs, len))
}

proof fn lemma_first_req_line(ls: Seq<Seq<char>>, i: int)
    requires
        0 <= i <= ls.len(),
        forall|j: int| 0 <= j < i ==> !is_req_line(#[trigger] ls[j]),
        i == ls.len() || is_req_line(ls[i]),
    ensures
        first_req_line(ls) == i,
    decreases ls.len(),
{
    if i > 0 {
        let t = ls.drop_first();
        assert(!is_req_line(ls[0]));
        assert forall|j: int| 0 <= j < i - 1 implies !is_req_line(#[trigger] t[j]) by {
            assert(t[j] == ls[j + 1]);
        }
        if i < ls.len() {
            assert(t[i - 1] == ls[i]);
        }
        lemma_first_req_line(t, i - 1);
    }
}

/// The headers, each name kept only at its last occurrence.
pub(crate) fn keep_last(all: &Vec<(String, String)>) -> (r: Vec<(String, String)>)
    ensures
        pairs_of(r@) == last_of_each(pairs_of(all@), all@.len()),
{
    let ghost hs = pairs_of(all@);
    let mut out: Vec<(String, String)> = Vec::new();
    let mut j: usize = 0;
    while j < all.len()
        invariant
            j <= all@.len(),
            hs == pairs_of(all@),
            pairs_of(out@) == last_of_each(hs, j as nat),
        decreases all.len() - j,
    {
        let mut later = false;
        let mut k: usize = j + 1;
        while k < all.len()
            invariant
                j < k <= all@.len(),
                hs == pairs_of(all@),
                later == exists|x: int| j < x < k && hs[x].0 == hs[j as int].0,
            decreases all.len() - k,
        {
            assert(hs[k as int] == (all@[k as int].0@, all@[k as int].1@));
            assert(hs[j as int] == (all@[j as int].0@, all@[j as int].1@));
            if str_eq(all[k].0.as_str(), all[j].0.as_str()) {
                later = true;
            }
            k = k + 1;
        }
        let ghost prev = out@;
        if !later {
            let a = all[j].0.clone();
            let b = all[j].1.clone();
            out.push((a, b));
            assert(pairs_of(out@) =~= pairs_of(prev).push(hs[j as int]));
        }
        assert(pairs_of(out@) =~= last_of_each(hs, j as nat + 1));
        j = j + 1;
    }
    out
}

} // verus!
