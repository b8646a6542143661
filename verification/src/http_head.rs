//! Reading HTTP/1.1 message heads with httparse: the header fields the
//! baseline pipeline decides on, and when a request has fully arrived.

use crate::lb::{last_of_each, pairs_of};
use crate::table::{key_index, lemma_key_index_take, lookup};
use crate::text::{eq_ignore_ascii_case, eq_ignore_ascii_case_spec, str_eq, to_lowercase, unicode_lower};
use vstd::prelude::*;
use vstd::utf8::{decode_utf8, valid_utf8};

verus! {

broadcast use vstd::string::group_string_axioms;

/// How far a message head could be read.
#[derive(Clone, Copy, Debug, PartialEq, Eq, Structural)]
pub enum HeadStatus {
    /// The bytes are not an HTTP/1.1 head.
    Invalid,
    /// The head has not fully arrived.
    Partial,
    /// The head is complete; the body starts at this offset.
    Complete(usize),
}

/// A message head: how far it was read, and its header fields (name,
/// value) when it is complete.
pub struct Head {
    pub status: HeadStatus,
    pub headers: Vec<(String, Vec<u8>)>,
}

/// A head by value.
pub open spec fn head_view(h: Head) -> (HeadStatus, Seq<(Seq<char>, Seq<u8>)>) {
    (h.status, h.headers@.map_values(|f: (String, Vec<u8>)| (f.0@, f.1@)))
}

/// What `httparse::Request::parse` reads from a buffer, with room for 64
/// header fields.
pub uninterp spec fn request_head(buf: Seq<u8>) -> (HeadStatus, Seq<(Seq<char>, Seq<u8>)>);

/// What `httparse::Response::parse` reads from a buffer, with room for 64
/// header fields.
pub uninterp spec fn response_head(buf: Seq<u8>) -> (HeadStatus, Seq<(Seq<char>, Seq<u8>)>);

/// Calls `httparse::Request::parse` on `buf` with room for 64 header
/// fields; the result is a function of the bytes alone, and a complete
/// head ends within them.
#[verifier::external_body]
fn parse_request_head(buf: &[u8]) -> (r: Head)
    ensures
        head_view(r) == request_head(buf@),
        r.status matches HeadStatus::Complete(n) ==> n <= buf@.len(),
{
    let mut fields = [httparse::EMPTY_HEADER; 64];
    let mut req = httparse::Request::new(&mut fields);
    match req.parse(buf) {
        Ok(httparse::Status::Complete(n)) => Head {
            status: HeadStatus::Complete(n),
            headers: req.headers.iter().map(|h| (h.name.to_string(), h.value.to_vec())).collect(),
        },
        Ok(httparse::Status::Partial) => Head { status: HeadStatus::Partial, headers: Vec::new() },
        Err(_) => Head { status: HeadStatus::Invalid, headers: Vec::new() },
    }
}

/// Calls `httparse::Response::parse` on `buf` with room for 64 header
/// fields; the result is a function of the bytes alone, and a complete
/// head ends within them.
#[verifier::external_body]
fn parse_response_head(buf: &[u8]) -> (r: Head)
    ensures
        head_view(r) == response_head(buf@),
        r.status matches HeadStatus::Complete(n) ==> n <= buf@.len(),
{
    let mut fields = [httparse::EMPTY_HEADER; 64];
    let mut res = httparse::Response::new(&mut fields);
    match res.parse(buf) {
        Ok(httparse::Status::Complete(n)) => Head {
            status: HeadStatus::Complete(n),
            headers: res.headers.iter().map(|h| (h.name.to_string(), h.value.to_vec())).collect(),
        },
        Ok(httparse::Status::Partial) => Head { status: HeadStatus::Partial, headers: Vec::new() },
        Err(_) => Head { status: HeadStatus::Invalid, headers: Vec::new() },
    }
}

/// Calls `String::from_utf8`, which gives the text the bytes encode when
/// they are UTF-8, and an error otherwise.
#[verifier::external_body]
fn string_from_utf8(v: Vec<u8>) -> (r: Option<String>)
    ensures
        r is Some <==> valid_utf8(v@),
        r matches Some(s) ==> s@ == decode_utf8(v@),
{
    String::from_utf8(v).ok()
}

/// Why a message head gives no header fields.
#[derive(Clone, Copy, Debug, PartialEq, Eq, Structural)]
pub enum HeadError {
    Invalid,
    Partial,
    /// A header value is not UTF-8.
    NotText,
}

/// The header fields of a complete head: names in lower case, values as
/// text, the last value of each name.
pub open spec fn fields_of(hs: Seq<(Seq<char>, Seq<u8>)>) -> Seq<(Seq<char>, Seq<char>)> {
    let all = hs.map_values(|f: (Seq<char>, Seq<u8>)| (unicode_lower(f.0), decode_utf8(f.1)));
    last_of_each(all, all.len())
}

/// Whether every header value is UTF-8.
pub open spec fn values_text(hs: Seq<(Seq<char>, Seq<u8>)>) -> bool {
    forall|i: int| 0 <= i < hs.len() ==> valid_utf8(#[trigger] hs[i].1)
}

/// The header fields of a head, with the offset of the body.
pub fn head_fields(head: &Head) -> (r: Result<(Vec<(String, String)>, usize), HeadError>)
    ensures
        match head_view(*head) {
            (HeadStatus::Invalid, _) => r == Err::<(Vec<(String, String)>, usize), HeadError>(
                HeadError::Invalid,
            ),
            (HeadStatus::Partial, _) => r == Err::<(Vec<(String, String)>, usize), HeadError>(
                HeadError::Partial,
            ),
            (HeadStatus::Complete(n), hs) => if values_text(hs) {
                r matches Ok((fs, m)) && m == n && pairs_of(fs@) == fields_of(hs)
            } else {
                r == Err::<(Vec<(String, String)>, usize), HeadError>(HeadError::NotText)
            },
        },
{
    let n = match head.status {
        HeadStatus::Invalid => return Err(HeadError::Invalid),
        HeadStatus::Partial => return Err(HeadError::Partial),
        HeadStatus::Complete(n) => n,
    };
    let ghost hs = head_view(*head).1;
    let mut all: Vec<(String, String)> = Vec::new();
    let mut i: usize = 0;
    while i < head.headers.len()
        invariant
            i <= head.headers@.len(),
            hs == head_view(*head).1,
            head.status == HeadStatus::Complete(n),
            forall|j: int| 0 <= j < i ==> valid_utf8(#[trigger] hs[j].1),
            pairs_of(all@) == hs.take(i as int).map_values(
                |f: (Seq<char>, Seq<u8>)| (unicode_lower(f.0), decode_utf8(f.1)),
            ),
        decreases head.headers.len() - i,
    {
        let name = to_lowercase(head.headers[i].0.as_str());
        let bytes = head.headers[i].1.clone();
        assert(bytes@ =~= head.headers@[i as int].1@);
        assert(hs[i as int] == (head.headers@[i as int].0@, head.headers@[i as int].1@));
        let value = match string_from_utf8(bytes) {
            Some(v) => v,
            None => {
                assert(!valid_utf8(hs[i as int].1));
                return Err(HeadError::NotText);
            },
        };
        let ghost prev = all@;
        all.push((name, value));
        proof {
            assert(hs[i as int] == (head.headers@[i as int].0@, head.headers@[i as int].1@));
            assert(pairs_of(all@) =~= pairs_of(prev).push((name@, value@)));
            assert(hs.take(i as int + 1) =~= hs.take(i as int).push(hs[i as int]));
            assert(pairs_of(all@) =~= hs.take(i as int + 1).map_values(
                |f: (Seq<char>, Seq<u8>)| (unicode_lower(f.0), decode_utf8(f.1)),
            ));
        }
        i = i + 1;
    }
    assert(hs.take(hs.len() as int) =~= hs);
    let fields = crate::lb::keep_last(&all);
    Ok((fields, n))
}

/// What `str::parse::<usize>` gives: an optional '+', then at least one
/// decimal digit, the value in range.
pub open spec fn usize_of(s: Seq<char>) -> Option<usize> {
    let d = if s.len() > 0 && s[0] == '+' {
        s.drop_first()
    } else {
        s
    };
    if d.len() > 0 && crate::text::all_digits(d) && crate::text::dec_value(d) <= usize::MAX {
        Some(crate::text::dec_value(d) as usize)
    } else {
        None
    }
}

fn parse_usize(s: &Vec<char>) -> (r: Option<usize>)
    ensures
        r == usize_of(s@),
{
    let digits = if s.len() > 0 && s[0] == '+' {
        crate::text::slice_chars(s, 1, s.len())
    } else {
        crate::text::slice_chars(s, 0, s.len())
    };
    proof {
        assert(s@.subrange(0, s@.len() as int) =~= s@);
        assert(s@.len() > 0 ==> s@.subrange(1, s@.len() as int) =~= s@.drop_first());
    }
    if digits.len() == 0 {
        return None;
    }
    let ghost d = if s@.len() > 0 && s@[0] == '+' {
        s@.drop_first()
    } else {
        s@
    };
    assert(digits@ == d);
    let mut acc: u128 = 0;
    let mut i: usize = 0;
    while i < digits.len()
        invariant
            i <= digits@.len(),
            digits@ == d,
            d == (if s@.len() > 0 && s@[0] == '+' {
                s@.drop_first()
            } else {
                s@
            }),
            digits@.len() > 0,
            crate::text::all_digits(digits@.take(i as int)),
            acc == crate::text::dec_value(digits@.take(i as int)),
            acc <= usize::MAX,
        decreases digits.len() - i,
    {
        let c = digits[i];
        if !('0' <= c && c <= '9') {
            assert(!crate::text::is_digit(digits@[i as int]));
            return None;
        }
        proof {
            let t = digits@.take(i as int + 1);
            assert(t.drop_last() =~= digits@.take(i as int));
            assert(t.last() == c);
        }
        acc = acc * 10 + (c as u32 - '0' as u32) as u128;
        i = i + 1;
        assert(crate::text::all_digits(digits@.take(i as int))) by {
            assert forall|j: int| 0 <= j < i implies crate::text::is_digit(
                #[trigger] digits@.take(i as int)[j],
            ) by {
                if j < i - 1 {
                    assert(digits@.take(i as int)[j] == digits@.take(i as int - 1)[j]);
                }
            }
        }
        if acc > usize::MAX as u128 {
            proof {
                crate::text::lemma_dec_value_prefix(digits@, i as int);
            }
            return None;
        }
    }
    assert(digits@.take(digits@.len() as int) =~= digits@);
    Some(acc as usize)
}

/// The index of the first field named "content-length" in any case, or
/// the number of fields.
pub open spec fn content_length_index(hs: Seq<(Seq<char>, Seq<u8>)>) -> nat
    decreases hs.len(),
{
    if hs.len() == 0 || eq_ignore_ascii_case_spec(hs[0].0, "content-length"@) {
        0
    } else {
        1 + content_length_index(hs.drop_first())
    }
}

/// The length of the body a head announces: the value of its first
/// Content-Length field when that is a number, otherwise 0.
pub open spec fn content_length_of(hs: Seq<(Seq<char>, Seq<u8>)>) -> usize {
    let i = content_length_index(hs) as int;
    if i < hs.len() && valid_utf8(hs[i].1) && usize_of(decode_utf8(hs[i].1)) is Some {
        usize_of(decode_utf8(hs[i].1))->0
    } else {
        0
    }
}

proof fn lemma_content_length_index(hs: Seq<(Seq<char>, Seq<u8>)>, i: int)
    requires
        0 <= i <= hs.len(),
        forall|j: int| 0 <= j < i ==> !eq_ignore_ascii_case_spec(#[trigger] hs[j].0, "content-length"@),
        i == hs.len() || eq_ignore_ascii_case_spec(hs[i].0, "content-length"@),
    ensures
        content_length_index(hs) == i,
    decreases hs.len(),
{
    if i > 0 {
        let t = hs.drop_first();
        assert(!eq_ignore_ascii_case_spec(hs[0].0, "content-length"@));
        assert forall|j: int| 0 <= j < i - 1 implies !eq_ignore_ascii_case_spec(
            #[trigger] t[j].0,
            "content-length"@,
        ) by {
            assert(t[j] == hs[j + 1]);
        }
        if i < hs.len() {
            assert(t[i - 1] == hs[i]);
        }
        lemma_content_length_index(t, i - 1);
    }
}

/// The body length a head announces.
pub fn content_length(head: &Head) -> (r: usize)
    ensures
        r == content_length_of(head_view(*head).1),
{
    let ghost hs = head_view(*head).1;
    let mut i: usize = 0;
    while i < head.headers.len() && !eq_ignore_ascii_case(
        head.headers[i].0.as_str(),
        "content-length",
    )
        invariant
            i <= head.headers@.len(),
            hs == head_view(*head).1,
            forall|j: int| 0 <= j < i ==> !eq_ignore_ascii_case_spec(#[trigger] hs[j].0, "content-length"@),
        decreases head.headers.len() - i,
    {
        assert(hs[i as int] == (head.headers@[i as int].0@, head.headers@[i as int].1@));
        i = i + 1;
    }
    proof {
        if i < hs.len() {
            assert(hs[i as int] == (head.headers@[i as int].0@, head.headers@[i as int].1@));
        }
        lemma_content_length_index(hs, i as int);
    }
    if i >= head.headers.len() {
        return 0;
    }
    assert(hs[i as int] == (head.headers@[i as int].0@, head.headers@[i as int].1@));
    let bytes = head.headers[i].1.clone();
    assert(bytes@ =~= head.headers@[i as int].1@);
    match string_from_utf8(bytes) {
        Some(text) => {
            let chars = crate::text::chars_of(text.as_str());
            match parse_usize(&chars) {
                Some(n) => n,
                None => 0,
            }
        },
        None => 0,
    }
}

/// How much of a request has arrived.
#[derive(Clone, Copy, Debug, PartialEq, Eq, Structural)]
pub enum Progress {
    /// The bytes are not a request.
    Invalid,
    /// The head has not fully arrived.
    Partial,
    /// The head has arrived, the body not fully.
    Incomplete(usize),
    /// The request has arrived: it is this many bytes long.
    Complete(usize),
    /// The announced request is longer than any buffer.
    TooLarge,
}

/// How much of a request of `hdr_len` head bytes and `con_len` body bytes
/// has arrived when `buf_len` bytes have.
pub fn request_progress(hdr_len: usize, con_len: usize, buf_len: usize) -> (r: Progress)
    requires
        hdr_len + con_len <= usize::MAX,
    ensures
        r == (if buf_len < hdr_len + con_len {
            Progress::Incomplete((hdr_len + con_len) as usize)
        } else {
            Progress::Complete((hdr_len + con_len) as usize)
        }),
{
    let req_len = hdr_len + con_len;
    if buf_len < req_len {
        Progress::Incomplete(req_len)
    } else {
        Progress::Complete(req_len)
    }
}

/// How much of the request in `buf` has arrived: the head as httparse
/// reads it, the body by the length the head announces.
pub open spec fn request_progress_of(buf: Seq<u8>) -> Progress {
    match request_head(buf).0 {
        HeadStatus::Invalid => Progress::Invalid,
        HeadStatus::Partial => Progress::Partial,
        HeadStatus::Complete(n) => {
            let c = content_length_of(request_head(buf).1);
            if n + c > usize::MAX {
                Progress::TooLarge
            } else if buf.len() < n + c {
                Progress::Incomplete((n + c) as usize)
            } else {
                Progress::Complete((n + c) as usize)
            }
        },
    }
}

/// How much of the request in `buf` has arrived: the head read with
/// httparse, the body by the announced length.
pub fn h1_request_progress(buf: &[u8]) -> (r: Progress)
    ensures
        r == request_progress_of(buf@),
{
    let head = parse_request_head(buf);
    let con_len = content_length(&head);
    match head.status {
        HeadStatus::Invalid => Progress::Invalid,
        HeadStatus::Partial => Progress::Partial,
        HeadStatus::Complete(n) => {
            if con_len > usize::MAX - n {
                Progress::TooLarge
            } else {
                request_progress(n, con_len, buf.len())
            }
        },
    }
}

/// How much of the message in `buf` has arrived: a request from
/// downstream, a response from upstream, its head as httparse reads it and
/// its body by the length the head announces.
pub open spec fn message_progress_of(buf: Seq<u8>, is_downstream: bool) -> Progress {
    let h = if is_downstream {
        request_head(buf)
    } else {
        response_head(buf)
    };
    match h.0 {
        HeadStatus::Invalid => Progress::Invalid,
        HeadStatus::Partial => Progress::Partial,
        HeadStatus::Complete(n) => {
            let c = content_length_of(h.1);
            if n + c > usize::MAX {
                Progress::TooLarge
            } else if buf.len() < n + c {
                Progress::Incomplete((n + c) as usize)
            } else {
                Progress::Complete((n + c) as usize)
            }
        },
    }
}

/// How much of the message in `buf` has arrived: a request from
/// downstream, a response from upstream.
pub fn message_progress(buf: &[u8], is_downstream: bool) -> (r: Progress)
    ensures
        r == message_progress_of(buf@, is_downstream),
{
    let head = if is_downstream {
        parse_request_head(buf)
    } else {
        parse_response_head(buf)
    };
    let con_len = content_length(&head);
    match head.status {
        HeadStatus::Invalid => Progress::Invalid,
        HeadStatus::Partial => Progress::Partial,
        HeadStatus::Complete(n) => {
            if con_len > usize::MAX - n {
                Progress::TooLarge
            } else {
                request_progress(n, con_len, buf.len())
            }
        },
    }
}

/// The header fields of the message in `buf`: a request from downstream,
/// a response from upstream.
pub fn message_fields(buf: &[u8], is_downstream: bool) -> (r: Result<(Vec<(String, String)>, usize), HeadError>)
    ensures
        ({
            let h = if is_downstream {
                request_head(buf@)
            } else {
                response_head(buf@)
            };
            match h {
                (HeadStatus::Invalid, _) => r == Err::<(Vec<(String, String)>, usize), HeadError>(
                    HeadError::Invalid,
                ),
                (HeadStatus::Partial, _) => r == Err::<(Vec<(String, String)>, usize), HeadError>(
                    HeadError::Partial,
                ),
                (HeadStatus::Complete(n), hs) => if values_text(hs) {
                    r matches Ok((fs, m)) && m == n && pairs_of(fs@) == fields_of(hs)
                } else {
                    r == Err::<(Vec<(String, String)>, usize), HeadError>(HeadError::NotText)
                },
            }
        }),
        r matches Ok((_, m)) ==> m <= buf@.len(),
{
    let head = if is_downstream {
        parse_request_head(buf)
    } else {
        parse_response_head(buf)
    };
    head_fields(&head)
}

/// The header line that tells upstream which downstream connection a
/// request came from.
pub open spec fn conn_id_line(port: u16) -> Seq<char> {
    "conn-id: "@ + crate::text::dec_chars(port as nat) + "\r\n"@
}

/// Inserts the conn-id header line before the empty line that ends the
/// head of `hdr_len` bytes.
pub fn insert_conn_id(buf: &mut Vec<u8>, hdr_len: usize, port: u16)
    requires
        2 <= hdr_len <= old(buf)@.len(),
    ensures
        final(buf)@ == old(buf)@.take(hdr_len - 2) + vstd::utf8::encode_utf8(conn_id_line(port))
            + old(buf)@.skip(hdr_len - 2),
{
    let mut line = String::new();
    crate::text::push_str(&mut line, "conn-id: ");
    crate::text::push_dec(&mut line, port as u128);
    crate::text::push_str(&mut line, "\r\n");
    assert(line@ =~= conn_id_line(port));
    let bytes = line.as_str().as_bytes();
    let mut out: Vec<u8> = Vec::new();
    let k = hdr_len - 2;
    let mut i: usize = 0;
    while i < k
        invariant
            i <= k <= buf@.len(),
            out@ == buf@.take(i as int),
        decreases k - i,
    {
        out.push(buf[i]);
        i = i + 1;
        assert(out@ =~= buf@.take(i as int));
    }
    let mut j: usize = 0;
    while j < bytes.len()
        invariant
            j <= bytes@.len(),
            out@ == buf@.take(k as int) + bytes@.take(j as int),
        decreases bytes.len() - j,
    {
        out.push(bytes[j]);
        j = j + 1;
        assert(out@ =~= buf@.take(k as int) + bytes@.take(j as int));
    }
    assert(bytes@.take(bytes@.len() as int) =~= bytes@);
    let mut m: usize = k;
    while m < buf.len()
        invariant
            k <= m <= buf@.len(),
            out@ == buf@.take(k as int) + bytes@ + buf@.subrange(k as int, m as int),
        decreases buf.len() - m,
    {
        out.push(buf[m]);
        m = m + 1;
        assert(out@ =~= buf@.take(k as int) + bytes@ + buf@.subrange(k as int, m as int));
    }
    assert(buf@.subrange(k as int, buf@.len() as int) =~= buf@.skip(k as int));
    *buf = out;
}

/// The head of the message in `buf`: a request from downstream, a
/// response from upstream.
pub open spec fn message_head(buf: Seq<u8>, is_downstream: bool) -> (HeadStatus, Seq<(Seq<char>, Seq<u8>)>) {
    if is_downstream {
        request_head(buf)
    } else {
        response_head(buf)
    }
}

fn field_index(fs: &Vec<(String, String)>, name: &str) -> (r: Option<usize>)
    ensures
        match r {
            Some(i) => i < fs@.len() && key_index(pairs_of(fs@), name@) == i,
            None => key_index(pairs_of(fs@), name@) == -1,
        },
{
    let ghost sv = pairs_of(fs@);
    let mut i: usize = 0;
    while i < fs.len()
        invariant
            i <= fs@.len(),
            sv == pairs_of(fs@),
            forall|j: int| 0 <= j < i ==> sv[j].0 != name@,
        decreases fs.len() - i,
    {
        if str_eq(fs[i].0.as_str(), name) {
            proof {
                lemma_key_index_take(sv, name@, i as int);
            }
            return Some(i);
        }
        i = i + 1;
    }
    proof {
        lemma_key_index_take(sv, name@, sv.len() as int);
    }
    None
}

/// The value of header field `name` among the fields `fs`.
pub fn field_value<'a>(fs: &'a Vec<(String, String)>, name: &str) -> (r: Option<&'a str>)
    ensures
        match r {
            Some(v) => lookup(pairs_of(fs@), name@) == Some(v@),
            None => lookup(pairs_of(fs@), name@) is None,
        },
{
    match field_index(fs, name) {
        Some(i) => Some(fs[i].1.as_str()),
        None => None,
    }
}

} // verus!
