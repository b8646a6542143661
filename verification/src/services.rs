//! The arguments and metadata of the benchmark services: the headers the
//! frontend sends, the addresses of the services it calls, and the
//! signature the echo backend answers with.

use crate::forwarding::{trim, trim_chars};
use crate::text::{chars_of, find_char, find_char_from, push_dec, push_str, slice_chars, str_eq, string_of};
use vstd::prelude::*;

verus! {

broadcast use vstd::string::group_string_axioms;

/// `s` split at each `c`, as `str::split` gives it.
pub open spec fn split_at_char(s: Seq<char>, c: char) -> Seq<Seq<char>>
    decreases s.len(),
{
    let k = find_char(s, c) as int;
    if k >= s.len() {
        seq![s]
    } else {
        seq![s.take(k)] + split_at_char(s.skip(k + 1), c)
    }
}

/// `s` split at each `c` without an empty last piece, as
/// `str::split_terminator` gives it.
pub open spec fn split_terminator(s: Seq<char>, c: char) -> Seq<Seq<char>> {
    let p = split_at_char(s, c);
    if p.last().len() == 0 {
        p.drop_last()
    } else {
        p
    }
}

proof fn lemma_split_nonempty(s: Seq<char>, c: char)
    ensures
        split_at_char(s, c).len() >= 1,
    decreases s.len(),
{
    let k = find_char(s, c) as int;
    if k < s.len() {
        lemma_split_nonempty(s.skip(k + 1), c);
    }
}

/// The pieces of `v` between the `c`s, without an empty last one.
pub fn split_terminator_exec(v: &Vec<char>, c: char) -> (r: Vec<Vec<char>>)
    ensures
        r@.map_values(|x: Vec<char>| x@) == split_terminator(v@, c),
{
    let mut out: Vec<Vec<char>> = Vec::new();
    let mut start: usize = 0;
    let mut done = false;
    assert(v@.skip(0) =~= v@);
    while !done
        invariant
            start <= v@.len(),
            !done ==> out@.map_values(|x: Vec<char>| x@) + split_at_char(v@.skip(start as int), c)
                == split_at_char(v@, c),
            done ==> out@.map_values(|x: Vec<char>| x@) == split_at_char(v@, c),
        decreases (if done { 0int } else { 1int }), v.len() - start,
    {
        let k = find_char_from(v, c, start);
        let piece = slice_chars(v, start, k);
        let ghost rest = v@.skip(start as int);
        let ghost prev = out@.map_values(|x: Vec<char>| x@);
        assert(piece@ =~= rest.take(k - start));
        out.push(piece);
        assert(out@.map_values(|x: Vec<char>| x@) =~= prev.push(piece@));
        if k >= v.len() {
            assert(rest.take(k - start) =~= rest);
            assert(split_at_char(rest, c) == seq![rest]);
            assert(prev.push(piece@) =~= prev + seq![rest]);
            done = true;
        } else {
            assert(rest.skip(k - start + 1) =~= v@.skip(k + 1));
            assert(prev.push(piece@) + split_at_char(v@.skip(k + 1), c) =~= prev + (seq![
                rest.take(k - start),
            ] + split_at_char(rest.skip(k - start + 1), c)));
            start = k + 1;
        }
    }
    proof {
        lemma_split_nonempty(v@, c);
    }
    let n = out.len();
    if out[n - 1].len() == 0 {
        let ghost all = out@.map_values(|x: Vec<char>| x@);
        out.pop();
        assert(out@.map_values(|x: Vec<char>| x@) =~= all.drop_last());
    }
    out
}

/// The address of service `i` under `prefix`: through the proxy, when
/// there is one, else directly.
pub open spec fn service_url_spec(proxy: Option<Seq<char>>, prefix: Seq<char>, i: nat) -> Seq<char> {
    match proxy {
        Some(p) => "http://"@ + p + "/"@ + prefix + crate::text::dec_chars(i),
        None => "http://"@ + prefix + crate::text::dec_chars(i) + "/"@,
    }
}

/// The address of service `i` under `prefix`.
pub fn service_url(proxy: Option<&str>, prefix: &str, i: u32) -> (r: String)
    ensures
        r@ == service_url_spec(
            match proxy {
                Some(p) => Some(p@),
                None => None,
            },
            prefix@,
            i as nat,
        ),
{
    let mut out = String::new();
    push_str(&mut out, "http://");
    match proxy {
        Some(p) => {
            push_str(&mut out, p);
            push_str(&mut out, "/");
            push_str(&mut out, prefix);
            push_dec(&mut out, i as u128);
        },
        None => {
            push_str(&mut out, prefix);
            push_dec(&mut out, i as u128);
            push_str(&mut out, "/");
        },
    }
    out
}

/// The header a "name: value" piece gives: the first two parts between
/// colons, trimmed; none when there are fewer.
pub open spec fn header_of_piece(piece: Seq<char>) -> Option<(Seq<char>, Seq<char>)> {
    let hs = split_terminator(piece, ':');
    if hs.len() >= 2 {
        Some((trim(hs[0]), trim(hs[1])))
    } else {
        None
    }
}

/// The "name: value" pieces of the arguments: each argument split at its
/// commas, every piece trimmed.
pub open spec fn header_pieces(args: Seq<Seq<char>>) -> Seq<Seq<char>> {
    args.map_values(|a: Seq<char>| split_terminator(a, ',').map_values(|p: Seq<char>| trim(p))).flatten()
}

/// The headers that the arguments name, in order; none when a piece names
/// no header.
pub open spec fn header_args_spec(args: Seq<Seq<char>>) -> Option<Seq<(Seq<char>, Seq<char>)>> {
    let ps = header_pieces(args);
    if forall|i: int| 0 <= i < ps.len() ==> (#[trigger] header_of_piece(ps[i])) is Some {
        Some(ps.map_values(|p: Seq<char>| header_of_piece(p)->0))
    } else {
        None
    }
}

fn piece_header(piece: &Vec<char>) -> (r: Option<(String, String)>)
    ensures
        match header_of_piece(piece@) {
            Some((k, v)) => r matches Some((a, b)) && a@ == k && b@ == v,
            None => r is None,
        },
{
    let hs = split_terminator_exec(piece, ':');
    if hs.len() < 2 {
        return None;
    }
    let ghost hv = hs@.map_values(|x: Vec<char>| x@);
    assert(hv[0] == hs@[0]@ && hv[1] == hs@[1]@);
    let k = string_of(&trim_chars(&hs[0]));
    let v = string_of(&trim_chars(&hs[1]));
    Some((k, v))
}

/// The headers that the frontend's header arguments name: each argument is
/// split at its commas into "name: value" pieces; none when a piece has no
/// colon-separated value.
pub fn header_args(args: &Vec<String>) -> (r: Option<Vec<(String, String)>>)
    ensures
        match header_args_spec(args@.map_values(|a: String| a@)) {
            Some(hs) => r matches Some(v) && v@.map_values(|p: (String, String)| (p.0@, p.1@)) == hs,
            None => r is None,
        },
{
    let ghost av = args@.map_values(|a: String| a@);
    let ghost per = av.map_values(|a: Seq<char>| split_terminator(a, ',').map_values(|p: Seq<char>| trim(p)));
    let mut out: Vec<(String, String)> = Vec::new();
    let mut i: usize = 0;
    while i < args.len()
        invariant
            i <= args@.len(),
            av == args@.map_values(|a: String| a@),
            per == av.map_values(|a: Seq<char>| split_terminator(a, ',').map_values(|p: Seq<char>| trim(p))),
            forall|x: int| 0 <= x < per.take(i as int).flatten().len() ==> (#[trigger] header_of_piece(
                per.take(i as int).flatten()[x],
            )) is Some,
            out@.map_values(|p: (String, String)| (p.0@, p.1@)) == per.take(i as int).flatten().map_values(
                |p: Seq<char>| header_of_piece(p)->0,
            ),
        decreases args.len() - i,
    {
        let pieces = split_terminator_exec(&chars_of(args[i].as_str()), ',');
        let ghost pv = pieces@.map_values(|x: Vec<char>| x@);
        assert(per[i as int] == pv.map_values(|p: Seq<char>| trim(p)));
        let ghost before = out@.map_values(|p: (String, String)| (p.0@, p.1@));
        let mut j: usize = 0;
        while j < pieces.len()
            invariant
                j <= pieces@.len(),
                i < args@.len(),
                av == args@.map_values(|a: String| a@),
                per == av.map_values(|a: Seq<char>| split_terminator(a, ',').map_values(|p: Seq<char>| trim(p))),
                per[i as int] == pv.map_values(|p: Seq<char>| trim(p)),
                pv == pieces@.map_values(|x: Vec<char>| x@),
                forall|x: int| 0 <= x < j ==> (#[trigger] header_of_piece(trim(pv[x]))) is Some,
                out@.map_values(|p: (String, String)| (p.0@, p.1@)) == before + pv.take(j as int).map_values(
                    |p: Seq<char>| header_of_piece(trim(p))->0,
                ),
            decreases pieces.len() - j,
        {
            let t = trim_chars(&pieces[j]);
            assert(t@ == trim(pv[j as int]));
            match piece_header(&t) {
                Some(h) => {
                    let ghost o = out@.map_values(|p: (String, String)| (p.0@, p.1@));
                    out.push(h);
                    assert(out@.map_values(|p: (String, String)| (p.0@, p.1@)) =~= o.push((h.0@, h.1@)));
                    assert(pv.take(j as int + 1).map_values(|p: Seq<char>| header_of_piece(trim(p))->0)
                        =~= pv.take(j as int).map_values(|p: Seq<char>| header_of_piece(trim(p))->0).push(
                        header_of_piece(trim(pv[j as int]))->0,
                    ));
                },
                None => {
                    proof {
                        let ps = header_pieces(av);
                        assert(per.take(i as int + 1).drop_last() =~= per.take(i as int));
                        per.take(i as int).lemma_flatten_push(per[i as int]);
                        assert(per.take(i as int + 1) =~= per.take(i as int).push(per[i as int]));
                        lemma_flatten_prefix(per, i as int + 1);
                        let x = per.take(i as int).flatten().len() + j;
                        assert(per.take(i as int + 1).flatten()[x] == per[i as int][j as int]);
                        assert(ps[x] == per[i as int][j as int]);
                        assert(header_of_piece(ps[x]) is None);
                    }
                    return None;
                },
            }
            j = j + 1;
        }
        proof {
            assert(pv.take(pv.len() as int) =~= pv);
            per.take(i as int).lemma_flatten_push(per[i as int]);
            assert(per.take(i as int + 1) =~= per.take(i as int).push(per[i as int]));
            let f0 = per.take(i as int).flatten();
            let f1 = per.take(i as int + 1).flatten();
            assert(f1 =~= f0 + per[i as int]);
            assert(f1.map_values(|p: Seq<char>| header_of_piece(p)->0) =~= f0.map_values(
                |p: Seq<char>| header_of_piece(p)->0,
            ) + pv.map_values(|p: Seq<char>| header_of_piece(trim(p))->0));
            assert forall|x: int| 0 <= x < f1.len() implies (#[trigger] header_of_piece(f1[x])) is Some by {
                if x >= f0.len() {
                    assert(f1[x] == per[i as int][x - f0.len()]);
                    assert(per[i as int][x - f0.len()] == trim(pv[x - f0.len()]));
                } else {
                    assert(f1[x] == f0[x]);
                }
            }
        }
        i = i + 1;
    }
    assert(per.take(args@.len() as int) =~= per);
    Some(out)
}

/// Where the flattening of a prefix sits in the flattening of the whole.
proof fn lemma_flatten_prefix<A>(ss: Seq<Seq<A>>, n: int)
    requires
        0 <= n <= ss.len(),
    ensures
        ss.take(n).flatten().len() <= ss.flatten().len(),
        forall|x: int| 0 <= x < ss.take(n).flatten().len() ==> ss.flatten()[x] == ss.take(n).flatten()[x],
    decreases ss.len() - n,
{
    if n < ss.len() {
        lemma_flatten_prefix(ss, n + 1);
        ss.take(n).lemma_flatten_push(ss[n]);
        assert(ss.take(n + 1) =~= ss.take(n).push(ss[n]));
    } else {
        assert(ss.take(n) =~= ss);
    }
}

/// Why the echo backend cannot start.
#[derive(Clone, Copy, Debug, PartialEq, Eq, Structural)]
pub enum MetaError {
    /// A metadata entry has no colon-separated value.
    Malformed,
    /// No metadata entry names the signature.
    NoSignature,
}

/// The signature that the metadata entries "key: value" give: the value of
/// the last entry whose key is "signature".
pub open spec fn signature_of(meta: Seq<Seq<char>>) -> Option<Seq<char>>
    decreases meta.len(),
{
    if meta.len() == 0 {
        None
    } else {
        match header_of_piece(meta.last()) {
            Some((k, v)) => if k == "signature"@ {
                Some(v)
            } else {
                signature_of(meta.drop_last())
            },
            None => signature_of(meta.drop_last()),
        }
    }
}

/// The signature of the echo backend from its metadata entries.
pub fn echo_signature(meta: &Vec<String>) -> (r: Result<String, MetaError>)
    ensures
        ({
            let mv = meta@.map_values(|m: String| m@);
            if exists|i: int| 0 <= i < mv.len() && (#[trigger] header_of_piece(mv[i])) is None {
                r == Err::<String, MetaError>(MetaError::Malformed)
            } else {
                match signature_of(mv) {
                    Some(s) => r matches Ok(x) && x@ == s,
                    None => r == Err::<String, MetaError>(MetaError::NoSignature),
                }
            }
        }),
{
    let ghost mv = meta@.map_values(|m: String| m@);
    let mut sig: Option<String> = None;
    let mut i: usize = 0;
    while i < meta.len()
        invariant
            i <= meta@.len(),
            mv == meta@.map_values(|m: String| m@),
            forall|x: int| 0 <= x < i ==> (#[trigger] header_of_piece(mv[x])) is Some,
            match signature_of(mv.take(i as int)) {
                Some(s) => sig matches Some(x) && x@ == s,
                None => sig is None,
            },
        decreases meta.len() - i,
    {
        assert(mv.take(i as int + 1).drop_last() =~= mv.take(i as int));
        assert(mv.take(i as int + 1).last() == meta@[i as int]@);
        match piece_header(&chars_of(meta[i].as_str())) {
            None => {
                assert(header_of_piece(mv[i as int]) is None);
                return Err(MetaError::Malformed);
            },
            Some((k, v)) => {
                if str_eq(k.as_str(), "signature") {
                    sig = Some(v);
                }
            },
        }
        i = i + 1;
    }
    assert(mv.take(meta@.len() as int) =~= mv);
    match sig {
        Some(s) => Ok(s),
        None => Err(MetaError::NoSignature),
    }
}

/// The echo backend: it answers every request with its signature and the
/// request's payload.
pub struct EchoService {
    pub signature: String,
}

impl EchoService {
    /// The service for the metadata entries "key: value".
    pub fn from_meta(meta: &Vec<String>) -> (r: Result<EchoService, MetaError>)
        ensures
            ({
                let mv = meta@.map_values(|m: String| m@);
                if exists|i: int| 0 <= i < mv.len() && (#[trigger] header_of_piece(mv[i])) is None {
                    r is Err && r->Err_0 == MetaError::Malformed
                } else {
                    match signature_of(mv) {
                        Some(s) => r matches Ok(x) && x.signature@ == s,
                        None => r is Err && r->Err_0 == MetaError::NoSignature,
                    }
                }
            }),
    {
        match echo_signature(meta) {
            Ok(signature) => Ok(EchoService { signature }),
            Err(e) => Err(e),
        }
    }

    /// The reply to a request: the signature and the payload.
    pub fn send(&self, payload: Vec<u8>) -> (r: (String, Vec<u8>))
        ensures
            r.0@ == self.signature@,
            r.1@ == payload@,
    {
        (self.signature.clone(), payload)
    }
}

} // verus!
