//! The HTTP/2 pattern DFA: a byte automaton over HPACK-encoded header
//! fields, and the parser that fills it.

pub mod dfa;
pub mod parser;

use vstd::prelude::*;

pub use parser::Parser;


verus! {

broadcast use vstd::string::group_string_axioms;

/// What the data plane does when it takes a transition.
#[derive(Clone, Copy, Debug, PartialEq, Eq, Structural)]
pub enum Action {
    /// Capture a field value identified by the capture id
    CaptureFieldValue(u8),
    /// Terminates parsing
    Done,
    /// No action
    NoAction,
}

impl Action {
    pub fn is_some(&self) -> (r: bool)
        ensures
            r == !(*self is NoAction),
    {
        !self.is_none()
    }

    pub fn is_none(&self) -> (r: bool)
        ensures
            r == (*self is NoAction),
    {
        match self {
            Action::NoAction => true,
            _ => false,
        }
    }
}

/// The HPACK static table entries that are indexed by name alone:
/// (header name, index).
pub open spec fn static_names() -> Seq<(Seq<char>, usize)> {
    seq![
        ("authority"@, 1usize),
        ("accept-charset"@, 15usize),
        ("accept-language"@, 17usize),
        ("accept-ranges"@, 18usize),
        ("accept"@, 19usize),
        ("access-control-allow-origin"@, 20usize),
        ("age"@, 21usize),
        ("allow"@, 22usize),
        ("authorization"@, 23usize),
        ("cache-control"@, 24usize),
        ("content-disposition"@, 25usize),
        ("content-encoding"@, 26usize),
        ("content-language"@, 27usize),
        ("content-length"@, 28usize),
        ("content-location"@, 29usize),
        ("content-range"@, 30usize),
        ("content-type"@, 31usize),
        ("cookie"@, 32usize),
        ("date"@, 33usize),
        ("etag"@, 34usize),
        ("expect"@, 35usize),
        ("expires"@, 36usize),
        ("from"@, 37usize),
        ("host"@, 38usize),
        ("if-match"@, 39usize),
        ("if-modified-since"@, 40usize),
        ("if-none-match"@, 41usize),
        ("if-range"@, 42usize),
        ("if-unmodified-since"@, 43usize),
        ("last-modified"@, 44usize),
        ("link"@, 45usize),
        ("location"@, 46usize),
        ("max-forwards"@, 47usize),
        ("proxy-authenticate"@, 48usize),
        ("proxy-authorization"@, 49usize),
        ("range"@, 50usize),
        ("referer"@, 51usize),
        ("refresh"@, 52usize),
        ("retry-after"@, 53usize),
        ("server"@, 54usize),
        ("set-cookie"@, 55usize),
        ("strict-transport-security"@, 56usize),
        ("transfer-encoding"@, 57usize),
        ("user-agent"@, 58usize),
        ("vary"@, 59usize),
        ("via"@, 60usize),
        ("www-authenticate"@, 61usize),
    ]
}

/// The HPACK static table entries that are indexed by name and value:
/// (header name, [(value, index)]). Pseudo headers are named without
/// their leading colon.
pub open spec fn static_values() -> Seq<(Seq<char>, Seq<(Seq<char>, usize)>)> {
    seq![
        ("method"@, seq![("GET"@, 2usize), ("POST"@, 3usize)]),
        ("path"@, seq![("/"@, 4usize), ("/index.html"@, 5usize)]),
        ("scheme"@, seq![("http"@, 6usize), ("https"@, 7usize)]),
        ("status"@, seq![("200"@, 8usize), ("204"@, 9usize), ("206"@, 10usize), ("304"@, 11usize), ("400"@, 12usize), ("404"@, 13usize), ("500"@, 14usize)]),
        ("accept-encoding"@, seq![("gzip, deflate"@, 16usize)]),
    ]
}

/// The HPACK static table of RFC 7541, Appendix A: entry `i` (from 1) at
/// position `i - 1`, as (header name, value), with pseudo-header names
/// written without their leading colon.
pub open spec fn hpack_static_table() -> Seq<(Seq<char>, Seq<char>)> {
    seq![
        ("authority"@, ""@),
        ("method"@, "GET"@),
        ("method"@, "POST"@),
        ("path"@, "/"@),
        ("path"@, "/index.html"@),
        ("scheme"@, "http"@),
        ("scheme"@, "https"@),
        ("status"@, "200"@),
        ("status"@, "204"@),
        ("status"@, "206"@),
        ("status"@, "304"@),
        ("status"@, "400"@),
        ("status"@, "404"@),
        ("status"@, "500"@),
        ("accept-charset"@, ""@),
        ("accept-encoding"@, "gzip, deflate"@),
        ("accept-language"@, ""@),
        ("accept-ranges"@, ""@),
        ("accept"@, ""@),
        ("access-control-allow-origin"@, ""@),
        ("age"@, ""@),
        ("allow"@, ""@),
        ("authorization"@, ""@),
        ("cache-control"@, ""@),
        ("content-disposition"@, ""@),
        ("content-encoding"@, ""@),
        ("content-language"@, ""@),
        ("content-length"@, ""@),
        ("content-location"@, ""@),
        ("content-range"@, ""@),
        ("content-type"@, ""@),
        ("cookie"@, ""@),
        ("date"@, ""@),
        ("etag"@, ""@),
        ("expect"@, ""@),
        ("expires"@, ""@),
        ("from"@, ""@),
        ("host"@, ""@),
        ("if-match"@, ""@),
        ("if-modified-since"@, ""@),
        ("if-none-match"@, ""@),
        ("if-range"@, ""@),
        ("if-unmodified-since"@, ""@),
        ("last-modified"@, ""@),
        ("link"@, ""@),
        ("location"@, ""@),
        ("max-forwards"@, ""@),
        ("proxy-authenticate"@, ""@),
        ("proxy-authorization"@, ""@),
        ("range"@, ""@),
        ("referer"@, ""@),
        ("refresh"@, ""@),
        ("retry-after"@, ""@),
        ("server"@, ""@),
        ("set-cookie"@, ""@),
        ("strict-transport-security"@, ""@),
        ("transfer-encoding"@, ""@),
        ("user-agent"@, ""@),
        ("vary"@, ""@),
        ("via"@, ""@),
        ("www-authenticate"@, ""@),
    ]
}

/// Whether one of the tables the DFAs are built from has index `n`.
pub open spec fn static_index_used(n: usize) -> bool {
    (exists|i: int|
        0 <= i < static_names().len() && (#[trigger] static_names()[i]).1 == n) || (exists|
        i: int,
        j: int,
    |
        0 <= i < static_values().len() && 0 <= j < static_values()[i].1.len() && (
        #[trigger] static_values()[i].1[j]).1 == n)
}

/// Whether the static table has `(name, value)` at index `index`.
pub open spec fn static_entry(name: Seq<char>, value: Seq<char>, index: usize) -> bool {
    1 <= index <= 61 && hpack_static_table()[index - 1] == (name, value)
}

/// The tables the DFAs are built from agree with the HPACK static table:
/// every header indexed by name alone has its static index, with an empty
/// value there, and every header indexed by name and value has the static
/// index of that pair, and every index of the table is one of them. So,
/// for instance, `content-type` is 31 and `cookie` is 32.
#[verifier::rlimit(100)]
pub proof fn law_static_tables_match_hpack()
    ensures
        forall|i: int|
            0 <= i < static_names().len() ==> static_entry(
                (#[trigger] static_names()[i]).0,
                ""@,
                static_names()[i].1,
            ),
        forall|i: int, j: int|
            0 <= i < static_values().len() && 0 <= j < static_values()[i].1.len() ==> static_entry(
                static_values()[i].0,
                (#[trigger] static_values()[i].1[j]).0,
                static_values()[i].1[j].1,
            ),
        forall|n: usize| 1 <= n <= 61 ==> #[trigger] static_index_used(n),
{
    assert forall|i: int| 0 <= i < static_names().len() implies static_entry(
        (#[trigger] static_names()[i]).0,
        ""@,
        static_names()[i].1,
    ) by {
        assert(static_names().len() == 47);
        if i == 0 {
            assert(static_names()[i] == ("authority"@, 1usize));
            assert(hpack_static_table()[0] == ("authority"@, ""@));
        } else if i == 1 {
            assert(static_names()[i] == ("accept-charset"@, 15usize));
            assert(hpack_static_table()[14] == ("accept-charset"@, ""@));
        } else if i == 2 {
            assert(static_names()[i] == ("accept-language"@, 17usize));
            assert(hpack_static_table()[16] == ("accept-language"@, ""@));
        } else if i == 3 {
            assert(static_names()[i] == ("accept-ranges"@, 18usize));
            assert(hpack_static_table()[17] == ("accept-ranges"@, ""@));
        } else if i == 4 {
            assert(static_names()[i] == ("accept"@, 19usize));
            assert(hpack_static_table()[18] == ("accept"@, ""@));
        } else if i == 5 {
            assert(static_names()[i] == ("access-control-allow-origin"@, 20usize));
            assert(hpack_static_table()[19] == ("access-control-allow-origin"@, ""@));
        } else if i == 6 {
            assert(static_names()[i] == ("age"@, 21usize));
            assert(hpack_static_table()[20] == ("age"@, ""@));
        } else if i == 7 {
            assert(static_names()[i] == ("allow"@, 22usize));
            assert(hpack_static_table()[21] == ("allow"@, ""@));
        } else if i == 8 {
            assert(static_names()[i] == ("authorization"@, 23usize));
            assert(hpack_static_table()[22] == ("authorization"@, ""@));
        } else if i == 9 {
            assert(static_names()[i] == ("cache-control"@, 24usize));
            assert(hpack_static_table()[23] == ("cache-control"@, ""@));
        } else if i == 10 {
            assert(static_names()[i] == ("content-disposition"@, 25usize));
            assert(hpack_static_table()[24] == ("content-disposition"@, ""@));
        } else if i == 11 {
            assert(static_names()[i] == ("content-encoding"@, 26usize));
            assert(hpack_static_table()[25] == ("content-encoding"@, ""@));
        } else if i == 12 {
            assert(static_names()[i] == ("content-language"@, 27usize));
            assert(hpack_static_table()[26] == ("content-language"@, ""@));
        } else if i == 13 {
            assert(static_names()[i] == ("content-length"@, 28usize));
            assert(hpack_static_table()[27] == ("content-length"@, ""@));
        } else if i == 14 {
            assert(static_names()[i] == ("content-location"@, 29usize));
            assert(hpack_static_table()[28] == ("content-location"@, ""@));
        } else if i == 15 {
            assert(static_names()[i] == ("content-range"@, 30usize));
            assert(hpack_static_table()[29] == ("content-range"@, ""@));
        } else if i == 16 {
            assert(static_names()[i] == ("content-type"@, 31usize));
            assert(hpack_static_table()[30] == ("content-type"@, ""@));
        } else if i == 17 {
            assert(static_names()[i] == ("cookie"@, 32usize));
            assert(hpack_static_table()[31] == ("cookie"@, ""@));
        } else if i == 18 {
            assert(static_names()[i] == ("date"@, 33usize));
            assert(hpack_static_table()[32] == ("date"@, ""@));
        } else if i == 19 {
            assert(static_names()[i] == ("etag"@, 34usize));
            assert(hpack_static_table()[33] == ("etag"@, ""@));
        } else if i == 20 {
            assert(static_names()[i] == ("expect"@, 35usize));
            assert(hpack_static_table()[34] == ("expect"@, ""@));
        } else if i == 21 {
            assert(static_names()[i] == ("expires"@, 36usize));
            assert(hpack_static_table()[35] == ("expires"@, ""@));
        } else if i == 22 {
            assert(static_names()[i] == ("from"@, 37usize));
            assert(hpack_static_table()[36] == ("from"@, ""@));
        } else if i == 23 {
            assert(static_names()[i] == ("host"@, 38usize));
            assert(hpack_static_table()[37] == ("host"@, ""@));
        } else if i == 24 {
            assert(static_names()[i] == ("if-match"@, 39usize));
            assert(hpack_static_table()[38] == ("if-match"@, ""@));
        } else if i == 25 {
            assert(static_names()[i] == ("if-modified-since"@, 40usize));
            assert(hpack_static_table()[39] == ("if-modified-since"@, ""@));
        } else if i == 26 {
            assert(static_names()[i] == ("if-none-match"@, 41usize));
            assert(hpack_static_table()[40] == ("if-none-match"@, ""@));
        } else if i == 27 {
            assert(static_names()[i] == ("if-range"@, 42usize));
            assert(hpack_static_table()[41] == ("if-range"@, ""@));
        } else if i == 28 {
            assert(static_names()[i] == ("if-unmodified-since"@, 43usize));
            assert(hpack_static_table()[42] == ("if-unmodified-since"@, ""@));
        } else if i == 29 {
            assert(static_names()[i] == ("last-modified"@, 44usize));
            assert(hpack_static_table()[43] == ("last-modified"@, ""@));
        } else if i == 30 {
            assert(static_names()[i] == ("link"@, 45usize));
            assert(hpack_static_table()[44] == ("link"@, ""@));
        } else if i == 31 {
            assert(static_names()[i] == ("location"@, 46usize));
            assert(hpack_static_table()[45] == ("location"@, ""@));
        } else if i == 32 {
            assert(static_names()[i] == ("max-forwards"@, 47usize));
            assert(hpack_static_table()[46] == ("max-forwards"@, ""@));
        } else if i == 33 {
            assert(static_names()[i] == ("proxy-authenticate"@, 48usize));
            assert(hpack_static_table()[47] == ("proxy-authenticate"@, ""@));
        } else if i == 34 {
            assert(static_names()[i] == ("proxy-authorization"@, 49usize));
            assert(hpack_static_table()[48] == ("proxy-authorization"@, ""@));
        } else if i == 35 {
            assert(static_names()[i] == ("range"@, 50usize));
            assert(hpack_static_table()[49] == ("range"@, ""@));
        } else if i == 36 {
            assert(static_names()[i] == ("referer"@, 51usize));
            assert(hpack_static_table()[50] == ("referer"@, ""@));
        } else if i == 37 {
            assert(static_names()[i] == ("refresh"@, 52usize));
            assert(hpack_static_table()[51] == ("refresh"@, ""@));
        } else if i == 38 {
            assert(static_names()[i] == ("retry-after"@, 53usize));
            assert(hpack_static_table()[52] == ("retry-after"@, ""@));
        } else if i == 39 {
            assert(static_names()[i] == ("server"@, 54usize));
            assert(hpack_static_table()[53] == ("server"@, ""@));
        } else if i == 40 {
            assert(static_names()[i] == ("set-cookie"@, 55usize));
            assert(hpack_static_table()[54] == ("set-cookie"@, ""@));
        } else if i == 41 {
            assert(static_names()[i] == ("strict-transport-security"@, 56usize));
            assert(hpack_static_table()[55] == ("strict-transport-security"@, ""@));
        } else if i == 42 {
            assert(static_names()[i] == ("transfer-encoding"@, 57usize));
            assert(hpack_static_table()[56] == ("transfer-encoding"@, ""@));
        } else if i == 43 {
            assert(static_names()[i] == ("user-agent"@, 58usize));
            assert(hpack_static_table()[57] == ("user-agent"@, ""@));
        } else if i == 44 {
            assert(static_names()[i] == ("vary"@, 59usize));
            assert(hpack_static_table()[58] == ("vary"@, ""@));
        } else if i == 45 {
            assert(static_names()[i] == ("via"@, 60usize));
            assert(hpack_static_table()[59] == ("via"@, ""@));
        } else if i == 46 {
            assert(static_names()[i] == ("www-authenticate"@, 61usize));
            assert(hpack_static_table()[60] == ("www-authenticate"@, ""@));
        }
    }
    assert forall|i: int, j: int| 0 <= i < static_values().len() && 0 <= j < static_values()[i].1.len() implies static_entry(
        static_values()[i].0,
        (#[trigger] static_values()[i].1[j]).0,
        static_values()[i].1[j].1,
    ) by {
        assert(static_values().len() == 5);
        assert(static_values()[0].1.len() == 2 && static_values()[1].1.len() == 2 && static_values()[2].1.len() == 2 && static_values()[3].1.len() == 7 && static_values()[4].1.len() == 1);
        if i == 0 && j == 0 {
            assert(static_values()[i].0 == "method"@);
            assert(static_values()[i].1[j] == ("GET"@, 2usize));
            assert(hpack_static_table()[1] == ("method"@, "GET"@));
        } else if i == 0 && j == 1 {
            assert(static_values()[i].0 == "method"@);
            assert(static_values()[i].1[j] == ("POST"@, 3usize));
            assert(hpack_static_table()[2] == ("method"@, "POST"@));
        } else if i == 1 && j == 0 {
            assert(static_values()[i].0 == "path"@);
            assert(static_values()[i].1[j] == ("/"@, 4usize));
            assert(hpack_static_table()[3] == ("path"@, "/"@));
        } else if i == 1 && j == 1 {
            assert(static_values()[i].0 == "path"@);
            assert(static_values()[i].1[j] == ("/index.html"@, 5usize));
            assert(hpack_static_table()[4] == ("path"@, "/index.html"@));
        } else if i == 2 && j == 0 {
            assert(static_values()[i].0 == "scheme"@);
            assert(static_values()[i].1[j] == ("http"@, 6usize));
            assert(hpack_static_table()[5] == ("scheme"@, "http"@));
        } else if i == 2 && j == 1 {
            assert(static_values()[i].0 == "scheme"@);
            assert(static_values()[i].1[j] == ("https"@, 7usize));
            assert(hpack_static_table()[6] == ("scheme"@, "https"@));
        } else if i == 3 && j == 0 {
            assert(static_values()[i].0 == "status"@);
            assert(static_values()[i].1[j] == ("200"@, 8usize));
            assert(hpack_static_table()[7] == ("status"@, "200"@));
        } else if i == 3 && j == 1 {
            assert(static_values()[i].0 == "status"@);
            assert(static_values()[i].1[j] == ("204"@, 9usize));
            assert(hpack_static_table()[8] == ("status"@, "204"@));
        } else if i == 3 && j == 2 {
            assert(static_values()[i].0 == "status"@);
            assert(static_values()[i].1[j] == ("206"@, 10usize));
            assert(hpack_static_table()[9] == ("status"@, "206"@));
        } else if i == 3 && j == 3 {
            assert(static_values()[i].0 == "status"@);
            assert(static_values()[i].1[j] == ("304"@, 11usize));
            assert(hpack_static_table()[10] == ("status"@, "304"@));
        } else if i == 3 && j == 4 {
            assert(static_values()[i].0 == "status"@);
            assert(static_values()[i].1[j] == ("400"@, 12usize));
            assert(hpack_static_table()[11] == ("status"@, "400"@));
        } else if i == 3 && j == 5 {
            assert(static_values()[i].0 == "status"@);
            assert(static_values()[i].1[j] == ("404"@, 13usize));
            assert(hpack_static_table()[12] == ("status"@, "404"@));
        } else if i == 3 && j == 6 {
            assert(static_values()[i].0 == "status"@);
            assert(static_values()[i].1[j] == ("500"@, 14usize));
            assert(hpack_static_table()[13] == ("status"@, "500"@));
        } else if i == 4 && j == 0 {
            assert(static_values()[i].0 == "accept-encoding"@);
            assert(static_values()[i].1[j] == ("gzip, deflate"@, 16usize));
            assert(hpack_static_table()[15] == ("accept-encoding"@, "gzip, deflate"@));
        }
    }
    assert forall|n: usize| 1 <= n <= 61 implies #[trigger] static_index_used(n) by {
        assert(static_names().len() == 47);
        assert(static_values().len() == 5);
        assert(static_values()[0].1.len() == 2 && static_values()[1].1.len() == 2 && static_values()[2].1.len() == 2 && static_values()[3].1.len() == 7 && static_values()[4].1.len() == 1);
        if n == 1 {
            assert(static_names()[0].1 == 1);
        } else if n == 2 {
            assert(static_values()[0].1[0].1 == 2);
        } else if n == 3 {
            assert(static_values()[0].1[1].1 == 3);
        } else if n == 4 {
            assert(static_values()[1].1[0].1 == 4);
        } else if n == 5 {
            assert(static_values()[1].1[1].1 == 5);
        } else if n == 6 {
            assert(static_values()[2].1[0].1 == 6);
        } else if n == 7 {
            assert(static_values()[2].1[1].1 == 7);
        } else if n == 8 {
            assert(static_values()[3].1[0].1 == 8);
        } else if n == 9 {
            assert(static_values()[3].1[1].1 == 9);
        } else if n == 10 {
            assert(static_values()[3].1[2].1 == 10);
        } else if n == 11 {
            assert(static_values()[3].1[3].1 == 11);
        } else if n == 12 {
            assert(static_values()[3].1[4].1 == 12);
        } else if n == 13 {
            assert(static_values()[3].1[5].1 == 13);
        } else if n == 14 {
            assert(static_values()[3].1[6].1 == 14);
        } else if n == 15 {
            assert(static_names()[1].1 == 15);
        } else if n == 16 {
            assert(static_values()[4].1[0].1 == 16);
        } else if n == 17 {
            assert(static_names()[2].1 == 17);
        } else if n == 18 {
            assert(static_names()[3].1 == 18);
        } else if n == 19 {
            assert(static_names()[4].1 == 19);
        } else if n == 20 {
            assert(static_names()[5].1 == 20);
        } else if n == 21 {
            assert(static_names()[6].1 == 21);
        } else if n == 22 {
            assert(static_names()[7].1 == 22);
        } else if n == 23 {
            assert(static_names()[8].1 == 23);
        } else if n == 24 {
            assert(static_names()[9].1 == 24);
        } else if n == 25 {
            assert(static_names()[10].1 == 25);
        } else if n == 26 {
            assert(static_names()[11].1 == 26);
        } else if n == 27 {
            assert(static_names()[12].1 == 27);
        } else if n == 28 {
            assert(static_names()[13].1 == 28);
        } else if n == 29 {
            assert(static_names()[14].1 == 29);
        } else if n == 30 {
            assert(static_names()[15].1 == 30);
        } else if n == 31 {
            assert(static_names()[16].1 == 31);
        } else if n == 32 {
            assert(static_names()[17].1 == 32);
        } else if n == 33 {
            assert(static_names()[18].1 == 33);
        } else if n == 34 {
            assert(static_names()[19].1 == 34);
        } else if n == 35 {
            assert(static_names()[20].1 == 35);
        } else if n == 36 {
            assert(static_names()[21].1 == 36);
        } else if n == 37 {
            assert(static_names()[22].1 == 37);
        } else if n == 38 {
            assert(static_names()[23].1 == 38);
        } else if n == 39 {
            assert(static_names()[24].1 == 39);
        } else if n == 40 {
            assert(static_names()[25].1 == 40);
        } else if n == 41 {
            assert(static_names()[26].1 == 41);
        } else if n == 42 {
            assert(static_names()[27].1 == 42);
        } else if n == 43 {
            assert(static_names()[28].1 == 43);
        } else if n == 44 {
            assert(static_names()[29].1 == 44);
        } else if n == 45 {
            assert(static_names()[30].1 == 45);
        } else if n == 46 {
            assert(static_names()[31].1 == 46);
        } else if n == 47 {
            assert(static_names()[32].1 == 47);
        } else if n == 48 {
            assert(static_names()[33].1 == 48);
        } else if n == 49 {
            assert(static_names()[34].1 == 49);
        } else if n == 50 {
            assert(static_names()[35].1 == 50);
        } else if n == 51 {
            assert(static_names()[36].1 == 51);
        } else if n == 52 {
            assert(static_names()[37].1 == 52);
        } else if n == 53 {
            assert(static_names()[38].1 == 53);
        } else if n == 54 {
            assert(static_names()[39].1 == 54);
        } else if n == 55 {
            assert(static_names()[40].1 == 55);
        } else if n == 56 {
            assert(static_names()[41].1 == 56);
        } else if n == 57 {
            assert(static_names()[42].1 == 57);
        } else if n == 58 {
            assert(static_names()[43].1 == 58);
        } else if n == 59 {
            assert(static_names()[44].1 == 59);
        } else if n == 60 {
            assert(static_names()[45].1 == 60);
        } else if n == 61 {
            assert(static_names()[46].1 == 61);
        }
    }
}

pub open spec fn names_of(v: Seq<(String, usize)>) -> Seq<(Seq<char>, usize)> {
    v.map_values(|p: (String, usize)| (p.0@, p.1))
}

pub open spec fn values_of(v: Seq<(String, Vec<(String, usize)>)>) -> Seq<(Seq<char>, Seq<(Seq<char>, usize)>)> {
    v.map_values(|p: (String, Vec<(String, usize)>)| (p.0@, names_of(p.1@)))
}

/// The HPACK static table, split into the headers indexed by name alone
/// and the headers indexed by name and value.
pub fn create_header_maps() -> (r: (Vec<(String, usize)>, Vec<(String, Vec<(String, usize)>)>))
    ensures
        names_of(r.0@) == static_names(),
        values_of(r.1@) == static_values(),
{
    let mut headers_without_values: Vec<(String, usize)> = Vec::new();
    let mut headers_with_values: Vec<(String, Vec<(String, usize)>)> = Vec::new();

    headers_without_values.push(("authority".to_string(), 1));
    headers_without_values.push(("accept-charset".to_string(), 15));
    headers_without_values.push(("accept-language".to_string(), 17));
    headers_without_values.push(("accept-ranges".to_string(), 18));
    headers_without_values.push(("accept".to_string(), 19));
    headers_without_values.push(("access-control-allow-origin".to_string(), 20));
    headers_without_values.push(("age".to_string(), 21));
    headers_without_values.push(("allow".to_string(), 22));
    headers_without_values.push(("authorization".to_string(), 23));
    headers_without_values.push(("cache-control".to_string(), 24));
    headers_without_values.push(("content-disposition".to_string(), 25));
    headers_without_values.push(("content-encoding".to_string(), 26));
    headers_without_values.push(("content-language".to_string(), 27));
    headers_without_values.push(("content-length".to_string(), 28));
    headers_without_values.push(("content-location".to_string(), 29));
    headers_without_values.push(("content-range".to_string(), 30));
    headers_without_values.push(("content-type".to_string(), 31));
    headers_without_values.push(("cookie".to_string(), 32));
    headers_without_values.push(("date".to_string(), 33));
    headers_without_values.push(("etag".to_string(), 34));
    headers_without_values.push(("expect".to_string(), 35));
    headers_without_values.push(("expires".to_string(), 36));
    headers_without_values.push(("from".to_string(), 37));
    headers_without_values.push(("host".to_string(), 38));
    headers_without_values.push(("if-match".to_string(), 39));
    headers_without_values.push(("if-modified-since".to_string(), 40));
    headers_without_values.push(("if-none-match".to_string(), 41));
    headers_without_values.push(("if-range".to_string(), 42));
    headers_without_values.push(("if-unmodified-since".to_string(), 43));
    headers_without_values.push(("last-modified".to_string(), 44));
    headers_without_values.push(("link".to_string(), 45));
    headers_without_values.push(("location".to_string(), 46));
    headers_without_values.push(("max-forwards".to_string(), 47));
    headers_without_values.push(("proxy-authenticate".to_string(), 48));
    headers_without_values.push(("proxy-authorization".to_string(), 49));
    headers_without_values.push(("range".to_string(), 50));
    headers_without_values.push(("referer".to_string(), 51));
    headers_without_values.push(("refresh".to_string(), 52));
    headers_without_values.push(("retry-after".to_string(), 53));
    headers_without_values.push(("server".to_string(), 54));
    headers_without_values.push(("set-cookie".to_string(), 55));
    headers_without_values.push(("strict-transport-security".to_string(), 56));
    headers_without_values.push(("transfer-encoding".to_string(), 57));
    headers_without_values.push(("user-agent".to_string(), 58));
    headers_without_values.push(("vary".to_string(), 59));
    headers_without_values.push(("via".to_string(), 60));
    headers_without_values.push(("www-authenticate".to_string(), 61));

    let mut method_map: Vec<(String, usize)> = Vec::new();
    method_map.push(("GET".to_string(), 2));
    method_map.push(("POST".to_string(), 3));
    assert(names_of(method_map@) =~= seq![("GET"@, 2usize), ("POST"@, 3usize)]);
    headers_with_values.push(("method".to_string(), method_map));

    let mut path_map: Vec<(String, usize)> = Vec::new();
    path_map.push(("/".to_string(), 4));
    path_map.push(("/index.html".to_string(), 5));
    assert(names_of(path_map@) =~= seq![("/"@, 4usize), ("/index.html"@, 5usize)]);
    headers_with_values.push(("path".to_string(), path_map));

    let mut scheme_map: Vec<(String, usize)> = Vec::new();
    scheme_map.push(("http".to_string(), 6));
    scheme_map.push(("https".to_string(), 7));
    assert(names_of(scheme_map@) =~= seq![("http"@, 6usize), ("https"@, 7usize)]);
    headers_with_values.push(("scheme".to_string(), scheme_map));

    let mut status_map: Vec<(String, usize)> = Vec::new();
    status_map.push(("200".to_string(), 8));
    status_map.push(("204".to_string(), 9));
    status_map.push(("206".to_string(), 10));
    status_map.push(("304".to_string(), 11));
    status_map.push(("400".to_string(), 12));
    status_map.push(("404".to_string(), 13));
    status_map.push(("500".to_string(), 14));
    assert(names_of(status_map@) =~= seq![("200"@, 8usize), ("204"@, 9usize), ("206"@, 10usize), ("304"@, 11usize), ("400"@, 12usize), ("404"@, 13usize), ("500"@, 14usize)]);
    headers_with_values.push(("status".to_string(), status_map));

    let mut accept_encoding_map: Vec<(String, usize)> = Vec::new();
    accept_encoding_map.push(("gzip, deflate".to_string(), 16));
    assert(names_of(accept_encoding_map@) =~= seq![("gzip, deflate"@, 16usize)]);
    headers_with_values.push(("accept-encoding".to_string(), accept_encoding_map));

    assert(names_of(headers_without_values@) =~= static_names());
    assert(values_of(headers_with_values@) =~= static_values());
    (headers_without_values, headers_with_values)
}

} // verus!
