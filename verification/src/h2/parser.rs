//! The HTTP/2 parser: captures header field values as HPACK encodes them.

use crate::h2::dfa::{spec_capture, spec_push, Cursor, Dfa, DfaView};
use crate::h2::{
    create_header_maps, names_of, static_names, static_values, values_of, Action,
};
use crate::text::str_eq;
use httlib_huffman::EncoderError;
use vstd::prelude::*;

verus! {

/// The Huffman code (RFC 7541, appendix B) of `src`, as `httlib_huffman::encode`
/// produces it.
pub uninterp spec fn huffman_code(src: Seq<u8>) -> Seq<u8>;

#[verifier::external_type_specification]
#[verifier::external_body]
pub struct ExEncoderError(EncoderError);

/// Calls `httlib_huffman::encode` into an empty vector. Its table has a
/// code for each of the 256 byte values, so it never fails; each code is
/// at most 30 bits long, so the output has at most four bytes per input
/// byte.
#[verifier::external_body]
fn huffman_encode(src: &[u8]) -> (r: Result<Vec<u8>, EncoderError>)
    ensures
        match r {
            Ok(v) => v@ == huffman_code(src@) && v@.len() <= 4 * src@.len(),
            Err(_) => false,
        },
{
    let mut dst = Vec::new();
    match httlib_huffman::encode(src, &mut dst) {
        Ok(()) => Ok(dst),
        Err(e) => Err(e),
    }
}

/// Why configuring the parser failed.
#[derive(Clone, Copy, Debug, PartialEq, Eq, Structural)]
pub enum ParserError {
    /// The Huffman encoder refused the header name.
    InvalidHeaderName,
}

/// The index paired with `key` in `table`, first match first.
pub open spec fn find_index(table: Seq<(Seq<char>, usize)>, key: Seq<char>) -> Option<usize>
    decreases table.len(),
{
    if table.len() == 0 {
        None
    } else if table[0].0 == key {
        Some(table[0].1)
    } else {
        find_index(table.drop_first(), key)
    }
}

/// The value table paired with `key` in `table`, first match first.
pub open spec fn find_values(
    table: Seq<(Seq<char>, Seq<(Seq<char>, usize)>)>,
    key: Seq<char>,
) -> Option<Seq<(Seq<char>, usize)>>
    decreases table.len(),
{
    if table.len() == 0 {
        None
    } else if table[0].0 == key {
        Some(table[0].1)
    } else {
        find_values(table.drop_first(), key)
    }
}

/// The static table indices under which `key` may appear: its own index
/// when it is indexed by name, else the indices of all its values.
pub open spec fn static_indices(key: Seq<char>) -> Seq<usize> {
    match find_index(static_names(), key) {
        Some(i) => seq![i],
        None => match find_values(static_values(), key) {
            Some(vs) => vs.map_values(|p: (Seq<char>, usize)| p.1),
            None => seq![],
        },
    }
}

/// A DFA after the pattern `bytes` from `from` whose last transition
/// captures with `cid`.
pub open spec fn capture_pattern(d: DfaView, from: u16, bytes: Seq<u8>, cid: u8) -> DfaView {
    spec_capture(
        spec_push(
            Cursor { dfa: d, start: from, sid: from, prev_trans: None, cid: None },
            bytes,
        ),
        Some(cid),
    ).dfa
}

/// One capture pattern per static index, in order: the index byte
/// (the index plus 16) followed from `from`.
pub open spec fn capture_indices(d: DfaView, from: u16, idxs: Seq<usize>, cid: u8) -> DfaView
    decreases idxs.len(),
{
    if idxs.len() == 0 {
        d
    } else {
        capture_indices(
            capture_pattern(d, from, seq![(idxs[0] + 16) as u8], cid),
            from,
            idxs.drop_first(),
            cid,
        )
    }
}

/// `capture_http_hdr(key)`: a fresh capture id; a capture pattern for
/// each static index of `key`; a capture pattern for the literal name,
/// 16 followed by its Huffman code.
pub open spec fn spec_capture_http_hdr(d: DfaView, s_any: u16, key: Seq<char>) -> DfaView {
    let (d1, cid) = d.new_cid();
    let d2 = capture_indices(d1, s_any, static_indices(key), cid);
    capture_pattern(d2, s_any, seq![16u8] + huffman_code(vstd::utf8::encode_utf8(key)), cid)
}

pub struct Parser {
    s_any: u16,
    dfa: Dfa,
}

/// Adds the pattern `idx + 16` from `from`, capturing with `cid`.
fn insert_idx(dfa: &mut Dfa, from: u16, cid: u8, idx: u8)
    requires
        old(dfa).wf(),
        old(dfa)@.closed(),
        old(dfa)@.states.contains(from),
        old(dfa)@.room() >= 1,
        idx < 240,
    ensures
        final(dfa).wf(),
        final(dfa)@.closed(),
        final(dfa)@ == capture_pattern(old(dfa)@, from, seq![(idx + 16) as u8], cid),
        old(dfa)@.states.subset_of(final(dfa)@.states),
        final(dfa)@.room() + 1 >= old(dfa)@.room(),
        final(dfa)@.cid == old(dfa)@.cid,
{
    let mut key_encoded: Vec<u8> = Vec::new();
    key_encoded.insert(0, idx + 16);
    assert(key_encoded@ =~= seq![(idx + 16) as u8]);
    let mut b = dfa.start_pattern(from);
    b.push(key_encoded.as_slice());
    b.capture_field_value(Some(cid));
}

/// The index paired with `key` in `table`, first match first.
fn lookup_index(table: &Vec<(String, usize)>, key: &str) -> (r: Option<usize>)
    ensures
        r == find_index(names_of(table@), key@),
{
    let mut i: usize = 0;
    assert(names_of(table@).skip(0) =~= names_of(table@));
    while i < table.len()
        invariant
            i <= table@.len(),
            find_index(names_of(table@), key@) == find_index(names_of(table@).skip(i as int), key@),
        decreases table.len() - i,
    {
        assert(names_of(table@).skip(i as int).drop_first() =~= names_of(table@).skip(i + 1));
        if str_eq(table[i].0.as_str(), key) {
            return Some(table[i].1);
        }
        i = i + 1;
    }
    None
}

/// The position of the value table paired with `key` in `table`, first
/// match first.
fn lookup_values(table: &Vec<(String, Vec<(String, usize)>)>, key: &str) -> (r: Option<usize>)
    ensures
        match r {
            Some(i) => i < table@.len() && find_values(values_of(table@), key@) == Some(
                names_of(table@[i as int].1@),
            ),
            None => find_values(values_of(table@), key@) is None,
        },
{
    let mut i: usize = 0;
    assert(values_of(table@).skip(0) =~= values_of(table@));
    while i < table.len()
        invariant
            i <= table@.len(),
            find_values(values_of(table@), key@) == find_values(
                values_of(table@).skip(i as int),
                key@,
            ),
        decreases table.len() - i,
    {
        assert(values_of(table@).skip(i as int).drop_first() =~= values_of(table@).skip(i + 1));
        if str_eq(table[i].0.as_str(), key) {
            return Some(i);
        }
        i = i + 1;
    }
    None
}

proof fn lemma_find_index_in(t: Seq<(Seq<char>, usize)>, key: Seq<char>)
    ensures
        find_index(t, key) matches Some(i) ==> exists|j: int| 0 <= j < t.len() && #[trigger] t[j].1 == i,
    decreases t.len(),
{
    if t.len() > 0 && t[0].0 != key {
        lemma_find_index_in(t.drop_first(), key);
        if find_index(t, key) is Some {
            let j = choose|j: int| 0 <= j < t.drop_first().len() && #[trigger] t.drop_first()[j].1 == find_index(t, key)->0;
            assert(t[j + 1].1 == find_index(t, key)->0);
        }
    }
}

proof fn lemma_find_values_in(
    t: Seq<(Seq<char>, Seq<(Seq<char>, usize)>)>,
    key: Seq<char>,
)
    ensures
        find_values(t, key) matches Some(v) ==> exists|j: int| 0 <= j < t.len() && #[trigger] t[j].1 == v,
    decreases t.len(),
{
    if t.len() > 0 && t[0].0 != key {
        lemma_find_values_in(t.drop_first(), key);
        if find_values(t, key) is Some {
            let j = choose|j: int| 0 <= j < t.drop_first().len() && #[trigger] t.drop_first()[j].1 == find_values(t, key)->0;
            assert(t[j + 1].1 == find_values(t, key)->0);
        }
    }
}

proof fn lemma_static_names_small()
    ensures
        forall|j: int| 0 <= j < static_names().len() ==> #[trigger] static_names()[j].1 < 62,
{
    assert(static_names().len() == 47);
    assert forall|j: int| 0 <= j < static_names().len() implies #[trigger] static_names()[j].1 < 62 by {
        if j == 0 {
            assert(static_names()[0].1 < 62);
        } else if j == 1 {
            assert(static_names()[1].1 < 62);
        } else if j == 2 {
            assert(static_names()[2].1 < 62);
        } else if j == 3 {
            assert(static_names()[3].1 < 62);
        } else if j == 4 {
            assert(static_names()[4].1 < 62);
        } else if j == 5 {
            assert(static_names()[5].1 < 62);
        } else if j == 6 {
            assert(static_names()[6].1 < 62);
        } else if j == 7 {
            assert(static_names()[7].1 < 62);
        } else if j == 8 {
            assert(static_names()[8].1 < 62);
        } else if j == 9 {
            assert(static_names()[9].1 < 62);
        } else if j == 10 {
            assert(static_names()[10].1 < 62);
        } else if j == 11 {
            assert(static_names()[11].1 < 62);
        } else if j == 12 {
            assert(static_names()[12].1 < 62);
        } else if j == 13 {
            assert(static_names()[13].1 < 62);
        } else if j == 14 {
            assert(static_names()[14].1 < 62);
        } else if j == 15 {
            assert(static_names()[15].1 < 62);
        } else if j == 16 {
            assert(static_names()[16].1 < 62);
        } else if j == 17 {
            assert(static_names()[17].1 < 62);
        } else if j == 18 {
            assert(static_names()[18].1 < 62);
        } else if j == 19 {
            assert(static_names()[19].1 < 62);
        } else if j == 20 {
            assert(static_names()[20].1 < 62);
        } else if j == 21 {
            assert(static_names()[21].1 < 62);
        } else if j == 22 {
            assert(static_names()[22].1 < 62);
        } else if j == 23 {
            assert(static_names()[23].1 < 62);
        } else if j == 24 {
            assert(static_names()[24].1 < 62);
        } else if j == 25 {
            assert(static_names()[25].1 < 62);
        } else if j == 26 {
            assert(static_names()[26].1 < 62);
        } else if j == 27 {
            assert(static_names()[27].1 < 62);
        } else if j == 28 {
            assert(static_names()[28].1 < 62);
        } else if j == 29 {
            assert(static_names()[29].1 < 62);
        } else if j == 30 {
            assert(static_names()[30].1 < 62);
        } else if j == 31 {
            assert(static_names()[31].1 < 62);
        } else if j == 32 {
            assert(static_names()[32].1 < 62);
        } else if j == 33 {
            assert(static_names()[33].1 < 62);
        } else if j == 34 {
            assert(static_names()[34].1 < 62);
        } else if j == 35 {
            assert(static_names()[35].1 < 62);
        } else if j == 36 {
            assert(static_names()[36].1 < 62);
        } else if j == 37 {
            assert(static_names()[37].1 < 62);
        } else if j == 38 {
            assert(static_names()[38].1 < 62);
        } else if j == 39 {
            assert(static_names()[39].1 < 62);
        } else if j == 40 {
            assert(static_names()[40].1 < 62);
        } else if j == 41 {
            assert(static_names()[41].1 < 62);
        } else if j == 42 {
            assert(static_names()[42].1 < 62);
        } else if j == 43 {
            assert(static_names()[43].1 < 62);
        } else if j == 44 {
            assert(static_names()[44].1 < 62);
        } else if j == 45 {
            assert(static_names()[45].1 < 62);
        } else if j == 46 {
            assert(static_names()[46].1 < 62);
        }
    }
}

proof fn lemma_static_values_small()
    ensures
        forall|j: int| 0 <= j < static_values().len() ==> (#[trigger] static_values()[j]).1.len() <= 7
            && forall|q: int| 0 <= q < static_values()[j].1.len() ==> static_values()[j].1[q].1 < 62,
{
    assert(static_values().len() == 5);
    assert forall|j: int| 0 <= j < static_values().len() implies (#[trigger] static_values()[j]).1.len() <= 7
        && forall|q: int| 0 <= q < static_values()[j].1.len() ==> static_values()[j].1[q].1 < 62 by {
        if j == 0 {
            assert(static_values()[0].1.len() == 2);
            assert forall|q: int| 0 <= q < 2 implies #[trigger] static_values()[0].1[q].1 < 62 by {
                if q == 0 {
                    assert(static_values()[0].1[0].1 < 62);
                } else if q == 1 {
                    assert(static_values()[0].1[1].1 < 62);
                }
            }
        } else if j == 1 {
            assert(static_values()[1].1.len() == 2);
            assert forall|q: int| 0 <= q < 2 implies #[trigger] static_values()[1].1[q].1 < 62 by {
                if q == 0 {
                    assert(static_values()[1].1[0].1 < 62);
                } else if q == 1 {
                    assert(static_values()[1].1[1].1 < 62);
                }
            }
        } else if j == 2 {
            assert(static_values()[2].1.len() == 2);
            assert forall|q: int| 0 <= q < 2 implies #[trigger] static_values()[2].1[q].1 < 62 by {
                if q == 0 {
                    assert(static_values()[2].1[0].1 < 62);
                } else if q == 1 {
                    assert(static_values()[2].1[1].1 < 62);
                }
            }
        } else if j == 3 {
            assert(static_values()[3].1.len() == 7);
            assert forall|q: int| 0 <= q < 7 implies #[trigger] static_values()[3].1[q].1 < 62 by {
                if q == 0 {
                    assert(static_values()[3].1[0].1 < 62);
                } else if q == 1 {
                    assert(static_values()[3].1[1].1 < 62);
                } else if q == 2 {
                    assert(static_values()[3].1[2].1 < 62);
                } else if q == 3 {
                    assert(static_values()[3].1[3].1 < 62);
                } else if q == 4 {
                    assert(static_values()[3].1[4].1 < 62);
                } else if q == 5 {
                    assert(static_values()[3].1[5].1 < 62);
                } else if q == 6 {
                    assert(static_values()[3].1[6].1 < 62);
                }
            }
        } else if j == 4 {
            assert(static_values()[4].1.len() == 1);
            assert forall|q: int| 0 <= q < 1 implies #[trigger] static_values()[4].1[q].1 < 62 by {
                if q == 0 {
                    assert(static_values()[4].1[0].1 < 62);
                }
            }
        }
    }
}

pub proof fn lemma_static_indices_small(key: Seq<char>)
    ensures
        static_indices(key).len() <= 7,
        forall|j: int| 0 <= j < static_indices(key).len() ==> #[trigger] static_indices(key)[j] < 62,
{
    lemma_find_index_in(static_names(), key);
    lemma_find_values_in(static_values(), key);
    lemma_static_names_small();
    lemma_static_values_small();
}

impl Parser {
    pub closed spec fn dfa_view(&self) -> DfaView {
        self.dfa@
    }

    pub closed spec fn any_state(&self) -> u16 {
        self.s_any
    }

    pub closed spec fn wf(&self) -> bool {
        &&& self.dfa.wf()
        &&& self.dfa@.closed()
        &&& self.dfa@.states.contains(self.s_any)
    }

    /// Creates a new HTTP/2 parser whose DFA holds the two reserved states.
    pub fn new(s_init: u16, s_any: u16) -> (r: Parser)
        ensures
            r.wf(),
            r.any_state() == s_any,
            r.dfa_view().states == set![s_init, s_any],
            r.dfa_view().trans == Map::<(u16, u8), (u16, Action)>::empty(),
            r.dfa_view().sid == 0,
            r.dfa_view().cid == 0,
            r.dfa_view().rid == 0,
    {
        let states = vec![s_init, s_any];
        let dfa = Dfa::new(states);
        proof {
            assert(seq![s_init, s_any].to_set() =~= set![s_init, s_any]) by {
                assert(seq![s_init, s_any].contains(s_any) && seq![s_init, s_any][0] == s_init);
            }
        }
        Parser { s_any, dfa }
    }

    /// How many more states the DFA can take.
    pub fn free_states(&self) -> (r: u32)
        ensures
            r == self.dfa_view().room(),
    {
        self.dfa.free_states()
    }

    /// The number of range ids handed out so far.
    pub fn num_ranges(&self) -> (r: u8)
        ensures
            r == self.dfa_view().rid,
    {
        self.dfa.num_ranges()
    }

    pub fn num_captures(&self) -> (r: u8)
        ensures
            r == self.dfa_view().cid,
    {
        self.dfa.num_captures()
    }

    pub fn num_states(&self) -> (r: usize)
        ensures
            r == self.dfa_view().states.len(),
    {
        self.dfa.num_states()
    }

    /// Configures the parser to capture the value of the header `key`:
    /// under each static table index of `key`, and under the literal name.
    pub fn capture_http_hdr(&mut self, key: &str) -> (r: Result<(), ParserError>)
        requires
            old(self).wf(),
            old(self).dfa_view().cid < 255,
            old(self).dfa_view().room() >= static_indices(key@).len() + 4
                * vstd::utf8::encode_utf8(key@).len() + 1,
        ensures
            final(self).wf(),
            final(self).any_state() == old(self).any_state(),
            r is Ok,
            final(self).dfa_view() == spec_capture_http_hdr(
                old(self).dfa_view(),
                old(self).any_state(),
                key@,
            ),
    {
        proof {
            lemma_static_indices_small(key@);
        }
        let ghost d0 = self.dfa@;
        let cid = self.dfa.insert_new_capture_start();
        let (st_keys, st_hfs) = create_header_maps();
        let s_any = self.s_any;
        let ghost idxs = static_indices(key@);
        let ghost d1 = self.dfa@;
        if let Some(idx) = lookup_index(&st_keys, key) {
            proof {
                reveal_with_fuel(capture_indices, 2);
            }
            assert(idxs =~= seq![idx]);
            assert(idxs[0] < 62);
            insert_idx(&mut self.dfa, s_any, cid, idx as u8);
            assert(self.dfa@ == capture_indices(d1, s_any, idxs, cid));
        } else if let Some(vi) = lookup_values(&st_hfs, key) {
            let vals = &st_hfs[vi].1;
            assert(names_of(vals@).map_values(|p: (Seq<char>, usize)| p.1) =~= idxs);
            let mut j: usize = 0;
            assert(idxs.skip(0) =~= idxs);
            while j < vals.len()
                invariant
                    self.s_any == s_any,
                    self.dfa.wf(),
                    self.dfa@.closed(),
                    self.dfa@.states.contains(s_any),
                    j <= vals@.len(),
                    vals@.len() == idxs.len(),
                    idxs.len() <= 7,
                    forall|q: int| 0 <= q < idxs.len() ==> #[trigger] idxs[q] < 62,
                    forall|q: int| 0 <= q < idxs.len() ==> vals@[q].1 == #[trigger] idxs[q],
                    self.dfa@.room() + j >= d1.room(),
                    d1.room() >= idxs.len() + 4 * vstd::utf8::encode_utf8(key@).len(),
                    self.dfa@.cid == d1.cid,
                    d1.states.subset_of(self.dfa@.states),
                    capture_indices(d1, s_any, idxs, cid) == capture_indices(
                        self.dfa@,
                        s_any,
                        idxs.skip(j as int),
                        cid,
                    ),
                decreases vals.len() - j,
            {
                assert(idxs.skip(j as int).drop_first() =~= idxs.skip(j + 1));
                assert(idxs.skip(j as int)[0] == idxs[j as int]);
                let idx = vals[j].1;
                insert_idx(&mut self.dfa, s_any, cid, idx as u8);
                j = j + 1;
            }
            assert(idxs.skip(j as int).len() == 0);
        } else {
            assert(idxs.len() == 0);
        }
        let mut key_encoded = match huffman_encode(key.as_bytes()) {
            Ok(v) => v,
            Err(_) => {
                return Err(ParserError::InvalidHeaderName);
            },
        };
        key_encoded.insert(0, 16);
        assert(key_encoded@ =~= seq![16u8] + huffman_code(vstd::utf8::encode_utf8(key@)));
        let mut b = self.dfa.start_pattern(s_any);
        b.push(key_encoded.as_slice());
        b.capture_field_value(Some(cid));
        Ok(())
    }

    /// All states, each once, in no particular order.
    pub fn iter_states(&self) -> (r: Vec<u16>)
        ensures
            r@.to_set() == self.dfa_view().states,
            r@.no_duplicates(),
    {
        self.dfa.iter_states()
    }

    /// All transitions as (from_state, to_state, input_byte, action), each
    /// once, in no particular order.
    pub fn iter_transitions(&self) -> (r: Vec<(u16, u16, u8, Action)>)
        requires
            self.wf(),
        ensures
            forall|t: (u16, u16, u8, Action)|
                r@.contains(t) <==> self.dfa_view().get(t.0, t.2) == Some((t.1, t.3)),
            r@.len() == self.dfa_view().trans.dom().len(),
    {
        self.dfa.iter_transitions()
    }
}

} // verus!
