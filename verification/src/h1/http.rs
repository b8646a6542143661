//! The HTTP/1.1 parser: the header patterns that the data plane matches.

use crate::h1::dfa::{
    apply, as_result, grows, lemma_run_step, run, start_cursor, Cursor, Dfa, DfaView, Op,
};
use crate::h1::{Action, DfaError};
use vstd::prelude::*;

verus! {

/// `\r\n` then parsing ends on `\r\n`: the empty line that closes the header.
pub open spec fn hdr_end_ops() -> Seq<Op> {
    seq![Op::Push("\r\n"@), Op::DoneOn("\r\n"@)]
}

/// `<method> <path> HTTP/1.1\r\n`, capturing the method and the path.
pub open spec fn req_status_line_ops(s_any: u16) -> Seq<Op> {
    seq![
        Op::StartCapturing,
        Op::PushOptional('*'),
        Op::EndCapturing(" "@),
        Op::StartCapturing,
        Op::PushOptional('*'),
        Op::Push(" HTTP/1.1"@),
        Op::EndRestart("\r\n"@, s_any),
    ]
}

/// `HTTP/1.1 <status>\r\n`, capturing the status.
pub open spec fn status_code_ops(s_any: u16) -> Seq<Op> {
    seq![
        Op::Push("HTTP/1.1 "@),
        Op::StartCapturing,
        Op::PushOptional('*'),
        Op::EndRestart("\r\n"@, s_any),
    ]
}

/// `\r\n<key>[ \t]*:[ \t]*<value>\r\n`, capturing the value.
pub open spec fn hdr_ops(key: Seq<char>, s_any: u16) -> Seq<Op> {
    seq![
        Op::Push("\r\n"@),
        Op::Push(key),
        Op::PushOptional('\t'),
        Op::PushOptional(' '),
        Op::Push(":"@),
        Op::PushOptional('\t'),
        Op::PushOptional(' '),
        Op::StartCapturing,
        Op::PushOptional('*'),
        Op::EndRestart("\r\n"@, s_any),
    ]
}

/// `\r\nAuthorization: Bearer <claims>.<signature>\r\n`, capturing the
/// header and claims of the token, then its signature.
pub open spec fn hdr_auth_ops(s_any: u16) -> Seq<Op> {
    seq![
        Op::Push("\r\n"@),
        Op::Push("Authorization"@),
        Op::PushOptional('\t'),
        Op::PushOptional(' '),
        Op::Push(":"@),
        Op::PushOptional('\t'),
        Op::PushOptional(' '),
        Op::Push("Bearer "@),
        Op::StartCapturing,
        Op::PushOptional('*'),
        Op::Push("."@),
        Op::PushOptional('*'),
        Op::EndCapturing("."@),
        Op::StartCapturing,
        Op::PushOptional('*'),
        Op::EndRestart("\r\n"@, s_any),
    ]
}

/// The DFA after the steps of one pattern starting at `from`, and the error
/// that stopped them, if any.
pub open spec fn pattern(d: DfaView, from: u16, ops: Seq<Op>) -> (DfaView, Result<(), DfaError>) {
    let r = run(start_cursor(d, from), ops);
    (r.0.dfa, as_result(r.1))
}

pub struct HttpParser {
    pub s_init: u16,
    pub s_any: u16,
    dfa: Dfa,
}

impl HttpParser {
    pub closed spec fn dfa_view(&self) -> DfaView {
        self.dfa@
    }

    pub closed spec fn init_state(&self) -> u16 {
        self.s_init
    }

    pub closed spec fn any_state(&self) -> u16 {
        self.s_any
    }

    /// The DFA is well formed, every transition joins two states, and both
    /// reserved states are states.
    pub closed spec fn wf(&self) -> bool {
        &&& self.dfa.wf()
        &&& self.dfa@.closed()
        &&& self.dfa@.states.contains(self.s_init)
        &&& self.dfa@.states.contains(self.s_any)
    }

    pub fn new(s_init: u16, s_any: u16) -> (r: HttpParser)
        ensures
            r.wf(),
            r.init_state() == s_init,
            r.any_state() == s_any,
            r.dfa_view().states == set![s_init, s_any],
            r.dfa_view().trans == Map::<(u16, char), (u16, Action)>::empty(),
            r.dfa_view().sid == 0,
            r.dfa_view().cid == 0,
            r.dfa_view().rid == 0,
    {
        let states = vec![s_init, s_any];
        let dfa = Dfa::new(states);
        proof {
            assert(seq![s_init, s_any].to_set() =~= set![s_init, s_any]) by {
                assert(seq![s_init, s_any].contains(s_any) && seq![s_init, s_any][0] == s_init);
            }
        }
        HttpParser { s_init, s_any, dfa }
    }

    /// Parsing ends at the empty line after the header.
    pub fn done_on_http_hdr_end(&mut self) -> (r: Result<(), DfaError>)
        requires
            old(self).wf(),
            old(self).dfa_view().room() >= 5,
        ensures
            final(self).wf(),
            final(self).init_state() == old(self).init_state(),
            final(self).any_state() == old(self).any_state(),
            (final(self).dfa_view(), r) == pattern(
                old(self).dfa_view(),
                old(self).any_state(),
                hdr_end_ops(),
            ),
    {
        proof {
            reveal_strlit("\r\n");
        }
        let ghost ops = hdr_end_ops();
        let s_any = self.s_any;
        let mut b = self.dfa.start_pattern(s_any);
        let ghost c0 = b.cur();
        assert(ops.skip(0) =~= ops);
        proof {
            lemma_run_step(b.cur(), ops, 0);
        }
        b.push("\r\n")?;
        proof {
            lemma_run_step(b.cur(), ops, 1);
        }
        b.done_on("\r\n")?;
        assert(ops.skip(2).len() == 0);
        Ok(())
    }

    /// Captures the method and the path of a request line.
    pub fn match_http_req_status_line(&mut self) -> (r: Result<(), DfaError>)
        requires
            old(self).wf(),
            old(self).dfa_view().room() >= 17,
            old(self).dfa_view().cid < 254,
            old(self).dfa_view().rid < 254,
        ensures
            final(self).wf(),
            final(self).init_state() == old(self).init_state(),
            final(self).any_state() == old(self).any_state(),
            (final(self).dfa_view(), r) == pattern(
                old(self).dfa_view(),
                old(self).init_state(),
                req_status_line_ops(old(self).any_state()),
            ),
    {
        proof {
            reveal_strlit("\r\n");
            reveal_strlit(" ");
            reveal_strlit(" HTTP/1.1");
        }
        let ghost ops = req_status_line_ops(self.s_any);
        let s_init = self.s_init;
        let s_any = self.s_any;
        let mut b = self.dfa.start_pattern(s_init);
        assert(ops.skip(0) =~= ops);
        proof {
            lemma_run_step(b.cur(), ops, 0);
        }
        b.start_capturing();
        proof {
            lemma_run_step(b.cur(), ops, 1);
        }
        b.push_optional('*')?;
        proof {
            lemma_run_step(b.cur(), ops, 2);
        }
        b.end_capturing(" ")?;
        proof {
            lemma_run_step(b.cur(), ops, 3);
        }
        b.start_capturing();
        proof {
            lemma_run_step(b.cur(), ops, 4);
        }
        b.push_optional('*')?;
        proof {
            lemma_run_step(b.cur(), ops, 5);
        }
        b.push(" HTTP/1.1")?;
        proof {
            lemma_run_step(b.cur(), ops, 6);
        }
        b.end_caputuring_and_restart_with("\r\n", s_any)?;
        assert(ops.skip(7).len() == 0);
        Ok(())
    }

    /// Captures the status code of a status line.
    pub fn match_http_status_code(&mut self) -> (r: Result<(), DfaError>)
        requires
            old(self).wf(),
            old(self).dfa_view().room() >= 14,
            old(self).dfa_view().cid < 255,
            old(self).dfa_view().rid < 255,
        ensures
            final(self).wf(),
            final(self).init_state() == old(self).init_state(),
            final(self).any_state() == old(self).any_state(),
            (final(self).dfa_view(), r) == pattern(
                old(self).dfa_view(),
                old(self).init_state(),
                status_code_ops(old(self).any_state()),
            ),
    {
        proof {
            reveal_strlit("\r\n");
            reveal_strlit("HTTP/1.1 ");
        }
        let ghost ops = status_code_ops(self.s_any);
        let s_init = self.s_init;
        let s_any = self.s_any;
        let mut b = self.dfa.start_pattern(s_init);
        assert(ops.skip(0) =~= ops);
        proof {
            lemma_run_step(b.cur(), ops, 0);
        }
        b.push("HTTP/1.1 ")?;
        proof {
            lemma_run_step(b.cur(), ops, 1);
        }
        b.start_capturing();
        proof {
            lemma_run_step(b.cur(), ops, 2);
        }
        b.push_optional('*')?;
        proof {
            lemma_run_step(b.cur(), ops, 3);
        }
        b.end_caputuring_and_restart_with("\r\n", s_any)?;
        assert(ops.skip(4).len() == 0);
        Ok(())
    }

    /// Captures the value of the header `key`.
    pub fn match_http_hdr(&mut self, key: &str) -> (r: Result<(), DfaError>)
        requires
            old(self).wf(),
            old(self).dfa_view().room() >= key@.len() + 12,
            old(self).dfa_view().cid < 255,
            old(self).dfa_view().rid < 255,
        ensures
            final(self).wf(),
            final(self).init_state() == old(self).init_state(),
            final(self).any_state() == old(self).any_state(),
            (final(self).dfa_view(), r) == pattern(
                old(self).dfa_view(),
                old(self).any_state(),
                hdr_ops(key@, old(self).any_state()),
            ),
    {
        proof {
            reveal_strlit("\r\n");
            reveal_strlit(":");
        }
        let ghost ops = hdr_ops(key@, self.s_any);
        let s_any = self.s_any;
        let mut b = self.dfa.start_pattern(s_any);
        assert(ops.skip(0) =~= ops);
        proof {
            lemma_run_step(b.cur(), ops, 0);
        }
        b.push("\r\n")?;
        proof {
            lemma_run_step(b.cur(), ops, 1);
        }
        b.push(key)?;
        proof {
            lemma_run_step(b.cur(), ops, 2);
        }
        b.push_optional('\t')?;
        proof {
            lemma_run_step(b.cur(), ops, 3);
        }
        b.push_optional(' ')?;
        proof {
            lemma_run_step(b.cur(), ops, 4);
        }
        b.push(":")?;
        proof {
            lemma_run_step(b.cur(), ops, 5);
        }
        b.push_optional('\t')?;
        proof {
            lemma_run_step(b.cur(), ops, 6);
        }
        b.push_optional(' ')?;
        proof {
            lemma_run_step(b.cur(), ops, 7);
        }
        b.start_capturing();
        proof {
            lemma_run_step(b.cur(), ops, 8);
        }
        b.push_optional('*')?;
        proof {
            lemma_run_step(b.cur(), ops, 9);
        }
        b.end_caputuring_and_restart_with("\r\n", s_any)?;
        assert(ops.skip(10).len() == 0);
        Ok(())
    }

    /// Captures the claims and then the signature of a bearer token.
    pub fn match_http_hdr_auth(&mut self) -> (r: Result<(), DfaError>)
        requires
            old(self).wf(),
            old(self).dfa_view().room() >= 37,
            old(self).dfa_view().cid < 254,
            old(self).dfa_view().rid < 254,
        ensures
            final(self).wf(),
            final(self).init_state() == old(self).init_state(),
            final(self).any_state() == old(self).any_state(),
            (final(self).dfa_view(), r) == pattern(
                old(self).dfa_view(),
                old(self).any_state(),
                hdr_auth_ops(old(self).any_state()),
            ),
    {
        proof {
            reveal_strlit("\r\n");
            reveal_strlit(":");
            reveal_strlit(".");
            reveal_strlit("Authorization");
            reveal_strlit("Bearer ");
        }
        let ghost ops = hdr_auth_ops(self.s_any);
        let s_any = self.s_any;
        let mut b = self.dfa.start_pattern(s_any);
        assert(ops.skip(0) =~= ops);
        proof {
            lemma_run_step(b.cur(), ops, 0);
        }
        b.push("\r\n")?;
        proof {
            lemma_run_step(b.cur(), ops, 1);
        }
        b.push("Authorization")?;
        proof {
            lemma_run_step(b.cur(), ops, 2);
        }
        b.push_optional('\t')?;
        proof {
            lemma_run_step(b.cur(), ops, 3);
        }
        b.push_optional(' ')?;
        proof {
            lemma_run_step(b.cur(), ops, 4);
        }
        b.push(":")?;
        proof {
            lemma_run_step(b.cur(), ops, 5);
        }
        b.push_optional('\t')?;
        proof {
            lemma_run_step(b.cur(), ops, 6);
        }
        b.push_optional(' ')?;
        proof {
            lemma_run_step(b.cur(), ops, 7);
        }
        b.push("Bearer ")?;
        proof {
            lemma_run_step(b.cur(), ops, 8);
        }
        b.start_capturing();
        proof {
            lemma_run_step(b.cur(), ops, 9);
        }
        b.push_optional('*')?;
        proof {
            lemma_run_step(b.cur(), ops, 10);
        }
        b.push(".")?;
        proof {
            lemma_run_step(b.cur(), ops, 11);
        }
        b.push_optional('*')?;
        proof {
            lemma_run_step(b.cur(), ops, 12);
        }
        b.end_capturing(".")?;
        proof {
            lemma_run_step(b.cur(), ops, 13);
        }
        b.start_capturing();
        proof {
            lemma_run_step(b.cur(), ops, 14);
        }
        b.push_optional('*')?;
        proof {
            lemma_run_step(b.cur(), ops, 15);
        }
        b.end_caputuring_and_restart_with("\r\n", s_any)?;
        assert(ops.skip(16).len() == 0);
        Ok(())
    }

    /// How many more states the DFA can take.
    pub fn free_states(&self) -> (r: u32)
        ensures
            r == self.dfa_view().room(),
    {
        self.dfa.free_states()
    }

    /// The number of range ids handed out so far.
    pub fn num_ranges(&self) -> (r: u8)
        ensures
            r == self.dfa_view().rid,
    {
        self.dfa.num_ranges()
    }

    pub fn num_captures(&self) -> (r: u8)
        ensures
            r == self.dfa_view().cid,
    {
        self.dfa.num_captures()
    }

    pub fn num_states(&self) -> (r: usize)
        ensures
            r == self.dfa_view().states.len(),
    {
        self.dfa.num_states()
    }

    /// The state after the line break that starts a header line.
    pub fn s_crlf(&self) -> (r: Option<u16>)
        requires
            self.wf(),
        ensures
            r == self.dfa_view().walk_lower(self.any_state(), seq!['\r', '\n']),
    {
        proof {
            reveal_strlit("\r\n");
        }
        let crlf = "\r\n";
        assert(crlf@ =~= seq!['\r', '\n']);
        self.dfa.get_state(self.s_any, crlf)
    }

    pub fn iter_states(&self) -> (r: Vec<u16>)
        ensures
            r@.to_set() == self.dfa_view().states,
            r@.no_duplicates(),
    {
        self.dfa.iter_states()
    }

    pub fn iter_transitions(&self) -> (r: Vec<(u16, u16, char, Action)>)
        requires
            self.wf(),
        ensures
            forall|t: (u16, u16, char, Action)|
                r@.contains(t) <==> self.dfa_view().get(t.0, t.2) == Some((t.1, t.3)),
            r@.len() == self.dfa_view().trans.dom().len(),
    {
        self.dfa.iter_transitions()
    }
}

} // verus!
