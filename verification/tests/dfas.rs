use beeline::matcher::Action as MatcherAction;
use beeline::matcher::{parser_entries, state_action_to_raw, MatcherRodata, RpcError, RpcParser};
use beeline::h1::dfa::Dfa;
use beeline::h1::http::HttpParser;
use beeline::h1::{Action, DfaError};
use beeline::h2::dfa::Dfa as H2Dfa;
use beeline::h2::parser::Parser;
use beeline::h2::Action as H2Action;
use beeline::parser::dfa::DFA;
use beeline::parser::state_machine::{sort_states, StateMachine};

#[test]
fn pushed_pattern_is_found_in_any_case() {
    let mut dfa = Dfa::new(vec![0, 1]);
    let end = {
        let mut b = dfa.start_pattern(0);
        b.push("get /").unwrap();
        b.sid
    };
    assert_eq!(dfa.get_state(0, "get /"), Some(end));
    assert_eq!(dfa.get_state(0, "GET /"), Some(end));
    assert_eq!(dfa.get_state(0, "put /"), None);
    assert_eq!(dfa.num_states(), 7);
    assert_eq!(dfa.iter_states().len(), 7);
    assert_eq!(dfa.iter_transitions().len(), 8);
}

#[test]
fn shared_prefixes_reuse_states() {
    let mut dfa = Dfa::new(vec![0, 1]);
    {
        let mut b = dfa.start_pattern(0);
        b.push("ab").unwrap();
    }
    {
        let mut b = dfa.start_pattern(0);
        b.push("ac").unwrap();
    }
    assert_eq!(dfa.num_states(), 5);
    let a = dfa.get_state(0, "a").unwrap();
    assert_eq!(dfa.get_state(a, "b"), dfa.get_state(0, "ab"));
}

#[test]
fn transitions_are_stored_in_both_cases() {
    let mut dfa = Dfa::new(vec![0, 1]);
    assert_eq!(dfa.insert_transition(0, 1, 'X', Action::NoAction), None);
    let ts = dfa.iter_transitions();
    assert!(ts.contains(&(0, 1, 'x', Action::NoAction)));
    assert!(ts.contains(&(0, 1, 'X', Action::NoAction)));
    assert_eq!(ts.len(), 2);
    assert_eq!(dfa.insert_transition(0, 0, 'x', Action::Done), Some((1, Action::NoAction)));
    assert_eq!(dfa.insert_transition(0, 1, '1', Action::NoAction), None);
    assert_eq!(dfa.iter_transitions().len(), 3);
}

#[test]
fn conflicting_actions_are_refused() {
    let mut dfa = Dfa::new(vec![0, 1]);
    {
        let mut b = dfa.start_pattern(0);
        b.push("a").unwrap();
        b.done_on("b").unwrap();
    }
    let mut b = dfa.start_pattern(0);
    b.push("a").unwrap();
    assert_eq!(b.push("b"), Err(DfaError::ConflictingAction('b')));
}

#[test]
fn captures_take_fresh_ids() {
    let mut dfa = Dfa::new(vec![0, 1]);
    let mut b = dfa.start_pattern(0);
    b.start_capturing();
    b.push_optional('*').unwrap();
    b.end_capturing(" ").unwrap();
    b.start_capturing();
    b.push_optional('*').unwrap();
    b.end_capturing("\r\n").unwrap();
    drop(b);
    assert_eq!(dfa.num_captures(), 2);
}

#[test]
fn ending_a_capture_needs_one() {
    let mut dfa = Dfa::new(vec![0, 1]);
    let mut b = dfa.start_pattern(0);
    b.push("x").unwrap();
    assert_eq!(b.end_capturing("y"), Err(DfaError::NoCaptureId));
}

#[test]
fn http_parser_builds_its_patterns() {
    let mut p = HttpParser::new(0, 1);
    assert_eq!(p.num_states(), 2);
    assert_eq!(p.s_crlf(), None);
    p.match_http_req_status_line().unwrap();
    assert_eq!(p.num_captures(), 2);
    p.match_http_hdr("host").unwrap();
    assert_eq!(p.num_captures(), 3);
    p.match_http_hdr_auth().unwrap();
    p.done_on_http_hdr_end().unwrap();
    let crlf = p.s_crlf().unwrap();
    let ts = p.iter_transitions();
    assert!(ts.iter().any(|t| t.0 == 1 && t.1 != 1 && t.2 == '\r'));
    assert!(ts.iter().any(|t| t.0 == crlf && t.2 == '\r'));
    assert!(ts.iter().any(|t| t.3 == Action::Done));
    assert_eq!(p.iter_states().len(), p.num_states());
}

#[test]
fn http2_parser_captures_headers() {
    let mut p = Parser::new(0, 1);
    assert_eq!(p.num_states(), 2);
    p.capture_http_hdr("host").unwrap();
    assert_eq!(p.num_captures(), 1);
    let ts = p.iter_transitions();
    assert!(!ts.is_empty());
    assert!(ts.iter().any(|t| t.0 == 1));
    assert_eq!(p.iter_states().len(), p.num_states());
    p.capture_http_hdr("x-custom").unwrap();
    assert_eq!(p.num_captures(), 2);
}

#[test]
fn parser_dfa_matches_any_case() {
    let mut d = DFA::new(vec![0, 1]);
    d.add_transition(0, 1, 'a', 7);
    let ts = d.iter_transitions();
    assert!(ts.contains(&(0, 1, 'a', 7)));
    assert!(ts.contains(&(0, 1, 'A', 7)));
    let s = d.add_transitions_to_new_state(1, "ok", 3);
    let ts = d.iter_transitions();
    assert!(ts.iter().any(|t| t.0 == 1 && t.2 == 'o' && t.3 == 0));
    assert!(ts.iter().any(|t| t.1 == s && t.2 == 'k' && t.3 == 3));
    let n = d.add_transition_to_new_state(s, '!', 9);
    assert!(d.iter_states().contains(&n));
    assert_eq!(d.add_transition_to_new_state(s, '!', 9), n);
}

#[test]
fn state_machine_plan_is_sorted() {
    let mut m = StateMachine::new(0, 1, 2, 3);
    assert_eq!((m.s_init(), m.s_any(), m.a_match(), m.a_done()), (0, 1, 2, 3));
    m.match_http_uri("/a");
    m.match_http_hdr("k", "v");
    let (states, entries) = m.inject_match_dfa();
    assert!(states.windows(2).all(|w| w[0] < w[1]));
    assert!(states.contains(&0) && states.contains(&1));
    assert!(entries.iter().any(|e| e.0 == 0 && e.1 == b'*' && (e.2 & 0xffff) == 0));
    assert!(entries.iter().any(|e| (e.2 >> 16) == 3));
    assert!(entries.iter().any(|e| (e.2 >> 16) == 2));
    assert_eq!(sort_states(&vec![5, 1, 3]), vec![1, 3, 5]);
}

#[test]
fn matcher_entries_encode_state_and_action() {
    let rodata = MatcherRodata { a_cap_mask: 0x0f, a_match: 0x10, a_done: 0x20 };
    assert_eq!(state_action_to_raw(3, MatcherAction::Capture(2), &rodata), (2 << 16) | 3);
    assert_eq!(state_action_to_raw(3, MatcherAction::Match(2), &rodata), (0x12 << 16) | 3);
    assert_eq!(state_action_to_raw(7, MatcherAction::Done, &rodata), (0x20 << 16) | 7);
    assert_eq!(state_action_to_raw(7, MatcherAction::NoAction, &rodata), 7);
    let ts = vec![
        (0u16, 2u16, 'a', MatcherAction::Capture(1)),
        (2, 3, 'b', MatcherAction::Match(1)),
        (3, 4, '\r', MatcherAction::Done),
        (4, 5, 'c', MatcherAction::Match(2)),
    ];
    let (entries, matches) = parser_entries(&ts, &rodata);
    assert_eq!(matches, 2);
    assert_eq!(
        entries,
        vec![(0, 'a', (1 << 16) | 2), (2, 'b', (0x11 << 16) | 3), (3, '\r', (0x20 << 16) | 4), (4, 'c', (0x12 << 16) | 5)]
    );
    assert!(MatcherAction::Done.is_some() && MatcherAction::NoAction.is_none());
}

#[test]
fn rpc_parser_matches_known_fields_only() {
    let p = RpcParser::new(0, 1, vec![("name".to_string(), 1), ("id".to_string(), 2)]);
    assert_eq!(p.s_init, 0);
    assert_eq!(p.s_any, 1);
    assert!(p.modifications.is_empty());
    assert_eq!(p.match_field("id", "7"), Ok(()));
    assert_eq!(p.match_field("other", "7"), Err(RpcError::UnknownField));
}

#[test]
fn header_captures_end_in_the_crlf_state() {
    let mut p = HttpParser::new(0, 1);
    p.match_http_hdr("host").unwrap();
    p.match_http_hdr("x-user").unwrap();
    assert_eq!(p.s_crlf(), Some(3));
    let crlf = p.s_crlf().unwrap();
    let ends: Vec<(u16, u16, char, Action)> = p
        .iter_transitions()
        .into_iter()
        .filter(|t| matches!(t.3, Action::EndCapture(_, _)))
        .collect();
    assert_eq!(ends.len(), 2);
    for t in ends {
        assert_eq!(t.2, '\n');
        assert_eq!(t.1, crlf);
    }
    assert_eq!(p.num_captures(), 2);
}

#[test]
fn h2_capture_count_grows_only_with_fresh_ids() {
    let mut dfa = H2Dfa::new(vec![0, 1]);
    assert_eq!(dfa.num_captures(), 0);
    {
        let mut b = dfa.start_pattern(1);
        b.push(b"host");
        b.capture_field_value(None);
        b.push(b"x-id");
        b.capture_field_value(Some(0));
        b.capture_field_value(None);
    }
    assert_eq!(dfa.num_captures(), 2);
    dfa.insert_transition(0, 1, b'z', H2Action::NoAction);
    assert_eq!(dfa.num_captures(), 2);
    {
        let mut b = dfa.start_pattern(0);
        b.push(b"host");
    }
    assert_eq!(dfa.num_captures(), 2);
}

#[test]
fn built_states_only_grow_and_join_every_transition() {
    let mut dfa = Dfa::new(vec![0, 1]);
    let mut counts = vec![dfa.num_states()];
    {
        let mut b = dfa.start_pattern(1);
        b.push("\r\nhost:").unwrap();
        b.start_capturing();
        b.push_optional('*').unwrap();
        b.end_caputuring_and_restart_with("\r\n", 1).unwrap();
    }
    counts.push(dfa.num_states());
    {
        let mut b = dfa.start_pattern(1);
        assert_eq!(b.end_capturing("x"), Err(DfaError::NoCaptureId));
    }
    counts.push(dfa.num_states());
    {
        let mut b = dfa.start_pattern(1);
        b.push("\r\n").unwrap();
        b.done_on("\r\n").unwrap();
    }
    counts.push(dfa.num_states());
    assert!(counts.windows(2).all(|w| w[0] <= w[1]));
    assert_eq!(counts[1], counts[2]);
    let states = dfa.iter_states();
    assert_eq!(states.len(), dfa.num_states());
    for t in dfa.iter_transitions() {
        assert!(states.contains(&t.0));
        assert!(states.contains(&t.1));
    }
}

#[test]
fn pushing_a_mixed_case_pattern_twice_changes_nothing() {
    let mut dfa = Dfa::new(vec![0, 1]);
    let first = {
        let mut b = dfa.start_pattern(0);
        b.push("Content-Type").unwrap();
        b.sid
    };
    let states = dfa.num_states();
    let transitions = dfa.iter_transitions().len();
    let second = {
        let mut b = dfa.start_pattern(0);
        b.push("Content-Type").unwrap();
        b.sid
    };
    assert_eq!(first, second);
    assert_eq!(dfa.num_states(), states);
    assert_eq!(dfa.iter_transitions().len(), transitions);
}
