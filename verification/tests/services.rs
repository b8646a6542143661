use beeline::services::{EchoService, echo_signature, header_args, service_url, split_terminator_exec, MetaError};

fn chars(s: &str) -> Vec<char> {
    s.chars().collect()
}

fn strings(v: Vec<Vec<char>>) -> Vec<String> {
    v.into_iter().map(|c| c.into_iter().collect()).collect()
}

#[test]
fn split_terminator_drops_an_empty_last_piece() {
    assert_eq!(strings(split_terminator_exec(&chars("a,b,"), ',')), vec!["a", "b"]);
    assert_eq!(strings(split_terminator_exec(&chars("a,,b"), ',')), vec!["a", "", "b"]);
    assert_eq!(strings(split_terminator_exec(&chars(""), ',')), Vec::<String>::new());
    assert_eq!(strings(split_terminator_exec(&chars(","), ',')), vec![""]);
    let s = "x:y:";
    let expected: Vec<String> = s.split_terminator(':').map(|p| p.to_string()).collect();
    assert_eq!(strings(split_terminator_exec(&chars(s), ':')), expected);
}

#[test]
fn services_are_addressed_directly_or_through_the_proxy() {
    assert_eq!(service_url(None, "echo", 3), "http://echo3/");
    assert_eq!(service_url(Some("10.0.0.1:8080"), "echo", 12), "http://10.0.0.1:8080/echo12");
}

#[test]
fn header_arguments_are_read() {
    let args = vec!["a: 1, b:2".to_string(), " backend : server1 ".to_string()];
    assert_eq!(
        header_args(&args),
        Some(vec![
            ("a".to_string(), "1".to_string()),
            ("b".to_string(), "2".to_string()),
            ("backend".to_string(), "server1".to_string()),
        ])
    );
    assert_eq!(header_args(&vec!["a: 1, b".to_string()]), None);
    assert_eq!(header_args(&vec![]), Some(vec![]));
}

#[test]
fn echo_signature_is_the_last_one_given() {
    let meta = vec!["signature: s1".to_string(), "zone: a".to_string(), "signature: s2".to_string()];
    assert_eq!(echo_signature(&meta), Ok("s2".to_string()));
    assert_eq!(echo_signature(&vec!["zone: a".to_string()]), Err(MetaError::NoSignature));
    assert_eq!(echo_signature(&vec!["signature".to_string()]), Err(MetaError::Malformed));
}

#[test]
fn echo_service_answers_with_its_signature() {
    let svc = EchoService::from_meta(&vec!["signature: sig-1".to_string()]).unwrap();
    assert_eq!(svc.send(b"payload".to_vec()), ("sig-1".to_string(), b"payload".to_vec()));
    assert!(matches!(EchoService::from_meta(&vec![]), Err(MetaError::NoSignature)));
}
