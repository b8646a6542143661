use beeline::http_head::{
    content_length, h1_request_progress, head_fields, insert_conn_id, message_fields,
    request_progress, Head, HeadError, HeadStatus, Progress,
};
use beeline::lb::{parse_hdr, HTTP};

#[test]
fn request_header_is_read() {
    let buf = b"GET /index.html HTTP/1.1\r\nHost: Example\r\nX-A:  one \r\nx-a: two\r\n\r\nbody";
    let (req, hdrs, len) = parse_hdr(buf).unwrap();
    match &req {
        HTTP::GET(u) => assert_eq!(u, "/index.html"),
        _ => panic!("expected GET"),
    }
    assert_eq!(req.url(), "/index.html");
    assert_eq!(len, 65);
    assert_eq!(
        hdrs,
        vec![
            ("host".to_string(), "example".to_string()),
            ("x-a".to_string(), "two".to_string()),
        ]
    );
}

#[test]
fn request_header_needs_end_and_request_line() {
    assert!(parse_hdr(b"GET / HTTP/1.1\r\nHost: a\r\n").is_none());
    assert!(parse_hdr(b"HEAD / HTTP/1.1\r\n\r\n").is_none());
    let (req, hdrs, len) = parse_hdr(b"junk\r\nDELETE /x HTTP/1.1\r\n\r\n").unwrap();
    assert!(matches!(req, HTTP::DELETE(ref u) if u == "/x"));
    assert!(hdrs.is_empty());
    assert_eq!(len, 28);
}

#[test]
fn request_progress_by_announced_length() {
    assert_eq!(request_progress(10, 5, 14), Progress::Incomplete(15));
    assert_eq!(request_progress(10, 5, 15), Progress::Complete(15));
    let full = b"POST / HTTP/1.1\r\nContent-Length: 4\r\n\r\nabcd";
    assert_eq!(h1_request_progress(full), Progress::Complete(full.len()));
    assert_eq!(h1_request_progress(&full[..full.len() - 1]), Progress::Incomplete(full.len()));
    assert_eq!(h1_request_progress(b"POST / HTTP/1.1\r\nContent-Le"), Progress::Partial);
    assert_eq!(h1_request_progress(b"\x01\x02 nonsense\r\n\r\n"), Progress::Invalid);
    assert_eq!(h1_request_progress(b"GET / HTTP/1.1\r\n\r\n"), Progress::Complete(18));
}

#[test]
fn message_fields_of_requests_and_responses() {
    let req = b"GET / HTTP/1.1\r\nBackend: server1\r\nBACKEND: server2\r\n\r\n";
    let (fs, n) = message_fields(req, true).unwrap();
    assert_eq!(n, req.len());
    assert_eq!(fs, vec![("backend".to_string(), "server2".to_string())]);
    let res = b"HTTP/1.1 200 OK\r\nconn-id: 77\r\nContent-Length: 0\r\n\r\n";
    let (fs, n) = message_fields(res, false).unwrap();
    assert_eq!(n, res.len());
    assert_eq!(
        fs,
        vec![
            ("conn-id".to_string(), "77".to_string()),
            ("content-length".to_string(), "0".to_string()),
        ]
    );
    assert_eq!(message_fields(b"GET / HTTP/1.1\r\nA: b", true), Err(HeadError::Partial));
    assert_eq!(message_fields(res, true), Err(HeadError::Invalid));
}

#[test]
fn head_fields_need_text_values() {
    let head = Head {
        status: HeadStatus::Complete(9),
        headers: vec![("A".to_string(), vec![0xff, 0xfe])],
    };
    assert_eq!(head_fields(&head), Err(HeadError::NotText));
    let head = Head { status: HeadStatus::Partial, headers: vec![] };
    assert_eq!(head_fields(&head), Err(HeadError::Partial));
}

#[test]
fn content_length_of_a_head() {
    let head = Head {
        status: HeadStatus::Complete(3),
        headers: vec![
            ("Host".to_string(), b"a".to_vec()),
            ("content-LENGTH".to_string(), b"42".to_vec()),
            ("Content-Length".to_string(), b"7".to_vec()),
        ],
    };
    assert_eq!(content_length(&head), 42);
    let head = Head {
        status: HeadStatus::Complete(3),
        headers: vec![("Content-Length".to_string(), b"x".to_vec())],
    };
    assert_eq!(content_length(&head), 0);
    let head = Head { status: HeadStatus::Complete(3), headers: vec![] };
    assert_eq!(content_length(&head), 0);
}

#[test]
fn conn_id_is_inserted_before_the_empty_line() {
    let mut buf = b"GET / HTTP/1.1\r\nHost: a\r\n\r\nbody".to_vec();
    let hdr_len = 27;
    insert_conn_id(&mut buf, hdr_len, 51234);
    assert_eq!(buf, b"GET / HTTP/1.1\r\nHost: a\r\nconn-id: 51234\r\n\r\nbody".to_vec());
    let (fs, _) = message_fields(&buf, true).unwrap();
    assert!(fs.contains(&("conn-id".to_string(), "51234".to_string())));
}
