use canteen::bytes::{decimal_of, find_from, split_on, to_lower, trimmed};
use canteen::{Method, Parsed, Request};

fn complete(bytes: &[u8]) -> Request {
    match Request::parse(bytes) {
        Parsed::Complete(req) => req,
        other => panic!("a whole request was expected, got {:?}", other),
    }
}

#[test]
fn get_request_is_read() {
    let req = complete(b"GET /double/21 HTTP/1.1\r\nHost: example.org\r\nX-Mixed-Case:  some value \t\r\n\r\n");
    assert_eq!(req.method, Method::Get);
    assert_eq!(req.path, "/double/21");
    assert_eq!(
        req.headers,
        vec![
            ("host".to_string(), "example.org".to_string()),
            ("x-mixed-case".to_string(), "some value".to_string())
        ]
    );
    assert!(req.payload.is_empty());
    assert!(req.params.is_none());
    assert_eq!(req.header("HOST").map(|s| s.as_str()), Some("example.org"));
    assert_eq!(req.header("x-Mixed-case").map(|s| s.as_str()), Some("some value"));
    assert_eq!(req.header("absent"), None);
}

#[test]
fn request_without_headers_is_read() {
    let req = complete(b"DELETE /x HTTP/1.0\r\n\r\n");
    assert_eq!(req.method, Method::Delete);
    assert_eq!(req.path, "/x");
    assert!(req.headers.is_empty());
}

#[test]
fn body_follows_the_declared_length() {
    let req = complete(b"POST /person HTTP/1.1\r\nContent-Length: 5\r\n\r\nhello and more");
    assert_eq!(req.method, Method::Post);
    assert_eq!(req.payload, b"hello".to_vec());
    let empty = complete(b"POST /person HTTP/1.1\r\ncontent-length: 0\r\n\r\n");
    assert!(empty.payload.is_empty());
    let undeclared = complete(b"POST /person HTTP/1.1\r\n\r\nall of this");
    assert_eq!(undeclared.payload, b"all of this".to_vec());
}

#[test]
fn unfinished_requests_wait_for_more() {
    assert!(matches!(Request::parse(b""), Parsed::Incomplete));
    assert!(matches!(Request::parse(b"GET / HTTP/1.1\r\n"), Parsed::Incomplete));
    assert!(matches!(Request::parse(b"GET / HTTP/1.1\r\nHost: x\r\n"), Parsed::Incomplete));
    assert!(matches!(
        Request::parse(b"POST / HTTP/1.1\r\nContent-Length: 10\r\n\r\nshort"),
        Parsed::Incomplete
    ));
    assert!(matches!(
        Request::parse(b"POST / HTTP/1.1\r\nContent-Length: 99999999999999999999999999\r\n\r\nx"),
        Parsed::Incomplete
    ));
}

#[test]
fn malformed_requests_are_told_apart() {
    let bad: [&[u8]; 10] = [
        b"\r\n\r\n",
        b"GET /\r\n\r\n",
        b"GET / HTTP/2\r\n\r\n",
        b"GET  / HTTP/1.1\r\n\r\n",
        b"GET / HTTP/1.1 \r\n\r\n",
        b" / HTTP/1.1\r\n\r\n",
        b"GET / HTTP/1.1\r\nno colon here\r\n\r\n",
        b"GET / HTTP/1.1\r\n: empty name\r\n\r\n",
        b"GET / HTTP/1.1\r\nbad name: x\r\n\r\n",
        b"POST / HTTP/1.1\r\nContent-Length: five\r\n\r\nhello",
    ];
    for bytes in bad {
        assert!(
            matches!(Request::parse(bytes), Parsed::Malformed),
            "{}",
            String::from_utf8_lossy(bytes)
        );
    }
    assert!(matches!(Request::parse(b"GET /\xff HTTP/1.1\r\n\r\n"), Parsed::Malformed));
    assert!(matches!(Request::parse(b"GET / HTTP/1.1\r\nA: \xff\r\n\r\n"), Parsed::Malformed));
}

#[test]
fn methods_are_named_by_their_tokens() {
    let tokens: [(&[u8], Method); 9] = [
        (b"GET", Method::Get),
        (b"PUT", Method::Put),
        (b"POST", Method::Post),
        (b"DELETE", Method::Delete),
        (b"HEAD", Method::Head),
        (b"OPTIONS", Method::Options),
        (b"PATCH", Method::Patch),
        (b"get", Method::NoImpl),
        (b"BREW", Method::NoImpl),
    ];
    for (token, method) in tokens {
        assert_eq!(Method::from_token(token), method);
    }
}

#[test]
fn non_ascii_paths_are_decoded() {
    let req = complete("GET /caf\u{e9} HTTP/1.1\r\n\r\n".as_bytes());
    assert_eq!(req.path, "/caf\u{e9}");
}

#[test]
fn parameters_are_read_by_name() {
    let mut req = Request::new(Method::Get, "/double/21");
    assert_eq!(req.param("n"), None);
    assert_eq!(req.param_int("n"), None);
    req.params = Some(vec![
        ("n".to_string(), "21".to_string()),
        ("name".to_string(), "ann".to_string()),
        ("n".to_string(), "99".to_string()),
    ]);
    assert_eq!(req.param("n").map(|s| s.as_str()), Some("21"));
    assert_eq!(req.param("name").map(|s| s.as_str()), Some("ann"));
    assert_eq!(req.param("N"), None);
    assert_eq!(req.param_int("n"), Some(21));
    assert_eq!(req.param_int("name"), None);
    assert_eq!(req.param_int("missing"), None);
}

#[test]
fn bytes_are_searched_and_split() {
    assert_eq!(find_from(b"a--b--c", 0, b"--"), 1);
    assert_eq!(find_from(b"a--b--c", 2, b"--"), 4);
    assert_eq!(find_from(b"a--b--c", 5, b"--"), 7);
    assert_eq!(find_from(b"", 0, b"--"), 0);
    assert_eq!(split_on(b"a--b--c", b"--"), vec![b"a".to_vec(), b"b".to_vec(), b"c".to_vec()]);
    assert_eq!(split_on(b"--a--", b"--"), vec![b"".to_vec(), b"a".to_vec(), b"".to_vec()]);
    assert_eq!(split_on(b"", b"--"), vec![b"".to_vec()]);
    assert_eq!(split_on(b"---", b"--"), vec![b"".to_vec(), b"-".to_vec()]);
}

#[test]
fn bytes_are_trimmed_lowered_and_counted() {
    assert_eq!(trimmed(b" \t a b \t"), b"a b".to_vec());
    assert_eq!(trimmed(b"   "), b"".to_vec());
    assert_eq!(trimmed(b""), b"".to_vec());
    assert_eq!(to_lower(b"Content-LENGTH@[`{"), b"content-length@[`{".to_vec());
    assert_eq!(decimal_of(b"0"), Some(0));
    assert_eq!(decimal_of(b"00123"), Some(123));
    assert_eq!(decimal_of(usize::MAX.to_string().as_bytes()), Some(usize::MAX));
    assert_eq!(decimal_of(b"99999999999999999999999999"), None);
    assert_eq!(decimal_of(b""), None);
    assert_eq!(decimal_of(b"12a"), None);
    assert_eq!(decimal_of(b"-1"), None);
}
