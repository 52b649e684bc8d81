use http::request::{
    head_supported, parse_request_line, try_read_request, ByteReader, HeadParser, Method,
    RequestError, RequestLineError,
};

#[test]
fn it_works() {
    assert_eq!(2 + 2, 4);
}

#[test]
fn read_request() {
    let req_str: &[u8] =
        b"GET / HTTP/1.1\r\nHost: 127.0.0.1:8080\r\nUser-Agent: curl/7.82.0\r\nAccept: */*\r\n\r\n";
    let mut br = ByteReader::new(req_str);
    let res = http::request::read_request(&mut br, 1 << 20);
    println!("{:#?}", res);
    assert!(res.is_ok());
}

#[test]
fn read_consecutive_request() {
    let req_str: &[u8] = b"GET / HTTP/1.1\r\nHost: 127.0.0.1:8080\r\nUser-Agent: curl/7.82.0\r\nAccept: */*\r\n\r\nGET / HTTP/1.1\r\nHost: 127.0.0.1:8080\r\nUser-Agent: curl/7.82.0\r\nAccept: */*\r\n\r\n";
    let mut stream = ByteReader::new(req_str);
    let _ = http::request::read_request(&mut stream, 1 << 20);
    let res = http::request::read_request(&mut stream, 1 << 20);
    println!("{:#?}", res);
    assert!(res.is_ok());
    assert_eq!(stream.position(), req_str.len());
}

#[test]
fn read_request_errors() {
    let mut r = ByteReader::new(b"GET /\r\n\r\n");
    assert!(matches!(
        http::request::read_request(&mut r, 1 << 20),
        Err(RequestError::RequestLine(RequestLineError::NoVersion))
    ));
    let mut r = ByteReader::new(b"GET / HTTP/1.1\r\nbogus\r\n\r\n");
    match http::request::read_request(&mut r, 1 << 20) {
        Err(RequestError::MalformedHeader(line)) => assert_eq!(line, "bogus"),
        other => panic!("unexpected {:?}", other),
    }
    let mut r = ByteReader::new(b"GET / HTTP/1.1\r\nHost: \xff\r\n\r\n");
    assert!(matches!(http::request::read_request(&mut r, 1 << 20), Err(RequestError::InvalidUtf8)));
    let mut r = ByteReader::new(b"");
    assert!(matches!(
        http::request::read_request(&mut r, 1 << 20),
        Err(RequestError::RequestLine(RequestLineError::NoMethod))
    ));
}

#[test]
fn read_request_until_end_of_data() {
    let mut r = ByteReader::new(b"GET / HTTP/1.1\r\nHost: x\r\n");
    assert!(http::request::read_request(&mut r, 1 << 20).is_ok());
}

#[test]
fn parse_request_lines() {
    let (m, u, v) = parse_request_line("GET /index.html HTTP/1.1").unwrap();
    assert!(matches!(m, Method::Get));
    assert_eq!(u, "/index.html");
    assert_eq!(v, "HTTP/1.1");
    let (m, _, _) = parse_request_line(" BREW  /pot HTCPCP/1.0 ").unwrap();
    assert!(matches!(m, Method::Extension(ref s) if s == "BREW"));
    assert_eq!(parse_request_line("").unwrap_err(), RequestLineError::NoMethod);
    assert_eq!(parse_request_line("GET").unwrap_err(), RequestLineError::NoUri);
    assert_eq!(parse_request_line("GET /").unwrap_err(), RequestLineError::NoVersion);
    assert_eq!(parse_request_line("GET / a b").unwrap_err(), RequestLineError::TooManyParts);
}

#[test]
fn method_from_str() {
    assert!(matches!(Method::from("OPTIONS"), Method::Options));
    assert!(matches!(Method::from("DELETE"), Method::Delete));
    assert!(matches!(Method::from("get"), Method::Extension(ref s) if s == "get"));
}

#[test]
fn head_parser_steps() {
    let mut p = HeadParser::new();
    assert!(matches!(p.feed("POST /x HTTP/1.0\r\n"), Ok(false)));
    assert!(matches!(p.feed("content-length:  5 \r\n"), Ok(false)));
    assert!(matches!(p.feed("\r\n"), Ok(true)));
    let req = p.into_request();
    assert_eq!(req.headers.get("Content-Length"), Some("5"));
}

#[test]
fn line_budget_counts_fetched_bytes_only() {
    // With a budget of 20 bytes a line, bytes already buffered do not count:
    // the third line is cut after "curl/7.82." and the next line is "0".
    let req_str: &[u8] =
        b"GET / HTTP/1.1\r\nHost: 127.0.0.1:8080\r\nUser-Agent: curl/7.82.0\r\nAccept: */*\r\n\r\n";
    let mut br = ByteReader::new(req_str);
    match http::request::read_request(&mut br, 20) {
        Err(RequestError::MalformedHeader(line)) => assert_eq!(line, "0"),
        other => panic!("unexpected {:?}", other),
    }
    assert_eq!(br.position(), 63);
}

#[test]
fn small_buffer_reads_the_same_lines() {
    let req_str: &[u8] = b"GET / HTTP/1.1\r\nHost: x\r\n\r\nrest";
    let mut br = ByteReader::with_capacity(req_str, 3);
    assert!(http::request::read_request(&mut br, 1 << 20).is_ok());
    assert_eq!(br.position(), 27);
    assert_eq!(br.read_line(100).unwrap(), "rest");
}

#[test]
fn unsupported_field_names_are_not_read() {
    let mut br = ByteReader::new(b"GET / HTTP/1.1\r\n-x: 1\r\n\r\n");
    assert!(!head_supported(&br, 1 << 20));
    assert!(try_read_request(&mut br, 1 << 20).is_none());
    assert_eq!(br.position(), 0);
    let mut br = ByteReader::new(b"GET / HTTP/1.1\r\nHost: x\r\n\r\n");
    assert!(head_supported(&br, 1 << 20));
    assert!(matches!(try_read_request(&mut br, 1 << 20), Some(Ok(_))));
}

#[test]
fn error_messages() {
    assert_eq!(RequestError::InvalidUtf8.message(), "stream did not contain valid UTF-8");
    assert_eq!(RequestError::RequestLine(RequestLineError::NoUri).message(), "no uri");
    assert_eq!(
        RequestError::MalformedHeader("bogus".to_string()).message(),
        "malformed header: bogus"
    );
}
