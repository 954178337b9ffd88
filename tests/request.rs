use potato::{Method, ParseError, Request};

const RAW: &str = "GET /search?q=test HTTP/2\r\nHost: www.bing.com\r\nContent-Length: 5\r\nUser-Agent: curl/7.54.0\r\nAccept: */*\r\n\r\nHello";

#[test]
fn request_it_works() {
    let request = Request::from_bytes(RAW.as_bytes()).unwrap();

    assert_eq!(request.start_line(), "GET /search?q=test HTTP/2");
    assert_eq!(request.method(), &Method::GET);
    assert_eq!(request.target(), "/search?q=test");
    assert_eq!(request.version(), "HTTP/2");

    assert_eq!(request.headers().len(), 4);
    assert_eq!(request.headers().get("User-Agent"), Some(&"curl/7.54.0".to_owned()));
    assert_eq!(request.headers().get("Accept"), Some(&"*/*".to_owned()));
    assert_eq!(request.headers().get("Host"), Some(&"www.bing.com".to_owned()));

    assert_eq!(request.query().get("q"), Some(&"test".to_owned()));

    assert_eq!(request.get_route_key(), "GET /search HTTP/2");

    assert!(request.content().is_some());
    assert_eq!(request.content().clone().unwrap(), "Hello");
}

#[test]
fn test_from_connection() {
    let request = Request::from_bytes(RAW.as_bytes()).unwrap();

    assert_eq!(request.start_line(), "GET /search?q=test HTTP/2");
    assert_eq!(request.method(), &Method::GET);
    assert_eq!(request.target(), "/search?q=test");
    assert_eq!(request.version(), "HTTP/2");

    assert_eq!(request.headers().len(), 4);
    assert_eq!(request.headers().get("User-Agent"), Some(&"curl/7.54.0".to_owned()));
    assert_eq!(request.headers().get("Accept"), Some(&"*/*".to_owned()));
    assert_eq!(request.headers().get("Host"), Some(&"www.bing.com".to_owned()));

    assert_eq!(request.query().get("q"), Some(&"test".to_owned()));

    assert_eq!(request.get_route_key(), "GET /search HTTP/2");

    assert!(request.content().is_some());
    assert_eq!(request.content(), &Some("Hello".to_owned()));
}

#[test]
fn blank_first_line_is_no_method() {
    assert_eq!(Request::from_bytes(b"\r\n").err(), Some(ParseError::NoMethod));
}

#[test]
fn empty_stream_has_no_start_line() {
    assert_eq!(Request::from_bytes(b"").err(), Some(ParseError::NoStartLine));
}

#[test]
fn start_line_errors_come_through() {
    assert_eq!(Request::from_bytes(b"TRACE / HTTP/1.1\r\n\r\n").err(), Some(ParseError::InvalidMethod));
    assert_eq!(Request::from_bytes(b"GET\r\n\r\n").err(), Some(ParseError::NoTarget));
    assert_eq!(Request::from_bytes(b"GET /\r\n\r\n").err(), Some(ParseError::NoVersion));
}

#[test]
fn bad_content_length() {
    let raw = b"POST / HTTP/1.1\r\nContent-Length: five\r\n\r\nhello";
    assert_eq!(Request::from_bytes(raw).err(), Some(ParseError::InvalidContentLength));
    let raw = b"POST / HTTP/1.1\r\nContent-Length: -1\r\n\r\n";
    assert_eq!(Request::from_bytes(raw).err(), Some(ParseError::InvalidContentLength));
}

#[test]
fn short_body_is_a_read_error() {
    let raw = b"POST / HTTP/1.1\r\nContent-Length: 10\r\n\r\nhello";
    assert_eq!(Request::from_bytes(raw).err(), Some(ParseError::ReadError));
}

#[test]
fn invalid_utf8_is_a_read_error() {
    let raw = b"POST / HTTP/1.1\r\nContent-Length: 2\r\n\r\n\xff\xfe";
    assert_eq!(Request::from_bytes(raw).err(), Some(ParseError::ReadError));
    let raw = b"GET / HTTP/1.1\r\nX: \xff\r\n\r\n";
    assert_eq!(Request::from_bytes(raw).err(), Some(ParseError::ReadError));
}

#[test]
fn body_is_a_fixed_byte_count() {
    let raw = "POST /p HTTP/1.1\r\nContent-Length: 4\r\n\r\nh\u{e9}llo";
    let request = Request::from_bytes(raw.as_bytes()).unwrap();
    assert_eq!(request.content(), &Some("h\u{e9}l".to_owned()));

    let raw = "POST /p HTTP/1.1\r\nContent-Length: 2\r\n\r\n\u{e9}";
    let request = Request::from_bytes(raw.as_bytes()).unwrap();
    assert_eq!(request.content(), &Some("\u{e9}".to_owned()));

    let raw = "POST /p HTTP/1.1\r\nContent-Length: 2\r\n\r\nh\u{e9}";
    assert_eq!(Request::from_bytes(raw.as_bytes()).err(), Some(ParseError::ReadError));
}

#[test]
fn zero_length_body_is_none() {
    let request = Request::from_bytes(b"POST /p HTTP/1.1\r\nContent-Length: 0\r\n\r\nextra").unwrap();
    assert_eq!(request.content(), &None);
    let request = Request::from_bytes(b"POST /p HTTP/1.1\r\n\r\nextra").unwrap();
    assert_eq!(request.content(), &None);
}

#[test]
fn headers_last_line_wins_and_odd_lines_skipped() {
    let raw = b"GET / HTTP/1.1\r\nA: 1\r\nnot a header\r\nA: 2\nB:3\r\n\r\n";
    let request = Request::from_bytes(raw).unwrap();
    assert_eq!(request.headers().len(), 1);
    assert_eq!(request.headers().get("A"), Some(&"2".to_owned()));
    assert_eq!(request.headers().get("B"), None);
}

#[test]
fn headers_end_at_end_of_stream() {
    let request = Request::from_bytes(b"GET /x HTTP/1.1\nHost: h").unwrap();
    assert_eq!(request.headers().get("Host"), Some(&"h".to_owned()));
    assert_eq!(request.start_line(), "GET /x HTTP/1.1");
}

#[test]
fn empty_path_falls_back_to_start_line() {
    let request = Request::from_bytes(b"GET ?a=b HTTP/1.1\r\n\r\n").unwrap();
    assert_eq!(request.path(), "");
    assert_eq!(request.get_route_key(), "GET ?a=b HTTP/1.1");
}

#[test]
fn route_key_construction() {
    let key = Request::construct_route_key(&Method::PATCH, "/a", &"HTTP/1.1".to_owned());
    assert_eq!(key, Some("PATCH /a HTTP/1.1".to_owned()));
    assert_eq!(Request::construct_route_key(&Method::GET, "", &"HTTP/1.1".to_owned()), None);
}

#[test]
fn start_line_round_trip_of_path_and_query() {
    let request = Request::from_bytes(b"DELETE /items?k1=v1&k2=v2 HTTP/1.1\r\n\r\n").unwrap();
    assert_eq!(request.path(), "/items");
    assert_eq!(request.query().get("k1"), Some(&"v1".to_owned()));
    assert_eq!(request.query().get("k2"), Some(&"v2".to_owned()));
    let request = Request::from_bytes(b"GET /items?k=v1&k=v2 HTTP/1.1\r\n\r\n").unwrap();
    assert_eq!(request.query().get("k"), Some(&"v1".to_owned()));
}

#[test]
fn frame_len_waits_for_the_header_block() {
    assert_eq!(Request::frame_len(b""), None);
    assert_eq!(Request::frame_len(b"GET / HTTP/1.1"), None);
    assert_eq!(Request::frame_len(b"GET / HTTP/1.1\r\nHost: x\r\n"), None);
    assert_eq!(Request::frame_len(b"GET / HTTP/1.1\r\nHost: x\r\n\r\n"), Some(27));
    assert_eq!(Request::frame_len(b"\r\n\r\n"), Some(4));
}

#[test]
fn frame_len_counts_the_announced_body() {
    assert_eq!(Request::frame_len(b"POST / HTTP/1.1\r\nContent-Length: 5\r\n\r\nHe"), Some(43));
    assert_eq!(Request::frame_len(b"POST / HTTP/1.1\r\nContent-Length: x\r\n\r\n"), Some(38));
    assert_eq!(
        Request::frame_len(b"POST / HTTP/1.1\r\nContent-Length: 18446744073709551615\r\n\r\n"),
        Some(usize::MAX)
    );
}
